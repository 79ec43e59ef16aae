//! Two small containers a script shares between producers and consumers:
//! a bounded ring buffer that keeps the most recent values, and a double
//! buffer whose readers never see a write before it is swapped in.

use vstd::prelude::*;
use std::collections::VecDeque;
use crate::text;

verus! {

/// The items after pushing `v` onto a ring buffer holding `s` with room
/// for `cap`: the oldest item makes way when it is full.
pub open spec fn ring_push<T>(s: Seq<T>, cap: nat, v: T) -> Seq<T> {
    if s.len() >= cap { s.drop_first().push(v) } else { s.push(v) }
}

/// The items after pushing each of `vs` in turn.
pub open spec fn ring_push_all<T>(s: Seq<T>, cap: nat, vs: Seq<T>) -> Seq<T>
    decreases vs.len(),
{
    if vs.len() == 0 { s } else { ring_push(ring_push_all(s, cap, vs.drop_last()), cap, vs.last()) }
}

/// A bounded first-in-first-out buffer. Pushing onto a full one evicts the
/// oldest item, so it always holds the most recent values, oldest first.
pub struct FifoState<T> {
    capacity: usize,
    data: VecDeque<T>,
}

impl<T> FifoState<T> {
    /// The items, oldest first.
    pub closed spec fn items(&self) -> Seq<T> {
        self.data@
    }

    /// How many items it holds at most.
    pub closed spec fn cap(&self) -> nat {
        self.capacity as nat
    }

    /// Room for at least one item, and never more items than room.
    pub open spec fn wf(&self) -> bool {
        0 < self.cap() && self.items().len() <= self.cap()
    }

    /// An empty buffer with room for `capacity` items; a capacity below 1
    /// is an error.
    pub fn new(capacity: i64) -> (r: Result<Self, String>)
        requires
            capacity <= usize::MAX,
        ensures
            r is Ok <==> capacity > 0,
            r matches Ok(f) ==> f.wf() && f.items() == Seq::<T>::empty() && f.cap() == capacity,
    {
        if capacity <= 0 {
            return Err(text::with_signed(
                "fifo(capacity): capacity must be a positive integer, got ",
                capacity,
                "",
            ));
        }
        Ok(FifoState { capacity: capacity as usize, data: VecDeque::new() })
    }

    /// Appends `v`, evicting the oldest item first when full.
    pub fn push(&mut self, v: T)
        requires
            old(self).wf(),
        ensures
            final(self).wf(),
            final(self).cap() == old(self).cap(),
            final(self).items() == ring_push(old(self).items(), old(self).cap(), v),
    {
        if self.data.len() >= self.capacity {
            let _ = self.data.pop_front();
        }
        self.data.push_back(v);
        proof {
            assert(self.data@ =~= ring_push(old(self).items(), old(self).cap(), v));
        }
    }

    /// Removes and returns the oldest item; an empty buffer is an error.
    pub fn pop(&mut self) -> (r: Result<T, String>)
        requires
            old(self).wf(),
        ensures
            final(self).wf(),
            final(self).cap() == old(self).cap(),
            r is Err <==> old(self).items().len() == 0,
            r matches Ok(v) ==> v == old(self).items()[0] && final(self).items() == old(self).items().drop_first(),
            r is Err ==> final(self).items() == old(self).items(),
    {
        match self.data.pop_front() {
            Some(v) => Ok(v),
            None => Err(text::owned("pop: fifo is empty")),
        }
    }

    /// The oldest item, left in place; an empty buffer is an error.
    pub fn peek(&self) -> (r: Result<&T, String>)
        ensures
            r is Err <==> self.items().len() == 0,
            r matches Ok(v) ==> *v == self.items()[0],
    {
        if self.data.len() == 0 {
            Err(text::owned("peek: fifo is empty"))
        } else {
            Ok(&self.data[0])
        }
    }

    /// Whether the next push would evict.
    pub fn is_full(&self) -> (b: bool)
        ensures
            b == (self.items().len() >= self.cap()),
    {
        self.data.len() >= self.capacity
    }

    /// Whether it holds no items.
    pub fn is_empty(&self) -> (b: bool)
        ensures
            b == (self.items().len() == 0),
    {
        self.data.len() == 0
    }

    /// How many items it holds.
    pub fn len(&self) -> (n: usize)
        ensures
            n == self.items().len(),
    {
        self.data.len()
    }

    /// How many items it holds at most.
    pub fn capacity(&self) -> (n: usize)
        ensures
            n == self.cap(),
    {
        self.capacity
    }
}

/// A ring buffer never holds more than its capacity, whatever is pushed.
pub proof fn lemma_ring_bounded<T>(s: Seq<T>, cap: nat, vs: Seq<T>)
    requires
        0 < cap,
        s.len() <= cap,
    ensures
        ring_push_all(s, cap, vs).len() <= cap,
    decreases vs.len(),
{
    if vs.len() > 0 {
        lemma_ring_bounded(s, cap, vs.drop_last());
    }
}

/// The last `cap` items of `s` (all of them when there are fewer).
pub open spec fn most_recent<T>(s: Seq<T>, cap: nat) -> Seq<T> {
    if s.len() > cap { s.skip(s.len() - cap) } else { s }
}

/// Pushing values in turn onto a ring buffer leaves exactly the most
/// recent `cap` of everything it has held, oldest first.
pub proof fn lemma_ring_keeps_most_recent<T>(s: Seq<T>, cap: nat, vs: Seq<T>)
    requires
        0 < cap,
        s.len() <= cap,
    ensures
        ring_push_all(s, cap, vs) == most_recent(s + vs, cap),
    decreases vs.len(),
{
    if vs.len() == 0 {
        assert(s + vs =~= s);
    } else {
        let init = vs.drop_last();
        lemma_ring_keeps_most_recent(s, cap, init);
        let prev = ring_push_all(s, cap, init);
        let all = s + vs;
        assert(all =~= (s + init).push(vs.last()));
        assert(ring_push(prev, cap, vs.last()) =~= most_recent(all, cap));
    }
}

/// A double buffer: writers write the back slot while readers see the
/// front one, until a swap exchanges the two.
pub struct DoubleBufferState<T> {
    front: T,
    back: T,
}

impl<T> DoubleBufferState<T> {
    /// The slot readers see.
    pub closed spec fn front_value(&self) -> T {
        self.front
    }

    /// The slot writers write.
    pub closed spec fn back_value(&self) -> T {
        self.back
    }

    /// Both slots start out as `initial` (the front one a clone of it), so
    /// the first read is well defined.
    pub fn new(initial: T) -> (s: Self)
        where T: Clone
        ensures
            cloned(initial, s.front_value()),
            s.back_value() == initial,
    {
        DoubleBufferState { front: initial.clone(), back: initial }
    }

    /// The slot readers see.
    pub fn front(&self) -> (r: &T)
        ensures
            *r == self.front_value(),
    {
        &self.front
    }

    /// The slot writers write.
    pub fn back(&self) -> (r: &T)
        ensures
            *r == self.back_value(),
    {
        &self.back
    }

    /// Writes the back slot only; what readers see is unchanged.
    pub fn write(&mut self, v: T)
        ensures
            final(self).front_value() == old(self).front_value(),
            final(self).back_value() == v,
    {
        self.back = v;
    }

    /// Exchanges the two slots.
    pub fn swap(&mut self)
        ensures
            final(self).front_value() == old(self).back_value(),
            final(self).back_value() == old(self).front_value(),
    {
        std::mem::swap(&mut self.front, &mut self.back);
    }
}

/// What readers see changes only at a swap: after a write the front slot
/// is what it was, and the swap that follows makes the written value the
/// front one.
pub proof fn lemma_write_shows_after_swap<T>(before: DoubleBufferState<T>, written: DoubleBufferState<T>,
    swapped: DoubleBufferState<T>, v: T)
    requires
        written.front_value() == before.front_value(),
        written.back_value() == v,
        swapped.front_value() == written.back_value(),
        swapped.back_value() == written.front_value(),
    ensures
        written.front_value() == before.front_value(),
        swapped.front_value() == v,
        swapped.back_value() == before.front_value(),
{
}

} // verus!
