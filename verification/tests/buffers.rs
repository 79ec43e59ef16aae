use qu_interp::buffers::{DoubleBufferState, FifoState};

#[test]
fn fifo_pops_in_arrival_order() {
    let mut f: FifoState<i32> = FifoState::new(3).unwrap();
    f.push(1);
    f.push(2);
    assert_eq!(f.len(), 2);
    assert_eq!(*f.peek().unwrap(), 1);
    assert_eq!(f.pop().unwrap(), 1);
    assert_eq!(f.pop().unwrap(), 2);
    assert!(f.is_empty());
}

#[test]
fn a_full_fifo_evicts_the_oldest_and_keeps_the_most_recent() {
    let mut f: FifoState<i32> = FifoState::new(3).unwrap();
    for v in 1..=5 {
        f.push(v);
    }
    assert!(f.is_full());
    assert_eq!(f.len(), 3);
    assert_eq!(f.capacity(), 3);
    assert_eq!(f.pop().unwrap(), 3);
    assert_eq!(f.pop().unwrap(), 4);
    assert_eq!(f.pop().unwrap(), 5);
}

#[test]
fn an_empty_fifo_refuses_pop_and_peek() {
    let mut f: FifoState<u8> = FifoState::new(1).unwrap();
    assert!(f.pop().is_err());
    assert!(f.peek().is_err());
}

#[test]
fn a_fifo_needs_a_positive_capacity() {
    assert!(FifoState::<u8>::new(0).is_err());
    assert!(FifoState::<u8>::new(-4).is_err());
}

#[test]
fn double_buffer_read_stays_stale_until_swap_then_sees_new_value() {
    let mut b = DoubleBufferState::new(10);
    assert_eq!(*b.front(), 10);
    b.write(20);
    assert_eq!(*b.front(), 10, "a write must not show before the swap");
    assert_eq!(*b.back(), 20);
    b.swap();
    assert_eq!(*b.front(), 20);
    assert_eq!(*b.back(), 10);
}
