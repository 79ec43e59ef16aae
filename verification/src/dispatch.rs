//! The CPU-or-GPU routing rule for matrix products: offload only when a
//! GPU is present and the work reaches the crossover measured on this
//! machine, and how that crossover is read off the timing samples.

use vstd::prelude::*;

verus! {

/// Below this many multiply-adds offloading never pays, whatever one
/// noisy timing sample says.
pub const MIN_SANE_CROSSOVER: usize = 1048576;

/// Whether `work` multiply-adds go to the GPU: only with a GPU, and only
/// at or above the crossover.
pub fn would_use_gpu(gpu_available: bool, crossover: usize, work: usize) -> (b: bool)
    ensures
        b == (gpu_available && work >= crossover),
{
    gpu_available && work >= crossover
}

/// The work of an `n x n` by `n x n` product, `n^3`, saturating at
/// `usize::MAX`.
pub fn cube_work(n: usize) -> (w: usize)
    ensures
        w == if n * n * n <= usize::MAX { n * n * n } else { usize::MAX as int },
{
    let sq = n.checked_mul(n);
    match sq {
        Some(s) => match s.checked_mul(n) {
            Some(c) => c,
            None => {
                assert(n * n * n == s * n);
                usize::MAX
            },
        },
        None => {
            proof {
                if n > 0 {
                    assert(n * n * n >= n * n) by (nonlinear_arith) requires n >= 1;
                }
            }
            usize::MAX
        },
    }
}

/// The crossover the samples give: the work of the first sample (in the
/// order raced) where the GPU finished first, raised to
/// `MIN_SANE_CROSSOVER`; `usize::MAX` when the GPU never won.
pub open spec fn crossover_of(samples: Seq<(usize, bool)>) -> int
    decreases samples.len(),
{
    if samples.len() == 0 {
        usize::MAX as int
    } else if samples[0].1 {
        if samples[0].0 >= MIN_SANE_CROSSOVER { samples[0].0 as int } else { MIN_SANE_CROSSOVER as int }
    } else {
        crossover_of(samples.drop_first())
    }
}

/// Reads the crossover off `(work, gpu_was_faster)` samples taken in
/// increasing order of size.
pub fn pick_crossover(samples: &[(usize, bool)]) -> (c: usize)
    ensures
        c == crossover_of(samples@),
{
    let mut i: usize = 0;
    assert(samples@.skip(0) =~= samples@);
    while i < samples.len()
        invariant
            i <= samples@.len(),
            crossover_of(samples@) == crossover_of(samples@.skip(i as int)),
        decreases samples@.len() - i,
    {
        let (work, gpu_faster) = samples[i];
        if gpu_faster {
            proof {
                assert(samples@.skip(i as int)[0] == samples@[i as int]);
            }
            return if work >= MIN_SANE_CROSSOVER { work } else { MIN_SANE_CROSSOVER };
        }
        proof {
            assert(samples@.skip(i as int).drop_first() =~= samples@.skip(i + 1));
        }
        i += 1;
    }
    proof {
        assert(samples@.skip(i as int).len() == 0);
    }
    usize::MAX
}

} // verus!
