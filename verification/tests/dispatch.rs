use qu_interp::dispatch::{cube_work, pick_crossover, would_use_gpu, MIN_SANE_CROSSOVER};

#[test]
fn would_use_gpu_routes_above_and_below_crossover_correctly() {
    assert!(!would_use_gpu(true, 1000, 999), "just below crossover must stay on CPU");
    assert!(would_use_gpu(true, 1000, 1000), "exactly at crossover must route to GPU");
    assert!(would_use_gpu(true, 1000, 1_000_000), "well above crossover must route to GPU");
    assert!(!would_use_gpu(false, 1000, 1_000_000), "no GPU available must never route to GPU regardless of size");
}

#[test]
fn crossover_is_the_first_size_the_gpu_won_floored() {
    let samples = [(cube_work(128), false), (cube_work(256), true), (cube_work(512), true)];
    assert_eq!(pick_crossover(&samples), 256 * 256 * 256);
    let small = [(1000usize, true)];
    assert_eq!(pick_crossover(&small), MIN_SANE_CROSSOVER);
    assert_eq!(pick_crossover(&[(10usize, false)]), usize::MAX);
    assert_eq!(pick_crossover(&[]), usize::MAX);
}

#[test]
fn cube_work_saturates() {
    assert_eq!(cube_work(1024), 1 << 30);
    assert_eq!(cube_work(usize::MAX), usize::MAX);
}
