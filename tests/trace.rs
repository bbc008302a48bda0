use rand::rngs::StdRng;
use rand::{Rng, SeedableRng};
use pathtrace::seed::pixel_seed;
use pathtrace::trace::{depth_after_scatter, nearest_hit, step_after_hit_test, TraceStep, MAX_DEPTH};

#[test]
fn miss_shows_background_at_any_depth() {
    assert_eq!(step_after_hit_test(0, false), TraceStep::Background);
    assert_eq!(step_after_hit_test(MAX_DEPTH, false), TraceStep::Background);
}

#[test]
fn hit_below_limit_scatters() {
    assert_eq!(step_after_hit_test(0, true), TraceStep::Scatter);
    assert_eq!(step_after_hit_test(63, true), TraceStep::Scatter);
}

#[test]
fn hit_at_limit_is_black() {
    assert_eq!(MAX_DEPTH, 64);
    assert_eq!(step_after_hit_test(64, true), TraceStep::Black);
    assert_eq!(step_after_hit_test(u32::MAX, true), TraceStep::Black);
}

#[test]
fn scatter_goes_one_deeper_absorb_ends() {
    assert_eq!(depth_after_scatter(0, true), Some(1));
    assert_eq!(depth_after_scatter(63, true), Some(64));
    assert_eq!(depth_after_scatter(5, false), None);
}

#[test]
fn path_never_exceeds_max_depth() {
    let mut depth: u32 = 0;
    let mut bounces: u32 = 0;
    while step_after_hit_test(depth, true) == TraceStep::Scatter {
        depth = depth_after_scatter(depth, true).unwrap();
        bounces += 1;
    }
    assert_eq!(bounces, MAX_DEPTH);
    assert_eq!(step_after_hit_test(depth, true), TraceStep::Black);
}

#[test]
fn nearest_hit_picks_smallest_key() {
    let keys = vec![Some(50), None, Some(20), Some(30)];
    assert_eq!(nearest_hit(&keys, u32::MAX), Some(2));
}

#[test]
fn nearest_hit_first_of_ties() {
    let keys = vec![None, Some(7), Some(7), Some(9)];
    assert_eq!(nearest_hit(&keys, u32::MAX), Some(1));
}

#[test]
fn nearest_hit_none_when_nothing_hit() {
    assert_eq!(nearest_hit(&vec![], 100), None);
    assert_eq!(nearest_hit(&vec![None, None], 100), None);
}

#[test]
fn nearest_hit_ignores_keys_at_or_past_bound() {
    assert_eq!(nearest_hit(&vec![Some(100), Some(200)], 100), None);
    assert_eq!(nearest_hit(&vec![Some(100), Some(99)], 100), Some(1));
}

#[test]
fn nearest_hit_from_float_parameters() {
    let ts: Vec<f32> = vec![3.5, 0.75, 1.25];
    let keys: Vec<Option<u32>> = ts.iter().map(|t| Some(t.to_bits())).collect();
    assert_eq!(nearest_hit(&keys, f32::MAX.to_bits()), Some(1));
}

#[test]
fn seed_folds_in_row_major_number() {
    assert_eq!(pixel_seed(0, 10, 3, 2), 23);
    assert_eq!(pixel_seed(0xff00, 10, 3, 2), 0xff00 ^ 23);
    assert_eq!(pixel_seed(5, 4, 0, 0), 5);
}

#[test]
fn seed_is_repeatable_and_distinct_per_pixel() {
    assert_eq!(pixel_seed(42, 8, 7, 3), pixel_seed(42, 8, 7, 3));
    let mut seen = Vec::new();
    for y in 0..4u32 {
        for x in 0..8u32 {
            seen.push(pixel_seed(42, 8, x, y));
        }
    }
    let n = seen.len();
    seen.sort();
    seen.dedup();
    assert_eq!(seen.len(), n);
}

#[test]
fn seed_of_largest_pixel() {
    let w = u32::MAX;
    let expected = (u32::MAX as u64 - 1) * (u32::MAX as u64) + (u32::MAX as u64 - 1);
    assert_eq!(pixel_seed(0, w, w - 1, u32::MAX - 1), expected);
}

#[test]
fn same_pixel_seed_gives_same_draws() {
    let mut a = StdRng::seed_from_u64(pixel_seed(9, 16, 5, 3));
    let mut b = StdRng::seed_from_u64(pixel_seed(9, 16, 5, 3));
    let da: Vec<f32> = (0..32).map(|_| a.gen::<f32>()).collect();
    let db: Vec<f32> = (0..32).map(|_| b.gen::<f32>()).collect();
    assert_eq!(da, db);
    let mut c = StdRng::seed_from_u64(pixel_seed(9, 16, 6, 3));
    let dc: Vec<f32> = (0..32).map(|_| c.gen::<f32>()).collect();
    assert_ne!(da, dc);
}
