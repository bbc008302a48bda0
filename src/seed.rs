use vstd::prelude::*;

verus! {

/// Row-major number of pixel `(x, y)` in a raster of width `w`.
pub open spec fn pixel_number(w: int, x: int, y: int) -> int {
    y * w + x
}

/// The seed of pixel `(x, y)`: the global seed with the pixel's row-major
/// number folded in by exclusive or.
pub open spec fn seed_of(global_seed: u64, width: u32, x: u32, y: u32) -> u64 {
    global_seed ^ (pixel_number(width as int, x as int, y as int) as u64)
}

/// The seed for the random source of pixel `(x, y)` of a raster `width`
/// pixels wide: it depends on the global seed and the coordinates alone, so a
/// pixel draws the same numbers whichever worker computes it.
pub fn pixel_seed(global_seed: u64, width: u32, x: u32, y: u32) -> (s: u64)
    requires
        x < width,
    ensures
        s == seed_of(global_seed, width, x, y),
{
    proof {
        assert((y as int) * (width as int) + (x as int) <= u64::MAX) by (nonlinear_arith)
            requires
                y <= u32::MAX,
                width <= u32::MAX,
                x < width,
        ;
    }
    let n: u64 = (y as u64) * (width as u64) + (x as u64);
    global_seed ^ n
}

/// Two different pixels of one raster never share a seed.
pub proof fn lemma_pixel_seeds_distinct(global_seed: u64, width: u32, x1: u32, y1: u32, x2: u32, y2: u32)
    requires
        x1 < width,
        x2 < width,
        x1 != x2 || y1 != y2,
    ensures
        seed_of(global_seed, width, x1, y1) != seed_of(global_seed, width, x2, y2),
{
    let n1 = pixel_number(width as int, x1 as int, y1 as int);
    let n2 = pixel_number(width as int, x2 as int, y2 as int);
    assert(0 <= n1 <= u64::MAX && 0 <= n2 <= u64::MAX) by (nonlinear_arith)
        requires
            n1 == y1 * width + x1,
            n2 == y2 * width + x2,
            x1 < width,
            x2 < width,
            y1 <= u32::MAX,
            y2 <= u32::MAX,
            width <= u32::MAX,
    ;
    if y1 == y2 {
        assert(n1 != n2);
    } else if y1 < y2 {
        assert(n1 < n2) by (nonlinear_arith)
            requires
                n1 == y1 * width + x1,
                n2 == y2 * width + x2,
                x1 < width,
                y1 < y2,
                0 <= x2,
        ;
    } else {
        assert(n2 < n1) by (nonlinear_arith)
            requires
                n1 == y1 * width + x1,
                n2 == y2 * width + x2,
                x2 < width,
                y2 < y1,
                0 <= x1,
        ;
    }
    let a = n1 as u64;
    let b = n2 as u64;
    assert(a != b ==> global_seed ^ a != global_seed ^ b) by (bit_vector);
}

} // verus!
