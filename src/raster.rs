use vstd::arithmetic::div_mod::{lemma_fundamental_div_mod, lemma_fundamental_div_mod_converse};
use vstd::prelude::*;

verus! {

/// One 8-bit RGB pixel.
#[derive(Clone, Copy, Debug, PartialEq, Eq, Structural)]
pub struct Rgb8 {
    pub r: u8,
    pub g: u8,
    pub b: u8,
}

/// A finished pixel: its column, its row and its color.
#[derive(Clone, Copy, Debug, PartialEq, Eq, Structural)]
pub struct PixelWrite {
    pub x: u32,
    pub y: u32,
    pub color: Rgb8,
}

/// A dense RGB8 raster, row-major with its origin at the top left, three
/// channel bytes per pixel. It is held in an `image::RgbImage`.
#[verifier::external_body]
pub struct Raster {
    img: image::RgbImage,
}

/// The channel bytes of a raster, row-major, three per pixel.
pub uninterp spec fn raster_samples(r: Raster) -> Seq<u8>;

/// The width in pixels that a raster was made with.
pub uninterp spec fn raster_width(r: Raster) -> u32;

/// The height in pixels that a raster was made with.
pub uninterp spec fn raster_height(r: Raster) -> u32;

/// Number of channel bytes of a `w` x `h` raster.
pub open spec fn sample_count(w: int, h: int) -> int {
    3 * w * h
}

/// Index of the first channel byte of pixel `(x, y)` in a raster of width `w`.
pub open spec fn sample_index(w: int, x: int, y: int) -> int {
    3 * (y * w + x)
}

/// Byte `c` (0 red, 1 green, 2 blue) of a color.
pub open spec fn channel(color: Rgb8, c: int) -> u8 {
    if c == 0 {
        color.r
    } else if c == 1 {
        color.g
    } else {
        color.b
    }
}

/// The color stored for pixel `(x, y)` in the channel bytes `s` of a raster of width `w`.
pub open spec fn pixel_of(s: Seq<u8>, w: int, x: int, y: int) -> Rgb8 {
    let i = sample_index(w, x, y);
    Rgb8 { r: s[i], g: s[i + 1], b: s[i + 2] }
}

/// The raster is well formed: it holds exactly three bytes per pixel.
pub open spec fn raster_wf(r: Raster) -> bool {
    raster_samples(r).len() == sample_count(raster_width(r) as int, raster_height(r) as int)
}

/// Relies on `ImageBuffer::new`: it allocates `3 * width * height` zero
/// channel bytes (it panics when that length overflows `usize`).
#[verifier::external_body]
fn image_new(width: u32, height: u32) -> (r: Raster)
    requires
        sample_count(width as int, height as int) <= isize::MAX,
    ensures
        raster_width(r) == width,
        raster_height(r) == height,
        raster_samples(r) == Seq::new(sample_count(width as int, height as int) as nat, |i: int| 0u8),
{
    Raster { img: image::RgbImage::new(width, height) }
}

/// Relies on `ImageBuffer::width`: the width the buffer was made with.
#[verifier::external_body]
fn image_width(r: &Raster) -> (w: u32)
    ensures
        w == raster_width(*r),
{
    r.img.width()
}

/// Relies on `ImageBuffer::height`: the height the buffer was made with.
#[verifier::external_body]
fn image_height(r: &Raster) -> (h: u32)
    ensures
        h == raster_height(*r),
{
    r.img.height()
}

/// Relies on `ImageBuffer::put_pixel`: it overwrites the three channel bytes
/// at `3 * (y * width + x)` and nothing else (it panics out of bounds).
#[verifier::external_body]
fn image_put_pixel(r: &mut Raster, x: u32, y: u32, color: Rgb8)
    requires
        raster_wf(*old(r)),
        x < raster_width(*old(r)),
        y < raster_height(*old(r)),
    ensures
        raster_width(*final(r)) == raster_width(*old(r)),
        raster_height(*final(r)) == raster_height(*old(r)),
        raster_samples(*final(r)) == raster_samples(*old(r)).update(
            sample_index(raster_width(*old(r)) as int, x as int, y as int),
            color.r,
        ).update(sample_index(raster_width(*old(r)) as int, x as int, y as int) + 1, color.g).update(
            sample_index(raster_width(*old(r)) as int, x as int, y as int) + 2,
            color.b,
        ),
{
    r.img.put_pixel(x, y, image::Rgb([color.r, color.g, color.b]))
}

/// Relies on `ImageBuffer::get_pixel`: the three channel bytes at
/// `3 * (y * width + x)` (it panics out of bounds).
#[verifier::external_body]
fn image_get_pixel(r: &Raster, x: u32, y: u32) -> (c: Rgb8)
    requires
        raster_wf(*r),
        x < raster_width(*r),
        y < raster_height(*r),
    ensures
        c == pixel_of(raster_samples(*r), raster_width(*r) as int, x as int, y as int),
{
    let p = r.img.get_pixel(x, y);
    Rgb8 { r: p.0[0], g: p.0[1], b: p.0[2] }
}

/// Relies on `ImageBuffer::as_raw`: the channel bytes, copied out.
#[verifier::external_body]
fn image_raw(r: &Raster) -> (s: Vec<u8>)
    ensures
        s@ == raster_samples(*r),
{
    r.img.as_raw().clone()
}

/// The color that the last write to pixel `(x, y)` in `ws` puts there, if any write does.
pub open spec fn last_write(ws: Seq<PixelWrite>, x: int, y: int) -> Option<Rgb8>
    decreases ws.len(),
{
    if ws.len() == 0 {
        None
    } else if ws.last().x as int == x && ws.last().y as int == y {
        Some(ws.last().color)
    } else {
        last_write(ws.drop_last(), x, y)
    }
}

/// The channel bytes `s` of a raster of width `w` after the writes `ws`, in order.
pub open spec fn painted(s: Seq<u8>, w: int, ws: Seq<PixelWrite>) -> Seq<u8> {
    Seq::new(
        s.len(),
        |k: int|
            match last_write(ws, (k / 3) % w, (k / 3) / w) {
                Some(c) => channel(c, k % 3),
                None => s[k],
            },
    )
}

/// Every write of `ws` lies inside a `w` x `h` raster.
pub open spec fn writes_in_bounds(ws: Seq<PixelWrite>, w: int, h: int) -> bool {
    forall|i: int| 0 <= i < ws.len() ==> (#[trigger] ws[i]).x < w && ws[i].y < h
}

/// No two writes of `ws` go to the same pixel.
pub open spec fn distinct_coords(ws: Seq<PixelWrite>) -> bool {
    forall|i: int, j: int|
        0 <= i < j < ws.len() ==> !((#[trigger] ws[i]).x == (#[trigger] ws[j]).x && ws[i].y == ws[j].y)
}

/// Byte `k` of a raster of width `w` belongs to pixel `(x, y)` exactly when
/// it lies among the three bytes that start at `sample_index(w, x, y)`.
proof fn lemma_sample_index(w: int, x: int, y: int, k: int)
    requires
        0 <= x < w,
        0 <= y,
        0 <= k,
    ensures
        ((k / 3) % w == x && (k / 3) / w == y) <==> (sample_index(w, x, y) <= k < sample_index(w, x, y) + 3),
{
    let q = k / 3;
    lemma_fundamental_div_mod(k, 3);
    if q % w == x && q / w == y {
        lemma_fundamental_div_mod(q, w);
        assert(q == y * w + x) by (nonlinear_arith)
            requires
                q == w * (q / w) + q % w,
                q % w == x,
                q / w == y,
        ;
    }
    if sample_index(w, x, y) <= k < sample_index(w, x, y) + 3 {
        lemma_fundamental_div_mod_converse(k, 3, y * w + x, k - 3 * (y * w + x));
        lemma_fundamental_div_mod_converse(q, w, y, x);
    }
}

proof fn lemma_painted_push(s: Seq<u8>, w: int, h: int, ws: Seq<PixelWrite>, p: PixelWrite)
    requires
        s.len() == sample_count(w, h),
        p.x < w,
        p.y < h,
    ensures
        painted(s, w, ws.push(p)) == painted(s, w, ws).update(
            sample_index(w, p.x as int, p.y as int),
            p.color.r,
        ).update(sample_index(w, p.x as int, p.y as int) + 1, p.color.g).update(
            sample_index(w, p.x as int, p.y as int) + 2,
            p.color.b,
        ),
{
    let i = sample_index(w, p.x as int, p.y as int);
    assert(ws.push(p).drop_last() =~= ws);
    assert(i + 3 <= s.len()) by (nonlinear_arith)
        requires
            i == 3 * (p.y * w + p.x),
            s.len() == 3 * w * h,
            0 <= p.x < w,
            0 <= p.y < h,
    ;
    let lhs = painted(s, w, ws.push(p));
    let rhs = painted(s, w, ws).update(i, p.color.r).update(i + 1, p.color.g).update(
        i + 2,
        p.color.b,
    );
    assert forall|k: int| 0 <= k < lhs.len() implies lhs[k] == rhs[k] by {
        lemma_sample_index(w, p.x as int, p.y as int, k);
        if i <= k < i + 3 {
            lemma_fundamental_div_mod_converse(k, 3, p.y * w + p.x, k - i);
        }
    }
    assert(lhs =~= rhs);
}

/// Without two writes to one pixel, the last write to `(x, y)` is `c` exactly
/// when `ws` holds a write of `c` to `(x, y)`.
proof fn lemma_last_write_distinct(ws: Seq<PixelWrite>, x: int, y: int, c: Rgb8)
    requires
        distinct_coords(ws),
    ensures
        last_write(ws, x, y) == Some(c) <==> exists|i: int|
            0 <= i < ws.len() && #[trigger] ws[i] == (PixelWrite { x: ws[i].x, y: ws[i].y, color: c })
                && ws[i].x as int == x && ws[i].y as int == y,
    decreases ws.len(),
{
    if ws.len() > 0 {
        let n = ws.len() - 1;
        let d = ws.drop_last();
        assert forall|i: int, j: int| 0 <= i < j < d.len() implies !((#[trigger] d[i]).x == (
        #[trigger] d[j]).x && d[i].y == d[j].y) by {
            assert(d[i] == ws[i] && d[j] == ws[j]);
        }
        lemma_last_write_distinct(d, x, y, c);
        if ws.last().x as int == x && ws.last().y as int == y {
            if last_write(ws, x, y) == Some(c) {
                assert(ws[n] == (PixelWrite { x: ws[n].x, y: ws[n].y, color: c }));
            }
            if exists|i: int|
                0 <= i < ws.len() && #[trigger] ws[i] == (PixelWrite {
                    x: ws[i].x,
                    y: ws[i].y,
                    color: c,
                }) && ws[i].x as int == x && ws[i].y as int == y {
                let i = choose|i: int|
                    0 <= i < ws.len() && #[trigger] ws[i] == (PixelWrite {
                        x: ws[i].x,
                        y: ws[i].y,
                        color: c,
                    }) && ws[i].x as int == x && ws[i].y as int == y;
                if i < n {
                    assert(ws[i].x == ws[n].x && ws[i].y == ws[n].y);
                }
            }
        } else {
            if exists|i: int|
                0 <= i < ws.len() && #[trigger] ws[i] == (PixelWrite {
                    x: ws[i].x,
                    y: ws[i].y,
                    color: c,
                }) && ws[i].x as int == x && ws[i].y as int == y {
                let i = choose|i: int|
                    0 <= i < ws.len() && #[trigger] ws[i] == (PixelWrite {
                        x: ws[i].x,
                        y: ws[i].y,
                        color: c,
                    }) && ws[i].x as int == x && ws[i].y as int == y;
                assert(i < n);
                assert(d[i] == ws[i]);
            }
            if last_write(d, x, y) == Some(c) {
                let i = choose|i: int|
                    0 <= i < d.len() && #[trigger] d[i] == (PixelWrite {
                        x: d[i].x,
                        y: d[i].y,
                        color: c,
                    }) && d[i].x as int == x && d[i].y as int == y;
                assert(ws[i] == d[i]);
            }
        }
    }
}

/// Two batches of finished pixels that hold the same writes, with no two
/// writes to one pixel in either, leave the same channel bytes whatever order
/// they arrive in: a render that computes its pixels on many workers fills the
/// raster exactly as one that computes them in row order.
pub proof fn lemma_write_order_irrelevant(s: Seq<u8>, w: int, a: Seq<PixelWrite>, b: Seq<PixelWrite>)
    requires
        distinct_coords(a),
        distinct_coords(b),
        forall|p: PixelWrite| a.contains(p) <==> b.contains(p),
    ensures
        painted(s, w, a) == painted(s, w, b),
{
    assert forall|x: int, y: int| last_write(a, x, y) == last_write(b, x, y) by {
        if last_write(a, x, y) is Some {
            let c = last_write(a, x, y)->0;
            lemma_last_write_distinct(a, x, y, c);
            lemma_last_write_distinct(b, x, y, c);
            let i = choose|i: int|
                0 <= i < a.len() && #[trigger] a[i] == (PixelWrite { x: a[i].x, y: a[i].y, color: c })
                    && a[i].x as int == x && a[i].y as int == y;
            assert(a.contains(a[i]));
            assert(b.contains(a[i]));
            let j = choose|j: int| 0 <= j < b.len() && b[j] == a[i];
            assert(b[j] == (PixelWrite { x: b[j].x, y: b[j].y, color: c }));
        }
        if last_write(b, x, y) is Some {
            let c = last_write(b, x, y)->0;
            lemma_last_write_distinct(a, x, y, c);
            lemma_last_write_distinct(b, x, y, c);
            let i = choose|i: int|
                0 <= i < b.len() && #[trigger] b[i] == (PixelWrite { x: b[i].x, y: b[i].y, color: c })
                    && b[i].x as int == x && b[i].y as int == y;
            assert(b.contains(b[i]));
            assert(a.contains(b[i]));
            let j = choose|j: int| 0 <= j < a.len() && a[j] == b[i];
            assert(a[j] == (PixelWrite { x: a[j].x, y: a[j].y, color: c }));
        }
    }
    assert(painted(s, w, a) =~= painted(s, w, b));
}

impl Raster {
    /// A `width` x `height` raster with every channel at zero.
    pub fn new(width: u32, height: u32) -> (r: Raster)
        requires
            sample_count(width as int, height as int) <= isize::MAX,
        ensures
            raster_wf(r),
            raster_width(r) == width,
            raster_height(r) == height,
            forall|k: int| 0 <= k < raster_samples(r).len() ==> #[trigger] raster_samples(r)[k] == 0,
    {
        image_new(width, height)
    }

    pub fn width(&self) -> (w: u32)
        ensures
            w == raster_width(*self),
    {
        image_width(self)
    }

    pub fn height(&self) -> (h: u32)
        ensures
            h == raster_height(*self),
    {
        image_height(self)
    }

    /// The color of pixel `(x, y)`.
    pub fn pixel(&self, x: u32, y: u32) -> (c: Rgb8)
        requires
            raster_wf(*self),
            x < raster_width(*self),
            y < raster_height(*self),
        ensures
            c == pixel_of(raster_samples(*self), raster_width(*self) as int, x as int, y as int),
    {
        image_get_pixel(self, x, y)
    }

    /// The channel bytes, row-major, three per pixel.
    pub fn samples(&self) -> (s: Vec<u8>)
        ensures
            s@ == raster_samples(*self),
    {
        image_raw(self)
    }

    /// Writes the finished pixels into the raster, in order: where two go to
    /// one pixel the later one stays.
    pub fn write_pixels(&mut self, pixels: &Vec<PixelWrite>)
        requires
            raster_wf(*old(self)),
            writes_in_bounds(pixels@, raster_width(*old(self)) as int, raster_height(*old(self)) as int),
        ensures
            raster_wf(*final(self)),
            raster_width(*final(self)) == raster_width(*old(self)),
            raster_height(*final(self)) == raster_height(*old(self)),
            raster_samples(*final(self)) == painted(
                raster_samples(*old(self)),
                raster_width(*old(self)) as int,
                pixels@,
            ),
    {
        let ghost orig = raster_samples(*self);
        let w = image_width(self);
        let h = image_height(self);
        assert(painted(orig, w as int, pixels@.subrange(0, 0)) =~= orig);
        let mut i: usize = 0;
        while i < pixels.len()
            invariant
                i <= pixels.len(),
                raster_wf(*self),
                raster_width(*self) == w,
                raster_height(*self) == h,
                orig.len() == sample_count(w as int, h as int),
                writes_in_bounds(pixels@, w as int, h as int),
                raster_samples(*self) == painted(orig, w as int, pixels@.subrange(0, i as int)),
            decreases pixels.len() - i,
        {
            let p = pixels[i];
            proof {
                lemma_painted_push(orig, w as int, h as int, pixels@.subrange(0, i as int), p);
                assert(pixels@.subrange(0, i as int).push(p) =~= pixels@.subrange(0, i + 1));
            }
            image_put_pixel(self, p.x, p.y, p.color);
            i = i + 1;
        }
        assert(pixels@.subrange(0, i as int) =~= pixels@);
    }
}

/// The coordinates of a `width` x `height` raster in row-major order: entry
/// `i` is column `i % width` of row `i / width`.
pub fn pixel_coords(width: u32, height: u32) -> (r: Vec<(u32, u32)>)
    requires
        width * height <= usize::MAX,
    ensures
        r@.len() == width * height,
        forall|i: int| 0 <= i < r@.len() ==> #[trigger] r@[i] == ((i % width as int) as u32, (i / width as int) as u32),
{
    let n: usize = (width as usize) * (height as usize);
    let mut r: Vec<(u32, u32)> = Vec::new();
    let mut i: usize = 0;
    while i < n
        invariant
            i <= n,
            n == width * height,
            r@.len() == i,
            forall|j: int| 0 <= j < i ==> #[trigger] r@[j] == ((j % width as int) as u32, (j / width as int) as u32),
        decreases n - i,
    {
        let wi = width as usize;
        proof {
            lemma_fundamental_div_mod(i as int, wi as int);
            assert((i as int) / (wi as int) < height) by (nonlinear_arith)
                requires
                    i as int == wi * ((i as int) / (wi as int)) + (i as int) % (wi as int),
                    0 <= (i as int) % (wi as int),
                    i < wi * height,
            ;
        }
        r.push(((i % wi) as u32, (i / wi) as u32));
        i = i + 1;
    }
    r
}

} // verus!
