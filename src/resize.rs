use crate::color::lemma_mul_bound;
use crate::image::{lemma_pixels_ext, pixel_of, ColorMode, Image, ImageError, Pixel};
use vstd::arithmetic::div_mod::{lemma_fundamental_div_mod, lemma_fundamental_div_mod_converse};
use vstd::arithmetic::mul::lemma_mul_inequality;
use vstd::prelude::*;

verus! {

/// Source index sampled for destination index `x` when `src` indices are
/// resampled to `dst`: the sample centre `(x + 1/2) * src / dst - 1/2`
/// rounded half up, which is `floor((2x + 1) * src / (2 * dst))`.
pub open spec fn nn_coord(x: int, src: int, dst: int) -> int {
    (2 * x + 1) * src / (2 * dst)
}

/// The sample centre plus one, scaled by `2 * dst`.
pub open spec fn sample_num(x: int, src: int, dst: int) -> int {
    (2 * x + 1) * src + dst
}

/// `floor` of the sample centre; -1 where the centre lies left of pixel 0.
pub open spec fn lower_coord(x: int, src: int, dst: int) -> int {
    sample_num(x, src, dst) / (2 * dst) - 1
}

/// Fractional part of the sample centre, scaled by `2 * dst`.
pub open spec fn frac_num(x: int, src: int, dst: int) -> int {
    sample_num(x, src, dst) % (2 * dst)
}

/// Area-weighted mix of four corners, rounded down: `fx / dx` and `fy / dy`
/// are the fractional offsets from corner 1 towards corners 2 and 3.
pub open spec fn bilinear_mix(v1: int, v2: int, v3: int, v4: int, fx: int, fy: int, dx: int, dy: int) -> int {
    (v1 * ((dx - fx) * (dy - fy)) + v2 * (fx * (dy - fy)) + v3 * ((dx - fx) * fy) + v4 * (fx * fy)) / (dx
        * dy)
}

pub open spec fn min4(a: int, b: int, c: int, d: int) -> int {
    let ab = if a <= b { a } else { b };
    let cd = if c <= d { c } else { d };
    if ab <= cd { ab } else { cd }
}

pub open spec fn max4(a: int, b: int, c: int, d: int) -> int {
    let ab = if a >= b { a } else { b };
    let cd = if c >= d { c } else { d };
    if ab >= cd { ab } else { cd }
}

/// Channel `c` of output pixel `(x, y)` when `image` is resampled bilinearly
/// to `w` by `h`; corners outside the source are clamped to its edge.
pub open spec fn bilinear_channel(image: Image, x: int, y: int, w: int, h: int, c: int) -> int {
    let lx = lower_coord(x, image.width as int, w);
    let ly = lower_coord(y, image.height as int, h);
    bilinear_mix(
        image.channel_at(lx, ly, c) as int,
        image.channel_at(lx + 1, ly, c) as int,
        image.channel_at(lx, ly + 1, c) as int,
        image.channel_at(lx + 1, ly + 1, c) as int,
        frac_num(x, image.width as int, w),
        frac_num(y, image.height as int, h),
        2 * w,
        2 * h,
    )
}

/// A resize target is refused when it or the source has no pixel, or when it
/// does not fit the `u16` dimensions of an image.
pub open spec fn resize_refused(image: Image, w: int, h: int) -> bool {
    w == 0 || h == 0 || w > 0xffff || h > 0xffff || w * h * 3 > usize::MAX || image.width == 0
        || image.height == 0
}

/// `r` is what resizing `image` to `w` by `h` gives: an error exactly when
/// the target is refused, else a new RGB image of that size whose pixel
/// `(x, y)` is `sample_pixel`.
pub open spec fn resized(image: Image, w: int, h: int, nn: bool, r: Result<Image, ImageError>) -> bool {
    match r {
        Ok(out) => {
            &&& !resize_refused(image, w, h)
            &&& out.wf()
            &&& out.width == w
            &&& out.height == h
            &&& out.color_mode == ColorMode::RGB
            &&& forall|x: int, y: int|
                0 <= x < w && 0 <= y < h ==> #[trigger] out.pixel_at(x, y) == sample_pixel(image, x, y, w, h, nn)
        },
        Err(e) => resize_refused(image, w, h) && e == ImageError::InvalidDimension,
    }
}

proof fn lemma_div_between(s: int, d: int, lo: int, hi: int)
    requires
        d > 0,
        lo * d <= s <= hi * d,
    ensures
        lo <= s / d <= hi,
{
    lemma_fundamental_div_mod(s, d);
    let q = s / d;
    let r = s % d;
    assert(lo <= q <= hi) by (nonlinear_arith)
        requires
            s == d * q + r,
            0 <= r < d,
            lo * d <= s <= hi * d,
            d > 0,
    ;
}

proof fn lemma_scale_between(v: int, lo: int, hi: int, a: int)
    requires
        lo <= v <= hi,
        a >= 0,
    ensures
        lo * a <= v * a <= hi * a,
{
    assert(lo * a <= v * a <= hi * a) by (nonlinear_arith)
        requires
            lo <= v <= hi,
            a >= 0,
    ;
}

/// A bilinear mix lies between the least and the greatest of its corners.
pub proof fn lemma_bilinear_bounds(v1: int, v2: int, v3: int, v4: int, fx: int, fy: int, dx: int, dy: int)
    requires
        0 <= fx < dx,
        0 <= fy < dy,
    ensures
        min4(v1, v2, v3, v4) <= bilinear_mix(v1, v2, v3, v4, fx, fy, dx, dy) <= max4(v1, v2, v3, v4),
{
    let a1 = (dx - fx) * (dy - fy);
    let a2 = fx * (dy - fy);
    let a3 = (dx - fx) * fy;
    let a4 = fx * fy;
    let m = min4(v1, v2, v3, v4);
    let mx = max4(v1, v2, v3, v4);
    assert(a1 >= 0 && a2 >= 0 && a3 >= 0 && a4 >= 0 && a1 + a2 + a3 + a4 == dx * dy) by (nonlinear_arith)
        requires
            0 <= fx < dx,
            0 <= fy < dy,
            a1 == (dx - fx) * (dy - fy),
            a2 == fx * (dy - fy),
            a3 == (dx - fx) * fy,
            a4 == fx * fy,
    ;
    let s = v1 * a1 + v2 * a2 + v3 * a3 + v4 * a4;
    lemma_scale_between(v1, m, mx, a1);
    lemma_scale_between(v2, m, mx, a2);
    lemma_scale_between(v3, m, mx, a3);
    lemma_scale_between(v4, m, mx, a4);
    assert(m * (a1 + a2 + a3 + a4) == m * a1 + m * a2 + m * a3 + m * a4) by (nonlinear_arith);
    assert(mx * (a1 + a2 + a3 + a4) == mx * a1 + mx * a2 + mx * a3 + mx * a4) by (nonlinear_arith);
    assert(dx * dy > 0) by (nonlinear_arith)
        requires
            dx > 0,
            dy > 0,
    ;
    lemma_div_between(s, dx * dy, m, mx);
}

/// Index `i` of a `w`-wide raster is column `i % w` of row `i / w`.
proof fn lemma_row_major(i: int, w: int, x: int, y: int)
    requires
        w > 0,
        0 <= x < w,
        i == y * w + x,
    ensures
        i % w == x,
        i / w == y,
{
    lemma_fundamental_div_mod_converse(i, w, y, x);
}

/// Reads back, by coordinates, what a row-major fill of `out` wrote.
proof fn lemma_fill_by_coords(out: Image, image: Image, w: int, h: int, nn: bool)
    requires
        out.wf(),
        out.width == w,
        out.height == h,
        w > 0,
        h > 0,
        forall|j: int|
            0 <= j < w * h ==> #[trigger] pixel_of(out.data(), j) == sample_pixel(image, j % w, j / w, w, h, nn),
    ensures
        forall|x: int, y: int|
            0 <= x < w && 0 <= y < h ==> #[trigger] out.pixel_at(x, y) == sample_pixel(image, x, y, w, h, nn),
{
    assert forall|x: int, y: int| 0 <= x < w && 0 <= y < h implies #[trigger] out.pixel_at(x, y)
        == sample_pixel(image, x, y, w, h, nn) by {
        let j = y * w + x;
        lemma_row_major(j, w, x, y);
        lemma_mul_inequality(y, h - 1, w);
        assert((h - 1) * w == w * h - w) by (nonlinear_arith);
        assert(out.index_of(x, y, 0) == 3 * j);
        assert(pixel_of(out.data(), j) == sample_pixel(image, j % w, j / w, w, h, nn));
    }
}

/// Output pixel `(x, y)` of a resize of `image` to `w` by `h`.
pub open spec fn sample_pixel(image: Image, x: int, y: int, w: int, h: int, nn: bool) -> Pixel {
    if nn {
        image.pixel_at(nn_coord(x, image.width as int, w), nn_coord(y, image.height as int, h))
    } else {
        Pixel {
            r: bilinear_channel(image, x, y, w, h, 0) as u8,
            g: bilinear_channel(image, x, y, w, h, 1) as u8,
            b: bilinear_channel(image, x, y, w, h, 2) as u8,
        }
    }
}

fn nn_index(x: usize, src: u16, dst: usize) -> (r: usize)
    requires
        x < dst <= 0xffff,
    ensures
        r == nn_coord(x as int, src as int, dst as int),
{
    proof {
        lemma_mul_bound((2 * x + 1) as int, src as int, 0x20000, 0xffff);
        lemma_mul_inequality((2 * x + 1) as int, (2 * dst) as int, src as int);
        lemma_div_between((2 * x + 1) * src, 2 * dst, 0, src as int);
    }
    (((2 * x as u64 + 1) * src as u64) / (2 * dst as u64)) as usize
}

/// The lower corner index clamped at zero, the upper corner index, and the
/// fraction numerator.
fn bilinear_coord(x: usize, src: u16, dst: usize) -> (r: (usize, usize, u64))
    requires
        x < dst <= 0xffff,
    ensures
        r.0 == (if lower_coord(x as int, src as int, dst as int) < 0 {
            0
        } else {
            lower_coord(x as int, src as int, dst as int)
        }),
        r.1 == lower_coord(x as int, src as int, dst as int) + 1,
        r.2 == frac_num(x as int, src as int, dst as int),
        r.2 < 2 * dst,
{
    proof {
        lemma_mul_bound((2 * x + 1) as int, src as int, 0x20000, 0xffff);
        lemma_mul_inequality((2 * x + 1) as int, (2 * dst) as int, src as int);
        assert((2 * dst) * src == src * (2 * dst)) by (nonlinear_arith);
        assert((src + 1) * (2 * dst) == src * (2 * dst) + 2 * dst) by (nonlinear_arith);
        lemma_div_between(sample_num(x as int, src as int, dst as int), 2 * dst, 0, src + 1);
    }
    let num: u64 = (2 * x as u64 + 1) * src as u64 + dst as u64;
    let q: u64 = num / (2 * dst as u64);
    let lower: usize = if q == 0 {
        0
    } else {
        (q - 1) as usize
    };
    (lower, q as usize, num % (2 * dst as u64))
}

fn bilinear_value(image: &Image, x: usize, y: usize, w: usize, h: usize, c: usize) -> (v: u8)
    requires
        image.addressable(),
        x < w <= 0xffff,
        y < h <= 0xffff,
        c < 3,
    ensures
        v as int == bilinear_channel(*image, x as int, y as int, w as int, h as int, c as int),
{
    let (lx, ux, fx) = bilinear_coord(x, image.width, w);
    let (ly, uy, fy) = bilinear_coord(y, image.height, h);
    let v1 = image.get_individual_pixel(lx, ly, c);
    let v2 = image.get_individual_pixel(ux, ly, c);
    let v3 = image.get_individual_pixel(lx, uy, c);
    let v4 = image.get_individual_pixel(ux, uy, c);
    let dx: u64 = 2 * w as u64;
    let dy: u64 = 2 * h as u64;
    proof {
        let lxi = lower_coord(x as int, image.width as int, w as int);
        let lyi = lower_coord(y as int, image.height as int, h as int);
        assert(image.channel_at(lx as int, ly as int, c as int) == image.channel_at(lxi, lyi, c as int));
        assert(image.channel_at(ux as int, ly as int, c as int) == image.channel_at(lxi + 1, lyi, c as int));
        assert(image.channel_at(lx as int, uy as int, c as int) == image.channel_at(lxi, lyi + 1, c as int));
        assert(fx < dx && fy < dy);
        lemma_mul_bound((dx - fx) as int, (dy - fy) as int, 0x20000, 0x20000);
        lemma_mul_bound(fx as int, (dy - fy) as int, 0x20000, 0x20000);
        lemma_mul_bound((dx - fx) as int, fy as int, 0x20000, 0x20000);
        lemma_mul_bound(fx as int, fy as int, 0x20000, 0x20000);
        lemma_mul_bound(v1 as int, ((dx - fx) * (dy - fy)) as int, 255, 0x4_0000_0000int);
        lemma_mul_bound(v2 as int, (fx * (dy - fy)) as int, 255, 0x4_0000_0000int);
        lemma_mul_bound(v3 as int, ((dx - fx) * fy) as int, 255, 0x4_0000_0000int);
        lemma_mul_bound(v4 as int, (fx * fy) as int, 255, 0x4_0000_0000int);
        lemma_mul_bound(dx as int, dy as int, 0x20000, 0x20000);
        assert(dx * dy > 0) by (nonlinear_arith)
            requires
                dx > 0,
                dy > 0,
        ;
        lemma_bilinear_bounds(v1 as int, v2 as int, v3 as int, v4 as int, fx as int, fy as int, dx as int, dy as int);
    }
    let sum: u64 = v1 as u64 * ((dx - fx) * (dy - fy)) + v2 as u64 * (fx * (dy - fy)) + v3 as u64 * ((dx - fx) * fy)
        + v4 as u64 * (fx * fy);
    (sum / (dx * dy)) as u8
}

fn resize(image: &Image, w: usize, h: usize, nn: bool) -> (r: Result<Image, ImageError>)
    requires
        image.wf(),
    ensures
        resized(*image, w as int, h as int, nn, r),
{
    if w == 0 || h == 0 || w > 0xffff || h > 0xffff || image.width == 0 || image.height == 0 {
        return Err(ImageError::InvalidDimension);
    }
    let size: usize = match w.checked_mul(h) {
        Some(wh) => match wh.checked_mul(3) {
            Some(s) => s,
            None => {
                return Err(ImageError::InvalidDimension);
            },
        },
        None => {
            proof {
                assert(w * h * 3 > usize::MAX) by (nonlinear_arith)
                    requires
                        w * h > usize::MAX,
                ;
            }
            return Err(ImageError::InvalidDimension);
        },
    };
    let mut out = Image::new(w as u16, h as u16);
    let n = out.num_pixels();
    let mut i: usize = 0;
    let mut x: usize = 0;
    let mut y: usize = 0;
    while i < n
        invariant
            image.wf(),
            image.width > 0,
            image.height > 0,
            0 < w <= 0xffff,
            0 < h <= 0xffff,
            out.wf(),
            out.width == w,
            out.height == h,
            out.color_mode == ColorMode::RGB,
            n == w * h,
            i <= n,
            i == y * w + x,
            x < w,
            forall|j: int|
                0 <= j < i ==> #[trigger] pixel_of(out.data(), j) == sample_pixel(
                    *image,
                    j % (w as int),
                    j / (w as int),
                    w as int,
                    h as int,
                    nn,
                ),
        decreases n - i,
    {
        proof {
            lemma_row_major(i as int, w as int, x as int, y as int);
            assert(y < h) by (nonlinear_arith)
                requires
                    i == y * w + x,
                    i < w * h,
                    x >= 0,
                    w > 0,
            ;
        }
        let p = if nn {
            image.get_pixel(nn_index(x, image.width, w), nn_index(y, image.height, h))
        } else {
            Pixel {
                r: bilinear_value(image, x, y, w, h, 0),
                g: bilinear_value(image, x, y, w, h, 1),
                b: bilinear_value(image, x, y, w, h, 2),
            }
        };
        out.set_pixel_index(i, p);
        i += 1;
        x += 1;
        if x == w {
            proof {
                assert((y + 1) * w == y * w + w) by (nonlinear_arith);
            }
            x = 0;
            y += 1;
        }
    }
    proof {
        lemma_fill_by_coords(out, *image, w as int, h as int, nn);
    }
    Ok(out)
}

/// Resamples `image` to `w` by `h`, each output pixel taking the source pixel
/// nearest to its centre. A target with a zero side, or one too large for an
/// image, is refused.
pub fn nn_resize(image: &Image, w: usize, h: usize) -> (r: Result<Image, ImageError>)
    requires
        image.wf(),
    ensures
        resized(*image, w as int, h as int, true, r),
{
    resize(image, w, h, true)
}

/// Resamples `image` to `w` by `h`, each output channel the area-weighted mix
/// of the four source pixels round its centre. A target with a zero side, or
/// one too large for an image, is refused.
pub fn bilinear_resize(image: &Image, w: usize, h: usize) -> (r: Result<Image, ImageError>)
    requires
        image.wf(),
    ensures
        resized(*image, w as int, h as int, false, r),
{
    resize(image, w, h, false)
}

/// Nearest-neighbour resizing to the source's own size copies it.
pub proof fn lemma_nn_identity(image: Image, r: Result<Image, ImageError>)
    requires
        image.addressable(),
        image.data().len() <= usize::MAX,
        resized(image, image.width as int, image.height as int, true, r),
    ensures
        r matches Ok(out) && out.data() == image.data(),
{
    let w = image.width as int;
    let h = image.height as int;
    let out = r.get_Ok_0();
    assert forall|j: int| 0 <= j < out.data().len() / 3 implies #[trigger] pixel_of(out.data(), j) == pixel_of(
        image.data(),
        j,
    ) by {
        let x = j % w;
        let y = j / w;
        lemma_fundamental_div_mod(j, w);
        assert(j == y * w + x);
        assert(0 <= x < w);
        assert(0 <= y < h) by (nonlinear_arith)
            requires
                j == y * w + x,
                0 <= j < w * h,
                0 <= x < w,
        ;
        lemma_nn_coord_identity(x, w);
        lemma_nn_coord_identity(y, h);
        assert(out.pixel_at(x, y) == image.pixel_at(x, y));
        assert(out.index_of(x, y, 0) == 3 * j);
    }
    lemma_pixels_ext(out.data(), image.data());
}

proof fn lemma_nn_coord_identity(x: int, n: int)
    requires
        0 <= x < n,
    ensures
        nn_coord(x, n, n) == x,
{
    assert((2 * x + 1) * n == x * (2 * n) + n) by (nonlinear_arith);
    lemma_fundamental_div_mod_converse((2 * x + 1) * n, 2 * n, x, n);
}

/// Every channel of a bilinear resize lies between the least and the
/// greatest of the four source corners it mixes.
pub proof fn lemma_bilinear_resize_bounds(image: Image, w: int, h: int, r: Result<Image, ImageError>, x: int, y: int, c: int)
    requires
        image.wf(),
        resized(image, w, h, false, r),
        r is Ok,
        0 <= x < w,
        0 <= y < h,
        0 <= c < 3,
    ensures
        ({
            let lx = lower_coord(x, image.width as int, w);
            let ly = lower_coord(y, image.height as int, h);
            let v1 = image.channel_at(lx, ly, c) as int;
            let v2 = image.channel_at(lx + 1, ly, c) as int;
            let v3 = image.channel_at(lx, ly + 1, c) as int;
            let v4 = image.channel_at(lx + 1, ly + 1, c) as int;
            let v = r.get_Ok_0().channel_at(x, y, c) as int;
            min4(v1, v2, v3, v4) <= v <= max4(v1, v2, v3, v4)
        }),
{
    let out = r.get_Ok_0();
    let lx = lower_coord(x, image.width as int, w);
    let ly = lower_coord(y, image.height as int, h);
    let v1 = image.channel_at(lx, ly, c) as int;
    let v2 = image.channel_at(lx + 1, ly, c) as int;
    let v3 = image.channel_at(lx, ly + 1, c) as int;
    let v4 = image.channel_at(lx + 1, ly + 1, c) as int;
    let fx = frac_num(x, image.width as int, w);
    let fy = frac_num(y, image.height as int, h);
    lemma_bilinear_bounds(v1, v2, v3, v4, fx, fy, 2 * w, 2 * h);
    let m = bilinear_mix(v1, v2, v3, v4, fx, fy, 2 * w, 2 * h);
    assert(0 <= m <= 255);
    assert(out.pixel_at(x, y) == sample_pixel(image, x, y, w, h, false));
}

} // verus!
