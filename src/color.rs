use crate::image::{coerce_channel, lemma_pixels_ext, pixel_of, ColorMode, Image, Pixel};
use vstd::prelude::*;

verus! {

/// Luma with weights 0.299, 0.587, 0.114, rounded down.
pub open spec fn gray_level(p: Pixel) -> int {
    (299 * p.r + 587 * p.g + 114 * p.b) / 1000
}

pub open spec fn gray_pixel(p: Pixel) -> Pixel {
    Pixel { r: gray_level(p) as u8, g: gray_level(p) as u8, b: gray_level(p) as u8 }
}

/// `t` is `s` with every pixel replaced by its gray level.
pub open spec fn gray_applied(s: Seq<u8>, t: Seq<u8>) -> bool {
    &&& t.len() == s.len()
    &&& forall|i: int| 0 <= i < s.len() / 3 ==> #[trigger] pixel_of(t, i) == gray_pixel(pixel_of(s, i))
}

/// One channel byte shifted by `delta`: saturated to `[0, 255]` when
/// `clamp`, else taken modulo 256.
pub open spec fn shift_value(v: u8, delta: i16, clamp: bool) -> u8 {
    let t = v + delta;
    if clamp {
        if t < 0 {
            0
        } else if t > 255 {
            255
        } else {
            t as u8
        }
    } else {
        (t % 256) as u8
    }
}

/// A pixel with channel `c` (after coercion) shifted.
pub open spec fn shift_pixel(p: Pixel, c: int, delta: i16, clamp: bool) -> Pixel {
    let k = coerce_channel(c);
    Pixel {
        r: if k == 0 { shift_value(p.r, delta, clamp) } else { p.r },
        g: if k == 1 { shift_value(p.g, delta, clamp) } else { p.g },
        b: if k == 2 { shift_value(p.b, delta, clamp) } else { p.b },
    }
}

/// `t` is `s` with channel `c` of every pixel shifted.
pub open spec fn shift_applied(s: Seq<u8>, t: Seq<u8>, c: int, delta: i16, clamp: bool) -> bool {
    &&& t.len() == s.len()
    &&& forall|i: int|
        0 <= i < s.len() / 3 ==> #[trigger] pixel_of(t, i) == shift_pixel(pixel_of(s, i), c, delta, clamp)
}

pub open spec fn max3(a: int, b: int, c: int) -> int {
    if a >= b && a >= c {
        a
    } else if b >= c {
        b
    } else {
        c
    }
}

pub open spec fn min3(a: int, b: int, c: int) -> int {
    if a <= b && a <= c {
        a
    } else if b <= c {
        b
    } else {
        c
    }
}

/// Hue byte: the six-sector hue in `[0, 1)` times 255, rounded down; the
/// channel holding the maximum picks the sector, red first, then green.
pub open spec fn hue_byte(r: int, g: int, b: int) -> int {
    let v = max3(r, g, b);
    let c = v - min3(r, g, b);
    if c == 0 {
        0
    } else if v == r {
        if g >= b {
            255 * (g - b) / (6 * c)
        } else {
            255 * (g - b + 6 * c) / (6 * c)
        }
    } else if v == g {
        255 * (b - r + 2 * c) / (6 * c)
    } else {
        255 * (r - g + 4 * c) / (6 * c)
    }
}

/// Saturation byte: chroma over value times 255, rounded down; 0 for black.
pub open spec fn saturation_byte(r: int, g: int, b: int) -> int {
    let v = max3(r, g, b);
    if v == 0 {
        0
    } else {
        255 * (v - min3(r, g, b)) / v
    }
}

/// An RGB pixel as hue, saturation and value bytes in the red, green and
/// blue slots.
pub open spec fn hsv_pixel(p: Pixel) -> Pixel {
    Pixel {
        r: hue_byte(p.r as int, p.g as int, p.b as int) as u8,
        g: saturation_byte(p.r as int, p.g as int, p.b as int) as u8,
        b: max3(p.r as int, p.g as int, p.b as int) as u8,
    }
}

/// An HSV pixel back to RGB: the sector is `floor(6h)`, each result byte is
/// the exact value times 255, rounded down.
pub open spec fn rgb_pixel(p: Pixel) -> Pixel {
    let h = p.r as int;
    let s = p.g as int;
    let v = p.b as int;
    let sector = 6 * h / 255;
    let fr = 6 * h % 255;
    let d = (v * (255 - s) / 255) as u8;
    let e = (v * (65025 - s * fr) / 65025) as u8;
    let f = (v * (65025 - s * (255 - fr)) / 65025) as u8;
    if s == 0 {
        Pixel { r: p.b, g: p.b, b: p.b }
    } else if sector == 0 {
        Pixel { r: p.b, g: f, b: d }
    } else if sector == 1 {
        Pixel { r: e, g: p.b, b: d }
    } else if sector == 2 {
        Pixel { r: d, g: p.b, b: f }
    } else if sector == 3 {
        Pixel { r: d, g: f, b: p.b }
    } else if sector == 4 {
        Pixel { r: f, g: d, b: p.b }
    } else {
        Pixel { r: p.b, g: d, b: e }
    }
}

pub open spec fn hsv_applied(s: Seq<u8>, t: Seq<u8>) -> bool {
    &&& t.len() == s.len()
    &&& forall|i: int| 0 <= i < s.len() / 3 ==> #[trigger] pixel_of(t, i) == hsv_pixel(pixel_of(s, i))
}

pub open spec fn rgb_applied(s: Seq<u8>, t: Seq<u8>) -> bool {
    &&& t.len() == s.len()
    &&& forall|i: int| 0 <= i < s.len() / 3 ==> #[trigger] pixel_of(t, i) == rgb_pixel(pixel_of(s, i))
}

fn gray_of(p: Pixel) -> (q: Pixel)
    ensures
        q == gray_pixel(p),
{
    let v: u32 = (299 * p.r as u32 + 587 * p.g as u32 + 114 * p.b as u32) / 1000;
    Pixel { r: v as u8, g: v as u8, b: v as u8 }
}

/// Replaces every pixel by its gray level and marks the image gray.
pub fn rgb_to_grayscale(image: &mut Image)
    requires
        old(image).wf(),
    ensures
        final(image).wf(),
        final(image).width == old(image).width,
        final(image).height == old(image).height,
        final(image).color_mode == ColorMode::GRAY,
        gray_applied(old(image).data(), final(image).data()),
{
    let n = image.num_pixels();
    let ghost src = image.data();
    let mut i: usize = 0;
    while i < n
        invariant
            image.wf(),
            n == image.pixel_count(),
            3 * n == src.len(),
            image.width == old(image).width,
            image.height == old(image).height,
            src == old(image).data(),
            image.data().len() == src.len(),
            i <= n,
            forall|j: int| 0 <= j < i ==> #[trigger] pixel_of(image.data(), j) == gray_pixel(pixel_of(src, j)),
            forall|j: int| i <= j < n ==> #[trigger] pixel_of(image.data(), j) == pixel_of(src, j),
        decreases n - i,
    {
        let p = image.pixel_index(i);
        image.set_pixel_index(i, gray_of(p));
        i += 1;
    }
    image.color_mode = ColorMode::GRAY;
}

fn shift_byte(v: u8, delta: i16, clamp: bool) -> (r: u8)
    ensures
        r == shift_value(v, delta, clamp),
{
    let t: i32 = v as i32 + delta as i32;
    if clamp {
        if t < 0 {
            0
        } else if t > 255 {
            255
        } else {
            t as u8
        }
    } else {
        (((t + 65536) as u32) % 256) as u8
    }
}

/// Shifts channel `channel` of every pixel by `value`: saturating when
/// `clamp`, else modulo 256. A channel of 3 or more means channel 2.
pub fn shift_image_channel(image: &mut Image, channel: usize, value: i16, clamp: bool)
    requires
        old(image).wf(),
    ensures
        final(image).wf(),
        final(image).width == old(image).width,
        final(image).height == old(image).height,
        final(image).color_mode == old(image).color_mode,
        shift_applied(old(image).data(), final(image).data(), channel as int, value, clamp),
{
    let n = image.num_pixels();
    let ghost src = image.data();
    let c = Image::coerce_channel(channel);
    let mut i: usize = 0;
    while i < n
        invariant
            image.wf(),
            n == image.pixel_count(),
            3 * n == src.len(),
            image.width == old(image).width,
            image.height == old(image).height,
            image.color_mode == old(image).color_mode,
            src == old(image).data(),
            image.data().len() == src.len(),
            c == coerce_channel(channel as int),
            i <= n,
            forall|j: int|
                0 <= j < i ==> #[trigger] pixel_of(image.data(), j) == shift_pixel(
                    pixel_of(src, j),
                    channel as int,
                    value,
                    clamp,
                ),
            forall|j: int| i <= j < n ==> #[trigger] pixel_of(image.data(), j) == pixel_of(src, j),
        decreases n - i,
    {
        let p = image.pixel_index(i);
        let q = Pixel {
            r: if c == 0 { shift_byte(p.r, value, clamp) } else { p.r },
            g: if c == 1 { shift_byte(p.g, value, clamp) } else { p.g },
            b: if c == 2 { shift_byte(p.b, value, clamp) } else { p.b },
        };
        image.set_pixel_index(i, q);
        i += 1;
    }
}

/// Shifts all three channels of every pixel by `value`.
pub fn shift_image(image: &mut Image, value: i16, clamp: bool)
    requires
        old(image).wf(),
    ensures
        final(image).wf(),
        final(image).width == old(image).width,
        final(image).height == old(image).height,
        final(image).color_mode == old(image).color_mode,
        final(image).data().len() == old(image).data().len(),
        forall|i: int|
            0 <= i < old(image).data().len() / 3 ==> #[trigger] pixel_of(final(image).data(), i) == (Pixel {
                r: shift_value(pixel_of(old(image).data(), i).r, value, clamp),
                g: shift_value(pixel_of(old(image).data(), i).g, value, clamp),
                b: shift_value(pixel_of(old(image).data(), i).b, value, clamp),
            }),
{
    let ghost s0 = image.data();
    shift_image_channel(image, 0, value, clamp);
    let ghost s1 = image.data();
    shift_image_channel(image, 1, value, clamp);
    let ghost s2 = image.data();
    shift_image_channel(image, 2, value, clamp);
    assert forall|i: int| 0 <= i < s0.len() / 3 implies #[trigger] pixel_of(image.data(), i) == (Pixel {
        r: shift_value(pixel_of(s0, i).r, value, clamp),
        g: shift_value(pixel_of(s0, i).g, value, clamp),
        b: shift_value(pixel_of(s0, i).b, value, clamp),
    }) by {
        assert(pixel_of(s1, i) == shift_pixel(pixel_of(s0, i), 0, value, clamp));
        assert(pixel_of(s2, i) == shift_pixel(pixel_of(s1, i), 1, value, clamp));
    }
}

pub(crate) proof fn lemma_mul_bound(a: int, b: int, ka: int, kb: int)
    requires
        0 <= a <= ka,
        0 <= b <= kb,
    ensures
        0 <= a * b <= ka * kb,
{
    assert(0 <= a * b <= ka * kb) by (nonlinear_arith)
        requires
            0 <= a <= ka,
            0 <= b <= kb,
    ;
}

fn hsv_of(p: Pixel) -> (q: Pixel)
    ensures
        q == hsv_pixel(p),
{
    let r: u32 = p.r as u32;
    let g: u32 = p.g as u32;
    let b: u32 = p.b as u32;
    let v: u32 = if r >= g && r >= b {
        r
    } else if g >= b {
        g
    } else {
        b
    };
    let m: u32 = if r <= g && r <= b {
        r
    } else if g <= b {
        g
    } else {
        b
    };
    let c: u32 = v - m;
    let s: u32 = if v == 0 {
        0
    } else {
        255 * c / v
    };
    let h: u32 = if c == 0 {
        0
    } else if v == r {
        if g >= b {
            255 * (g - b) / (6 * c)
        } else {
            255 * (g + 6 * c - b) / (6 * c)
        }
    } else if v == g {
        255 * (b + 2 * c - r) / (6 * c)
    } else {
        255 * (r + 4 * c - g) / (6 * c)
    };
    Pixel { r: h as u8, g: s as u8, b: v as u8 }
}

fn rgb_of(p: Pixel) -> (q: Pixel)
    ensures
        q == rgb_pixel(p),
{
    let h: u32 = p.r as u32;
    let s: u32 = p.g as u32;
    let v: u32 = p.b as u32;
    if s == 0 {
        return Pixel { r: p.b, g: p.b, b: p.b };
    }
    let sector: u32 = 6 * h / 255;
    let fr: u32 = 6 * h % 255;
    proof {
        assert(s * fr <= 65025 && s * (255 - fr) <= 65025) by (nonlinear_arith)
            requires
                s <= 255,
                fr < 255,
        ;
        lemma_mul_bound(v as int, (65025 - s * fr) as int, 255, 65025);
        lemma_mul_bound(v as int, (65025 - s * (255 - fr)) as int, 255, 65025);
        lemma_mul_bound(v as int, (255 - s) as int, 255, 255);
    }
    let d: u8 = (v * (255 - s) / 255) as u8;
    let e: u8 = (v * (65025 - s * fr) / 65025) as u8;
    let f: u8 = (v * (65025 - s * (255 - fr)) / 65025) as u8;
    if sector == 0 {
        Pixel { r: p.b, g: f, b: d }
    } else if sector == 1 {
        Pixel { r: e, g: p.b, b: d }
    } else if sector == 2 {
        Pixel { r: d, g: p.b, b: f }
    } else if sector == 3 {
        Pixel { r: d, g: f, b: p.b }
    } else if sector == 4 {
        Pixel { r: f, g: d, b: p.b }
    } else {
        Pixel { r: p.b, g: d, b: e }
    }
}

/// Rewrites every RGB pixel as hue, saturation and value bytes and marks the
/// image HSV. The input mode is not checked.
pub fn rgb_to_hsv(image: &mut Image)
    requires
        old(image).wf(),
    ensures
        final(image).wf(),
        final(image).width == old(image).width,
        final(image).height == old(image).height,
        final(image).color_mode == ColorMode::HSV,
        hsv_applied(old(image).data(), final(image).data()),
{
    let n = image.num_pixels();
    let ghost src = image.data();
    let mut i: usize = 0;
    while i < n
        invariant
            image.wf(),
            n == image.pixel_count(),
            3 * n == src.len(),
            image.width == old(image).width,
            image.height == old(image).height,
            src == old(image).data(),
            image.data().len() == src.len(),
            i <= n,
            forall|j: int| 0 <= j < i ==> #[trigger] pixel_of(image.data(), j) == hsv_pixel(pixel_of(src, j)),
            forall|j: int| i <= j < n ==> #[trigger] pixel_of(image.data(), j) == pixel_of(src, j),
        decreases n - i,
    {
        let p = image.pixel_index(i);
        image.set_pixel_index(i, hsv_of(p));
        i += 1;
    }
    image.color_mode = ColorMode::HSV;
}

/// Rewrites every HSV pixel as RGB and marks the image RGB. The input mode is
/// not checked.
pub fn hsv_to_rgb(image: &mut Image)
    requires
        old(image).wf(),
    ensures
        final(image).wf(),
        final(image).width == old(image).width,
        final(image).height == old(image).height,
        final(image).color_mode == ColorMode::RGB,
        rgb_applied(old(image).data(), final(image).data()),
{
    let n = image.num_pixels();
    let ghost src = image.data();
    let mut i: usize = 0;
    while i < n
        invariant
            image.wf(),
            n == image.pixel_count(),
            3 * n == src.len(),
            image.width == old(image).width,
            image.height == old(image).height,
            src == old(image).data(),
            image.data().len() == src.len(),
            i <= n,
            forall|j: int| 0 <= j < i ==> #[trigger] pixel_of(image.data(), j) == rgb_pixel(pixel_of(src, j)),
            forall|j: int| i <= j < n ==> #[trigger] pixel_of(image.data(), j) == pixel_of(src, j),
        decreases n - i,
    {
        let p = image.pixel_index(i);
        image.set_pixel_index(i, rgb_of(p));
        i += 1;
    }
    image.color_mode = ColorMode::RGB;
}

/// A pixel that survives the HSV round trip byte for byte: a gray, or a
/// primary with one full channel and two empty ones.
pub open spec fn hsv_exact(p: Pixel) -> bool {
    ||| p.r == p.g && p.g == p.b
    ||| p.r == 255 && p.g == 0 && p.b == 0
    ||| p.r == 0 && p.g == 255 && p.b == 0
    ||| p.r == 0 && p.g == 0 && p.b == 255
}

/// Converting to HSV and back restores every gray and every primary.
pub proof fn lemma_hsv_round_trip_pixel(p: Pixel)
    requires
        hsv_exact(p),
    ensures
        rgb_pixel(hsv_pixel(p)) == p,
{
    let (r, g, b) = (p.r as int, p.g as int, p.b as int);
    if r == g && g == b {
        assert(saturation_byte(r, g, b) == 0);
    } else if r == 255 && g == 0 && b == 0 {
        assert(hsv_pixel(p) == Pixel { r: 0, g: 255, b: 255 });
    } else if r == 0 && g == 255 && b == 0 {
        assert(hsv_pixel(p) == Pixel { r: 85, g: 255, b: 255 });
    } else {
        assert(hsv_pixel(p) == Pixel { r: 170, g: 255, b: 255 });
    }
}

/// On an image whose pixels are all grays or primaries,
/// `hsv_to_rgb` after `rgb_to_hsv` gives back the original bytes.
pub proof fn lemma_hsv_round_trip(s: Seq<u8>, t: Seq<u8>, u: Seq<u8>)
    requires
        s.len() % 3 == 0,
        hsv_applied(s, t),
        rgb_applied(t, u),
        forall|i: int| 0 <= i < s.len() / 3 ==> hsv_exact(#[trigger] pixel_of(s, i)),
    ensures
        u == s,
{
    assert forall|i: int| 0 <= i < u.len() / 3 implies #[trigger] pixel_of(u, i) == pixel_of(s, i) by {
        assert(pixel_of(t, i) == hsv_pixel(pixel_of(s, i)));
        lemma_hsv_round_trip_pixel(pixel_of(s, i));
    }
    lemma_pixels_ext(u, s);
}

/// Converting to gray twice gives the same bytes as converting once.
pub proof fn lemma_gray_idempotent(s: Seq<u8>, t: Seq<u8>, u: Seq<u8>)
    requires
        s.len() % 3 == 0,
        gray_applied(s, t),
        gray_applied(t, u),
    ensures
        u == t,
{
    assert forall|i: int| 0 <= i < u.len() / 3 implies #[trigger] pixel_of(u, i) == pixel_of(t, i) by {
        assert(pixel_of(t, i) == gray_pixel(pixel_of(s, i)));
        let v = gray_level(pixel_of(s, i));
        assert(0 <= v <= 255);
    }
    lemma_pixels_ext(u, t);
}

/// A wrapping shift of a channel by `delta` followed by one by `-delta`
/// restores the original bytes.
pub proof fn lemma_shift_inverse(s: Seq<u8>, t: Seq<u8>, u: Seq<u8>, c: int, delta: i16, back: i16)
    requires
        s.len() % 3 == 0,
        back == -delta,
        shift_applied(s, t, c, delta, false),
        shift_applied(t, u, c, back, false),
    ensures
        u == s,
{
    assert forall|i: int| 0 <= i < u.len() / 3 implies #[trigger] pixel_of(u, i) == pixel_of(s, i) by {
        assert(pixel_of(t, i) == shift_pixel(pixel_of(s, i), c, delta, false));
        assert forall|v: u8| #[trigger] shift_value(shift_value(v, delta, false), back, false) == v by {
            let w = (v + delta) % 256;
            assert(((w + back) % 256) == v);
        }
    }
    lemma_pixels_ext(u, s);
}

} // verus!
