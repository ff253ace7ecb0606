use vstd::prelude::*;

verus! {

/// Records the last conversion applied to an image; the storage layout is the
/// same in every mode.
#[derive(Clone, Copy, PartialEq, Eq, Structural, Debug)]
pub enum ColorMode {
    RGB,
    HSV,
    HCL,
    GRAY,
}

/// One pixel: three channel bytes.
#[derive(Clone, Copy, PartialEq, Eq, Structural, Debug)]
pub struct Pixel {
    pub r: u8,
    pub g: u8,
    pub b: u8,
}

/// Why an image could not be built.
#[derive(Clone, Copy, PartialEq, Eq, Structural, Debug)]
pub enum ImageError {
    /// The byte buffer does not hold `width * height * 3` bytes.
    BufferSize,
    /// A dimension is zero or does not fit in `u16`.
    InvalidDimension,
}

/// A raster of `width * height` pixels, three bytes each, row-major.
#[derive(Clone, Debug)]
pub struct Image {
    /// Packed channel bytes; every operation asks for `wf`.
    pub pixels: Vec<u8>,
    pub height: u16,
    pub width: u16,
    pub color_mode: ColorMode,
}

/// Clamp-to-edge: the nearest index in `[0, size - 1]`.
pub open spec fn clamp_coord(v: int, size: int) -> int {
    if v < 0 {
        0
    } else if v >= size {
        size - 1
    } else {
        v
    }
}

/// A channel index of 3 or more stands for channel 2.
pub open spec fn coerce_channel(c: int) -> int {
    if c >= 3 {
        2
    } else {
        c
    }
}

/// Pixel number `i` of a packed buffer.
pub open spec fn pixel_of(s: Seq<u8>, i: int) -> Pixel {
    Pixel { r: s[3 * i], g: s[3 * i + 1], b: s[3 * i + 2] }
}

/// Two packed buffers of equal length whose pixels agree are equal.
pub proof fn lemma_pixels_ext(a: Seq<u8>, b: Seq<u8>)
    requires
        a.len() == b.len(),
        a.len() % 3 == 0,
        forall|i: int| 0 <= i < a.len() / 3 ==> #[trigger] pixel_of(a, i) == pixel_of(b, i),
    ensures
        a == b,
{
    assert forall|k: int| 0 <= k < a.len() implies a[k] == b[k] by {
        let i = k / 3;
        assert(pixel_of(a, i) == pixel_of(b, i));
    }
    assert(a =~= b);
}

impl Image {
    /// The packed channel bytes.
    pub open spec fn data(&self) -> Seq<u8> {
        self.pixels@
    }

    /// The buffer holds exactly three bytes per pixel.
    pub open spec fn wf(&self) -> bool {
        self.data().len() == self.width * self.height * 3
    }

    /// Well formed and with at least one pixel, so that clamping has a target.
    pub open spec fn addressable(&self) -> bool {
        self.wf() && self.width > 0 && self.height > 0
    }

    pub open spec fn pixel_count(&self) -> int {
        self.width * self.height
    }

    pub proof fn lemma_layout(&self)
        requires
            self.wf(),
        ensures
            self.data().len() == 3 * self.pixel_count(),
            0 <= self.pixel_count() <= 0xffff * 0xffff,
    {
        assert(0 <= self.pixel_count() <= 0xffff * 0xffff) by (nonlinear_arith)
            requires
                self.pixel_count() == self.width * self.height,
                self.width <= 0xffff,
                self.height <= 0xffff,
        ;
    }

    pub open spec fn index_of(&self, x: int, y: int, c: int) -> int {
        (y * self.width + x) * 3 + c
    }

    /// Channel `c` at `(x, y)`, after clamping and channel coercion.
    pub open spec fn channel_at(&self, x: int, y: int, c: int) -> u8 {
        self.data()[self.index_of(
            clamp_coord(x, self.width as int),
            clamp_coord(y, self.height as int),
            coerce_channel(c),
        )]
    }

    pub open spec fn pixel_at(&self, x: int, y: int) -> Pixel {
        Pixel { r: self.channel_at(x, y, 0), g: self.channel_at(x, y, 1), b: self.channel_at(x, y, 2) }
    }

    /// A zero-filled RGB image.
    pub fn new(width: u16, height: u16) -> (r: Image)
        requires
            width * height * 3 <= usize::MAX,
        ensures
            r.wf(),
            r.width == width,
            r.height == height,
            r.color_mode == ColorMode::RGB,
            forall|k: int| 0 <= k < r.data().len() ==> r.data()[k] == 0,
    {
        proof {
            assert(width as usize * height as usize * 3 <= usize::MAX) by (nonlinear_arith)
                requires
                    width * height * 3 <= usize::MAX,
            ;
        }
        let n: usize = width as usize * height as usize * 3;
        let pixels: Vec<u8> = vec![0u8; n];
        Image { pixels, height, width, color_mode: ColorMode::RGB }
    }

    /// An RGB image over decoded bytes; fails unless there are three per pixel.
    pub fn from_raw(width: u16, height: u16, pixels: Vec<u8>) -> (r: Result<Image, ImageError>)
        ensures
            r is Ok <==> pixels@.len() == width * height * 3,
            r is Err ==> r == Err::<Image, ImageError>(ImageError::BufferSize),
            r matches Ok(img) ==> img.wf() && img.width == width && img.height == height
                && img.color_mode == ColorMode::RGB && img.data() == pixels@,
    {
        proof {
            assert(width as u64 * height as u64 * 3 <= 0xffff * 0xffff * 3) by (nonlinear_arith);
        }
        let n: u64 = width as u64 * height as u64 * 3;
        if pixels.len() as u64 == n {
            Ok(Image { pixels, height, width, color_mode: ColorMode::RGB })
        } else {
            Err(ImageError::BufferSize)
        }
    }

    /// The packed channel bytes, for an encoder.
    pub fn bytes(&self) -> (r: &Vec<u8>)
        ensures
            r@ == self.data(),
    {
        &self.pixels
    }

    /// Clamp-to-edge of a coordinate pair.
    pub fn clamp(&self, x: usize, y: usize) -> (r: (usize, usize))
        requires
            self.width > 0,
            self.height > 0,
        ensures
            r.0 == clamp_coord(x as int, self.width as int),
            r.1 == clamp_coord(y as int, self.height as int),
    {
        let w: usize = (self.width - 1) as usize;
        let h: usize = (self.height - 1) as usize;
        (if x > w { w } else { x }, if y > h { h } else { y })
    }

    /// Coerces a channel index into `0..3`.
    pub fn coerce_channel(channel: usize) -> (r: usize)
        ensures
            r == coerce_channel(channel as int),
    {
        if channel >= 3 {
            2
        } else {
            channel
        }
    }

    fn coord_to_index(&self, x: usize, y: usize, c: usize) -> (r: usize)
        requires
            self.wf(),
            x < self.width,
            y < self.height,
            c < 3,
        ensures
            r == self.index_of(x as int, y as int, c as int),
            r < self.data().len(),
    {
        let len: usize = self.pixels.len();
        let w: usize = self.width as usize;
        let ghost hh = self.height as int;
        proof {
            assert(y * w + x < hh * w) by (nonlinear_arith)
                requires
                    y < hh,
                    x < w,
            ;
            assert(self.data().len() == w * hh * 3) by (nonlinear_arith)
                requires
                    self.data().len() == self.width * self.height * 3,
                    w == self.width,
                    hh == self.height,
            ;
        }
        proof {
            assert((y * w) * 3 + x * 3 + c == (y * w + x) * 3 + c) by (nonlinear_arith);
        }
        ((y * w) * 3) + (x * 3) + c
    }

    /// Reads the clamped pixel at `(x, y)`.
    pub fn get_pixel(&self, x: usize, y: usize) -> (p: Pixel)
        requires
            self.addressable(),
        ensures
            p == self.pixel_at(x as int, y as int),
    {
        let (a, b) = self.clamp(x, y);
        Pixel {
            r: self.pixels[self.coord_to_index(a, b, 0)],
            g: self.pixels[self.coord_to_index(a, b, 1)],
            b: self.pixels[self.coord_to_index(a, b, 2)],
        }
    }

    /// Reads one channel of the clamped pixel at `(x, y)`; a channel of 3 or
    /// more reads channel 2.
    pub fn get_individual_pixel(&self, x: usize, y: usize, channel: usize) -> (v: u8)
        requires
            self.addressable(),
        ensures
            v == self.channel_at(x as int, y as int, channel as int),
    {
        let (a, b) = self.clamp(x, y);
        let c = Image::coerce_channel(channel);
        self.pixels[self.coord_to_index(a, b, c)]
    }

    /// Writes one channel of the clamped pixel at `(x, y)`, with the same
    /// coercion as reading.
    pub fn set_individual_pixel(&mut self, x: usize, y: usize, channel: usize, value: u8)
        requires
            old(self).addressable(),
        ensures
            final(self).width == old(self).width,
            final(self).height == old(self).height,
            final(self).color_mode == old(self).color_mode,
            final(self).data().len() == old(self).data().len(),
            final(self).data() == old(self).data().update(
                old(self).index_of(
                    clamp_coord(x as int, old(self).width as int),
                    clamp_coord(y as int, old(self).height as int),
                    coerce_channel(channel as int),
                ),
                value,
            ),
    {
        let (a, b) = self.clamp(x, y);
        let c = Image::coerce_channel(channel);
        let index = self.coord_to_index(a, b, c);
        self.pixels.set(index, value);
    }

    /// Writes the clamped pixel at `(x, y)`.
    pub fn set_pixel(&mut self, x: usize, y: usize, p: Pixel)
        requires
            old(self).addressable(),
        ensures
            final(self).width == old(self).width,
            final(self).height == old(self).height,
            final(self).color_mode == old(self).color_mode,
            final(self).data().len() == old(self).data().len(),
            final(self).data() == old(self).data().update(
                old(self).index_of(
                    clamp_coord(x as int, old(self).width as int),
                    clamp_coord(y as int, old(self).height as int),
                    0,
                ),
                p.r,
            ).update(
                old(self).index_of(
                    clamp_coord(x as int, old(self).width as int),
                    clamp_coord(y as int, old(self).height as int),
                    1,
                ),
                p.g,
            ).update(
                old(self).index_of(
                    clamp_coord(x as int, old(self).width as int),
                    clamp_coord(y as int, old(self).height as int),
                    2,
                ),
                p.b,
            ),
    {
        self.set_individual_pixel(x, y, 0, p.r);
        self.set_individual_pixel(x, y, 1, p.g);
        self.set_individual_pixel(x, y, 2, p.b);
    }

    /// Pixel number `i` in raster order.
    pub(crate) fn pixel_index(&self, i: usize) -> (p: Pixel)
        requires
            self.wf(),
            i < self.pixel_count(),
        ensures
            p == pixel_of(self.data(), i as int),
    {
        proof {
            self.lemma_layout();
        }
        let len: usize = self.pixels.len();
        Pixel { r: self.pixels[3 * i], g: self.pixels[3 * i + 1], b: self.pixels[3 * i + 2] }
    }

    /// Overwrites pixel number `i` in raster order.
    pub(crate) fn set_pixel_index(&mut self, i: usize, p: Pixel)
        requires
            old(self).wf(),
            i < old(self).pixel_count(),
        ensures
            final(self).width == old(self).width,
            final(self).height == old(self).height,
            final(self).color_mode == old(self).color_mode,
            final(self).data().len() == old(self).data().len(),
            pixel_of(final(self).data(), i as int) == p,
            forall|j: int|
                0 <= j < old(self).pixel_count() && j != i ==> #[trigger] pixel_of(final(self).data(), j)
                    == pixel_of(old(self).data(), j),
    {
        proof {
            self.lemma_layout();
        }
        let len: usize = self.pixels.len();
        self.pixels.set(3 * i, p.r);
        self.pixels.set(3 * i + 1, p.g);
        self.pixels.set(3 * i + 2, p.b);
    }

    /// Number of pixels, as a loop bound.
    pub(crate) fn num_pixels(&self) -> (n: usize)
        requires
            self.wf(),
        ensures
            n == self.pixel_count(),
            3 * n == self.data().len(),
    {
        proof {
            self.lemma_layout();
        }
        self.pixels.len() / 3
    }
}

/// Any coordinates read the same pixel as their clamped form, which lies in
/// the image.
pub proof fn lemma_clamp_total(img: Image, x: int, y: int)
    requires
        img.addressable(),
    ensures
        0 <= clamp_coord(x, img.width as int) < img.width,
        0 <= clamp_coord(y, img.height as int) < img.height,
        img.pixel_at(x, y) == img.pixel_at(
            clamp_coord(x, img.width as int),
            clamp_coord(y, img.height as int),
        ),
{
}

/// Channel 5 reads the same byte as channel 2.
pub proof fn lemma_channel_coercion(img: Image, x: int, y: int)
    ensures
        img.channel_at(x, y, 5) == img.channel_at(x, y, 2),
{
}

} // verus!
