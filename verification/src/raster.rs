//! An RGBA raster with 8 bits per channel, stored row by row.

use vstd::prelude::*;

verus! {

/// One pixel: red, green, blue and alpha, in that order.
pub type Rgba = [u8; 4];

/// The pixel with every channel zero (transparent black).
pub open spec fn blank() -> Rgba {
    [0u8, 0u8, 0u8, 0u8]
}

/// Whether a raster of `width` by `height` RGBA pixels fits in memory.
pub open spec fn fits_in_memory(width: int, height: int) -> bool {
    width * height * 4 <= isize::MAX
}

/// Position of pixel `(x, y)` in a row-major buffer with rows of `width` pixels.
pub open spec fn flat_index(x: int, y: int, width: int) -> int {
    y * width + x
}

pub proof fn lemma_flat_index_bounds(x: int, y: int, width: int, height: int)
    requires
        0 <= x < width,
        0 <= y < height,
    ensures
        0 <= flat_index(x, y, width) < width * height,
{
    assert(0 <= y * width) by (nonlinear_arith)
        requires 0 <= y, 0 <= width;
    assert(y * width + width <= height * width) by (nonlinear_arith)
        requires y + 1 <= height, 0 <= width;
    assert(height * width == width * height) by (nonlinear_arith);
}

pub proof fn lemma_flat_index_injective(x1: int, y1: int, x2: int, y2: int, width: int)
    requires
        0 <= x1 < width,
        0 <= x2 < width,
        0 <= y1,
        0 <= y2,
        flat_index(x1, y1, width) == flat_index(x2, y2, width),
    ensures
        x1 == x2,
        y1 == y2,
{
    if y1 < y2 {
        assert(y1 * width + width <= y2 * width) by (nonlinear_arith)
            requires y1 + 1 <= y2, 0 <= width;
    } else if y2 < y1 {
        assert(y2 * width + width <= y1 * width) by (nonlinear_arith)
            requires y2 + 1 <= y1, 0 <= width;
    }
}

/// An image of `width` by `height` RGBA pixels.
pub struct Image {
    width: u32,
    height: u32,
    pixels: Vec<Rgba>,
}

impl Image {
    #[verifier::type_invariant]
    closed spec fn inv(&self) -> bool {
        &&& self.pixels@.len() == self.width * self.height
        &&& fits_in_memory(self.width as int, self.height as int)
    }

    pub closed spec fn spec_width(&self) -> u32 {
        self.width
    }

    pub closed spec fn spec_height(&self) -> u32 {
        self.height
    }

    /// The pixel at column `x`, row `y`; meaningful for in-bounds positions.
    pub closed spec fn pixel(&self, x: int, y: int) -> Rgba {
        self.pixels@[flat_index(x, y, self.width as int)]
    }

    /// Whether `(x, y)` lies inside the image.
    pub open spec fn in_bounds(&self, x: int, y: int) -> bool {
        0 <= x < self.spec_width() && 0 <= y < self.spec_height()
    }

    #[verifier::when_used_as_spec(spec_width)]
    pub fn width(&self) -> (w: u32)
        ensures
            w == self.spec_width(),
            fits_in_memory(self.spec_width() as int, self.spec_height() as int),
    {
        proof {
            use_type_invariant(self);
        }
        self.width
    }

    #[verifier::when_used_as_spec(spec_height)]
    pub fn height(&self) -> (h: u32)
        ensures
            h == self.spec_height(),
            fits_in_memory(self.spec_width() as int, self.spec_height() as int),
    {
        proof {
            use_type_invariant(self);
        }
        self.height
    }

    /// A new image whose pixels are all transparent black.
    pub fn new_rgba8(width: u32, height: u32) -> (img: Image)
        requires
            fits_in_memory(width as int, height as int),
        ensures
            img.width() == width,
            img.height() == height,
            forall|x: int, y: int| img.in_bounds(x, y) ==> #[trigger] img.pixel(x, y) == blank(),
    {
        proof {
            assert(width * height <= width * height * 4) by (nonlinear_arith)
                requires 0 <= width * height;
            assert(0 <= width * height) by (nonlinear_arith)
                requires 0 <= width, 0 <= height;
        }
        let n: usize = (width as usize) * (height as usize);
        let mut pixels: Vec<Rgba> = Vec::new();
        let mut i: usize = 0;
        while i < n
            invariant
                i <= n,
                n == width * height,
                pixels@.len() == i,
                forall|k: int| 0 <= k < i ==> #[trigger] pixels@[k] == blank(),
            decreases n - i,
        {
            pixels.push([0u8, 0u8, 0u8, 0u8]);
            i = i + 1;
        }
        let img = Image { width, height, pixels };
        proof {
            assert forall|x: int, y: int| img.in_bounds(x, y) implies #[trigger] img.pixel(x, y) == blank() by {
                lemma_flat_index_bounds(x, y, width as int, height as int);
            }
        }
        img
    }

    /// The pixel at `(x, y)`.
    pub fn get_pixel(&self, x: u32, y: u32) -> (p: Rgba)
        requires
            self.in_bounds(x as int, y as int),
        ensures
            p == self.pixel(x as int, y as int),
    {
        proof {
            use_type_invariant(self);
            lemma_flat_index_bounds(x as int, y as int, self.width as int, self.height as int);
        }
        let i: usize = (y as usize) * (self.width as usize) + (x as usize);
        self.pixels[i]
    }

    /// Overwrites the pixel at `(x, y)` with `p`.
    pub fn put_pixel(&mut self, x: u32, y: u32, p: Rgba)
        requires
            old(self).in_bounds(x as int, y as int),
        ensures
            final(self).width() == old(self).width(),
            final(self).height() == old(self).height(),
            final(self).pixel(x as int, y as int) == p,
            forall|x2: int, y2: int|
                old(self).in_bounds(x2, y2) && !(x2 == x && y2 == y) ==> #[trigger] final(self).pixel(x2, y2)
                    == old(self).pixel(x2, y2),
    {
        proof {
            use_type_invariant(&*self);
            lemma_flat_index_bounds(x as int, y as int, self.width as int, self.height as int);
        }
        let i: usize = (y as usize) * (self.width as usize) + (x as usize);
        let mut taken = Image { width: 0, height: 0, pixels: Vec::new() };
        std::mem::swap(self, &mut taken);
        let Image { width, height, mut pixels } = taken;
        pixels.set(i, p);
        *self = Image { width, height, pixels };
        proof {
            assert forall|x2: int, y2: int|
                old(self).in_bounds(x2, y2) && !(x2 == x && y2 == y) implies #[trigger] self.pixel(x2, y2)
                    == old(self).pixel(x2, y2) by {
                lemma_flat_index_bounds(x2, y2, self.width as int, self.height as int);
                if flat_index(x2, y2, self.width as int) == i {
                    lemma_flat_index_injective(x2, y2, x as int, y as int, self.width as int);
                }
            }
        }
    }

    /// Copies every pixel of `other` into this image with its top-left corner at
    /// `(x, y)`; the rest of this image is left as it was.
    pub fn copy_from(&mut self, other: &Image, x: u32, y: u32)
        requires
            x + other.width() <= old(self).width(),
            y + other.height() <= old(self).height(),
        ensures
            final(self).width() == old(self).width(),
            final(self).height() == old(self).height(),
            forall|i: int, j: int|
                old(self).in_bounds(i, j) ==> #[trigger] final(self).pixel(i, j) == (if x <= i < x + other.width()
                    && y <= j < y + other.height() {
                    other.pixel(i - x, j - y)
                } else {
                    old(self).pixel(i, j)
                }),
    {
        let ghost orig = *self;
        for ox in 0..other.width()
            invariant
                x + other.width() <= orig.width(),
                y + other.height() <= orig.height(),
                self.width() == orig.width(),
                self.height() == orig.height(),
                forall|i: int, j: int|
                    orig.in_bounds(i, j) ==> #[trigger] self.pixel(i, j) == (if x <= i < x + ox && y <= j < y
                        + other.height() {
                        other.pixel(i - x, j - y)
                    } else {
                        orig.pixel(i, j)
                    }),
        {
            for oy in 0..other.height()
                invariant
                    x + other.width() <= orig.width(),
                    y + other.height() <= orig.height(),
                    0 <= ox < other.width(),
                    self.width() == orig.width(),
                    self.height() == orig.height(),
                    forall|i: int, j: int|
                        orig.in_bounds(i, j) ==> #[trigger] self.pixel(i, j) == (if (x <= i < x + ox && y <= j < y
                            + other.height()) || (i == x + ox && y <= j < y + oy) {
                            other.pixel(i - x, j - y)
                        } else {
                            orig.pixel(i, j)
                        }),
            {
                let pixel = other.get_pixel(ox, oy);
                self.put_pixel(x + ox, y + oy, pixel);
            }
        }
    }

    /// A new image of `width` by `height` pixels holding the region of this image
    /// whose top-left corner is `(x, y)`.
    pub fn crop(&self, x: u32, y: u32, width: u32, height: u32) -> (img: Image)
        requires
            x + width <= self.width(),
            y + height <= self.height(),
        ensures
            img.width() == width,
            img.height() == height,
            forall|i: int, j: int| img.in_bounds(i, j) ==> #[trigger] img.pixel(i, j) == self.pixel(x + i, y + j),
    {
        proof {
            use_type_invariant(self);
            assert(width * height <= self.width * self.height) by (nonlinear_arith)
                requires width <= self.width, height <= self.height;
        }
        let mut img = Image::new_rgba8(width, height);
        for i in 0..width
            invariant
                x + width <= self.width(),
                y + height <= self.height(),
                img.width() == width,
                img.height() == height,
                forall|a: int, b: int| img.in_bounds(a, b) ==> #[trigger] img.pixel(a, b) == (if a < i {
                    self.pixel(x + a, y + b)
                } else {
                    blank()
                }),
        {
            for j in 0..height
                invariant
                    x + width <= self.width(),
                    y + height <= self.height(),
                    0 <= i < width,
                    img.width() == width,
                    img.height() == height,
                    forall|a: int, b: int| img.in_bounds(a, b) ==> #[trigger] img.pixel(a, b) == (if a < i || (a == i
                        && b < j) {
                        self.pixel(x + a, y + b)
                    } else {
                        blank()
                    }),
            {
                let pixel = self.get_pixel(x + i, y + j);
                img.put_pixel(i, j, pixel);
            }
        }
        img
    }
}

/// The four bytes of pixel `k` in an RGBA byte buffer.
pub open spec fn pixel_from_bytes(bytes: Seq<u8>, k: int) -> Rgba {
    [bytes[4 * k], bytes[4 * k + 1], bytes[4 * k + 2], bytes[4 * k + 3]]
}

impl Image {
    /// An image of `width` by `height` pixels read from an RGBA buffer, four bytes
    /// per pixel, row by row; `None` when the buffer does not have exactly that
    /// many bytes or the image would not fit in memory.
    pub fn from_rgba_bytes(width: u32, height: u32, bytes: &[u8]) -> (img: Option<Image>)
        ensures
            img is Some <==> (bytes@.len() == width * height * 4 && fits_in_memory(width as int, height as int)),
            img matches Some(img) ==> {
                &&& img.width() == width
                &&& img.height() == height
                &&& forall|x: int, y: int| img.in_bounds(x, y) ==> #[trigger] img.pixel(x, y) == pixel_from_bytes(
                    bytes@,
                    flat_index(x, y, width as int),
                )
            },
    {
        let w = width as u64;
        let h = height as u64;
        proof {
            assert(w * h <= 0xffff_ffff_ffff_ffff) by (nonlinear_arith)
                requires w <= 0xffff_ffff, h <= 0xffff_ffff;
        }
        let n = w * h;
        if n > (isize::MAX as u64) / 4 {
            return None;
        }
        let n = n as usize;
        let len = bytes.len();
        if len / 4 != n || len % 4 != 0 {
            return None;
        }
        let mut pixels: Vec<Rgba> = Vec::new();
        for k in 0..n
            invariant
                len == bytes@.len(),
                n == width * height,
                bytes@.len() == 4 * n,
                pixels@.len() == k,
                forall|j: int| 0 <= j < k ==> #[trigger] pixels@[j] == pixel_from_bytes(bytes@, j),
        {
            let b = 4 * k;
            pixels.push([bytes[b], bytes[b + 1], bytes[b + 2], bytes[b + 3]]);
        }
        let img = Image { width, height, pixels };
        proof {
            assert forall|x: int, y: int| img.in_bounds(x, y) implies #[trigger] img.pixel(x, y) == pixel_from_bytes(
                bytes@,
                flat_index(x, y, width as int),
            ) by {
                lemma_flat_index_bounds(x, y, width as int, height as int);
            }
        }
        Some(img)
    }

    /// The pixels as an RGBA buffer, four bytes per pixel, row by row.
    pub fn to_rgba_bytes(&self) -> (bytes: Vec<u8>)
        ensures
            bytes@.len() == self.width() * self.height() * 4,
            forall|x: int, y: int| self.in_bounds(x, y) ==> pixel_from_bytes(bytes@, flat_index(x, y, self.width() as int))
                == #[trigger] self.pixel(x, y),
    {
        proof {
            use_type_invariant(self);
        }
        let n = self.pixels.len();
        let mut bytes: Vec<u8> = Vec::new();
        for k in 0..n
            invariant
                n == self.pixels@.len(),
                n == self.width * self.height,
                fits_in_memory(self.width as int, self.height as int),
                bytes@.len() == 4 * k,
                forall|j: int| 0 <= j < k ==> #[trigger] pixel_from_bytes(bytes@, j) == self.pixels@[j],
        {
            let p = self.pixels[k];
            let ghost before = bytes@;
            bytes.push(p[0]);
            bytes.push(p[1]);
            bytes.push(p[2]);
            bytes.push(p[3]);
            proof {
                assert forall|j: int| 0 <= j < k + 1 implies #[trigger] pixel_from_bytes(bytes@, j) == self.pixels@[j] by {
                    if j < k {
                        assert(pixel_from_bytes(before, j) == self.pixels@[j]);
                        assert(pixel_from_bytes(bytes@, j) =~= pixel_from_bytes(before, j));
                    } else {
                        assert(pixel_from_bytes(bytes@, j) =~= p);
                    }
                }
            }
        }
        proof {
            assert forall|x: int, y: int| self.in_bounds(x, y) implies pixel_from_bytes(
                bytes@,
                flat_index(x, y, self.width() as int),
            ) == #[trigger] self.pixel(x, y) by {
                lemma_flat_index_bounds(x, y, self.width as int, self.height as int);
            }
        }
        bytes
    }
}

/// Reading back the bytes that `to_rgba_bytes` writes, with the same width and
/// height, gives the same pixels.
pub proof fn lemma_rgba_bytes_round_trip(img: Image, bytes: Seq<u8>, back: Image)
    requires
        bytes.len() == img.width() * img.height() * 4,
        forall|x: int, y: int| img.in_bounds(x, y) ==> pixel_from_bytes(bytes, flat_index(x, y, img.width() as int))
            == #[trigger] img.pixel(x, y),
        back.width() == img.width(),
        back.height() == img.height(),
        forall|x: int, y: int| back.in_bounds(x, y) ==> #[trigger] back.pixel(x, y) == pixel_from_bytes(
            bytes,
            flat_index(x, y, back.width() as int),
        ),
    ensures
        forall|x: int, y: int| back.in_bounds(x, y) ==> #[trigger] back.pixel(x, y) == img.pixel(x, y),
{
    assert forall|x: int, y: int| back.in_bounds(x, y) implies #[trigger] back.pixel(x, y) == img.pixel(x, y) by {
        assert(img.in_bounds(x, y));
    }
}

impl Clone for Image {
    /// A copy with the same size and pixels.
    fn clone(&self) -> (copy: Self)
        ensures
            copy.width() == self.width(),
            copy.height() == self.height(),
            forall|x: int, y: int| self.in_bounds(x, y) ==> #[trigger] copy.pixel(x, y) == self.pixel(x, y),
    {
        proof {
            use_type_invariant(self);
        }
        let n = self.pixels.len();
        let mut pixels: Vec<Rgba> = Vec::new();
        for i in 0..n
            invariant
                n == self.pixels@.len(),
                pixels@ == self.pixels@.take(i as int),
        {
            pixels.push(self.pixels[i]);
            proof {
                assert(pixels@ =~= self.pixels@.take(i + 1));
            }
        }
        proof {
            assert(pixels@ =~= self.pixels@);
        }
        Image { width: self.width, height: self.height, pixels }
    }
}

} // verus!
