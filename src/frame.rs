//! Raw RGBA images, rows top to bottom, four bytes per pixel.
use vstd::prelude::*;

verus! {

/// One pixel: red, green, blue and alpha.
#[derive(Debug, Clone, Copy, PartialEq, Eq, Structural)]
pub struct Rgba {
    pub r: u8,
    pub g: u8,
    pub b: u8,
    pub a: u8,
}

/// An image of `width` × `height` pixels, stored row after row.
#[derive(Debug, Clone)]
pub struct RgbaFrame {
    pub width: u32,
    pub height: u32,
    pub pixels: Vec<u8>,
}

/// Channel `c` of a pixel: 0 red, 1 green, 2 blue, 3 alpha.
pub open spec fn channel(px: Rgba, c: int) -> u8 {
    if c == 0 {
        px.r
    } else if c == 1 {
        px.g
    } else if c == 2 {
        px.b
    } else {
        px.a
    }
}

/// Where the pixel `(x, y)` of an image `width` pixels wide starts.
pub open spec fn offset(width: int, x: int, y: int) -> int {
    (y * width + x) * 4
}

/// The pixel at `(x, y)` lies inside the image and its four bytes are
/// within the buffer.
pub proof fn lemma_offset_in_bounds(width: int, height: int, x: int, y: int)
    requires
        0 <= x < width,
        0 <= y < height,
    ensures
        0 <= offset(width, x, y),
        offset(width, x, y) + 4 <= width * height * 4,
        offset(width, x + 1, y) == offset(width, x, y) + 4,
        offset(width, 0, y + 1) == offset(width, width, y),
{
    assert(0 <= (y * width + x) * 4) by (nonlinear_arith)
        requires
            0 <= x,
            0 <= y,
            0 <= width,
    ;
    assert((y * width + x) * 4 + 4 <= width * height * 4) by (nonlinear_arith)
        requires
            0 <= x < width,
            0 <= y < height,
    ;
    assert(((y + 1) * width + 0) * 4 == (y * width + width) * 4) by (nonlinear_arith);
}

impl RgbaFrame {
    /// The buffer holds exactly four bytes per pixel.
    pub open spec fn wf(&self) -> bool {
        self.pixels@.len() == self.width * self.height * 4
    }

    pub open spec fn pixel(&self, x: int, y: int) -> Rgba {
        let o = offset(self.width as int, x, y);
        Rgba {
            r: self.pixels@[o],
            g: self.pixels@[o + 1],
            b: self.pixels@[o + 2],
            a: self.pixels@[o + 3],
        }
    }

    /// An image whose pixels all equal `px`.
    pub fn from_pixel(width: u32, height: u32, px: Rgba) -> (r: Self)
        requires
            width * height * 4 <= usize::MAX,
        ensures
            r.wf(),
            r.width == width,
            r.height == height,
            forall|x: int, y: int| 0 <= x < width && 0 <= y < height ==> r.pixel(x, y) == px,
    {
        let n: usize = width as usize * height as usize;
        let mut pixels: Vec<u8> = Vec::new();
        let mut i: usize = 0;
        while i < n
            invariant
                i <= n,
                n == width * height,
                n * 4 <= usize::MAX,
                pixels@.len() == i * 4,
                forall|j: int| 0 <= j < i * 4 ==> #[trigger] pixels@[j] == channel(px, j % 4),
            decreases n - i,
        {
            pixels.push(px.r);
            pixels.push(px.g);
            pixels.push(px.b);
            pixels.push(px.a);
            proof {
                assert forall|j: int| 0 <= j < (i + 1) * 4 implies #[trigger] pixels@[j] == channel(
                    px,
                    j % 4,
                ) by {
                    if j >= i * 4 {
                        assert(j % 4 == j - i * 4) by (nonlinear_arith)
                            requires
                                i * 4 <= j < i * 4 + 4,
                        ;
                    }
                }
            }
            i = i + 1;
        }
        let r = RgbaFrame { width, height, pixels };
        assert forall|x: int, y: int| 0 <= x < width && 0 <= y < height implies r.pixel(x, y)
            == px by {
            lemma_offset_in_bounds(width as int, height as int, x, y);
            let o = offset(width as int, x, y);
            assert(o % 4 == 0 && (o + 1) % 4 == 1 && (o + 2) % 4 == 2 && (o + 3) % 4 == 3)
                by (nonlinear_arith)
                requires
                    o == (y * width + x) * 4,
            ;
        }
        r
    }

    /// An image over `pixels`, or `None` when the buffer does not hold four
    /// bytes per pixel.
    pub fn from_raw(width: u32, height: u32, pixels: Vec<u8>) -> (r: Option<Self>)
        ensures
            r is Some <==> pixels@.len() == width * height * 4,
            r matches Some(f) ==> f.width == width && f.height == height && f.pixels@ == pixels@,
    {
        let len = pixels.len();
        proof {
            assert(width * height <= 0xFFFF_FFFE_0000_0001) by (nonlinear_arith)
                requires
                    width <= u32::MAX,
                    height <= u32::MAX,
            ;
        }
        let n: u64 = width as u64 * height as u64;
        if n <= (usize::MAX / 4) as u64 && len == n as usize * 4 {
            Some(RgbaFrame { width, height, pixels })
        } else {
            None
        }
    }

    pub fn get_pixel(&self, x: u32, y: u32) -> (r: Rgba)
        requires
            self.wf(),
            x < self.width,
            y < self.height,
        ensures
            r == self.pixel(x as int, y as int),
    {
        proof {
            lemma_offset_in_bounds(self.width as int, self.height as int, x as int, y as int);
        }
        let o = pixel_offset(self.width, self.height, self.pixels.len(), x, y);
        Rgba {
            r: self.pixels[o],
            g: self.pixels[o + 1],
            b: self.pixels[o + 2],
            a: self.pixels[o + 3],
        }
    }

    pub fn put_pixel(&mut self, x: u32, y: u32, px: Rgba)
        requires
            old(self).wf(),
            x < old(self).width,
            y < old(self).height,
        ensures
            final(self).wf(),
            final(self).width == old(self).width,
            final(self).height == old(self).height,
            final(self).pixel(x as int, y as int) == px,
            forall|i: int, j: int|
                0 <= i < old(self).width && 0 <= j < old(self).height && (i != x || j != y)
                    ==> final(self).pixel(i, j) == old(self).pixel(i, j),
    {
        proof {
            lemma_offset_in_bounds(self.width as int, self.height as int, x as int, y as int);
        }
        let o = pixel_offset(self.width, self.height, self.pixels.len(), x, y);
        self.pixels[o] = px.r;
        self.pixels[o + 1] = px.g;
        self.pixels[o + 2] = px.b;
        self.pixels[o + 3] = px.a;
        proof {
            let w = self.width as int;
            assert forall|i: int, j: int|
                0 <= i < old(self).width && 0 <= j < old(self).height && (i != x || j != y)
                    implies final(self).pixel(i, j) == old(self).pixel(i, j) by {
                lemma_offset_in_bounds(w, self.height as int, i, j);
                lemma_offsets_apart(w, i, j, x as int, y as int);
            }
        }
    }
}

/// Where the pixel `(x, y)` starts in the buffer of a well-formed image.
pub fn pixel_offset(width: u32, height: u32, len: usize, x: u32, y: u32) -> (r: usize)
    requires
        len == width * height * 4,
        x < width,
        y < height,
    ensures
        r == offset(width as int, x as int, y as int),
        r + 4 <= len,
{
    proof {
        lemma_offset_in_bounds(width as int, height as int, x as int, y as int);
        assert(y * width <= (y * width + x) * 4) by (nonlinear_arith)
            requires
                0 <= y,
                0 <= width,
                0 <= x,
        ;
    }
    (y as usize * width as usize + x as usize) * 4
}

/// Two different pixels of one row-major image do not share a byte.
pub proof fn lemma_offsets_apart(width: int, i: int, j: int, x: int, y: int)
    requires
        0 <= i < width,
        0 <= x < width,
        0 <= j,
        0 <= y,
        i != x || j != y,
    ensures
        offset(width, i, j) + 4 <= offset(width, x, y) || offset(width, x, y) + 4 <= offset(width, i, j),
{
    if j == y {
    } else if j < y {
        assert(j * width + i < y * width + x) by (nonlinear_arith)
            requires
                j < y,
                0 <= i < width,
                0 <= x,
        ;
    } else {
        assert(y * width + x < j * width + i) by (nonlinear_arith)
            requires
                y < j,
                0 <= x < width,
                0 <= i,
        ;
    }
}

/// Byte `k` of a row-major image `w` pixels wide is channel `k % 4` of the
/// pixel at column `(k / 4) % w` and row `(k / 4) / w`.
pub proof fn lemma_index_decompose(k: int, w: int, h: int)
    requires
        0 <= k < w * h * 4,
        w > 0,
    ensures
        0 <= (k / 4) % w < w,
        0 <= (k / 4) / w < h,
        0 <= k % 4 < 4,
        offset(w, (k / 4) % w, (k / 4) / w) + k % 4 == k,
{
    let p = k / 4;
    vstd::arithmetic::div_mod::lemma_fundamental_div_mod(k, 4);
    vstd::arithmetic::div_mod::lemma_fundamental_div_mod(p, w);
    vstd::arithmetic::div_mod::lemma_mod_bound(k, 4);
    vstd::arithmetic::div_mod::lemma_mod_bound(p, w);
    vstd::arithmetic::div_mod::lemma_div_pos_is_pos(k, 4);
    vstd::arithmetic::div_mod::lemma_div_pos_is_pos(p, w);
    assert(p < w * h) by (nonlinear_arith)
        requires
            k == 4 * p + k % 4,
            0 <= k % 4,
            k < w * h * 4,
    ;
    vstd::arithmetic::div_mod::lemma_multiply_divide_lt(p, w, h);
    assert(((p / w) * w + p % w) * 4 + k % 4 == k) by (nonlinear_arith)
        requires
            p == w * (p / w) + p % w,
            k == 4 * p + k % 4,
    ;
}

/// The bytes of the `w` × `h` area of `f` whose top-left pixel is
/// `(x0, y0)`.
pub open spec fn crop_pixels(f: RgbaFrame, x0: int, y0: int, w: int, h: int) -> Seq<u8> {
    Seq::new(
        (w * h * 4) as nat,
        |k: int| f.pixels@[offset(f.width as int, x0 + (k / 4) % w, y0 + (k / 4) / w) + k % 4],
    )
}

} // verus!
