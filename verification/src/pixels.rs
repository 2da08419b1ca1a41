use vstd::prelude::*;

verus! {

/// The byte orders a rendered page can arrive in.
#[derive(Clone, Copy, PartialEq, Eq, Debug, Structural)]
pub enum PixelFormat {
    /// 32bpp B, G, R, A.
    Bgra8,
    /// 24bpp B, G, R.
    Bgr8,
    /// 32bpp R, G, B, A.
    Rgba8,
}

impl PixelFormat {
    pub open spec fn spec_bytes_per_pixel(self) -> int {
        match self {
            PixelFormat::Bgr8 => 3,
            _ => 4,
        }
    }

    pub fn bytes_per_pixel(self) -> (n: usize)
        ensures
            n == self.spec_bytes_per_pixel(),
    {
        match self {
            PixelFormat::Bgr8 => 3,
            _ => 4,
        }
    }
}

/// Whether a buffer of `len` bytes holds a picture of this geometry: positive
/// extent, rows at least one row of pixels apart, and every byte of the last
/// row present (the last row needs only its own bytes, not a full stride).
pub open spec fn shape_fits(len: int, width: int, height: int, stride: int, bpp: int) -> bool {
    &&& width > 0
    &&& height > 0
    &&& stride >= width * bpp
    &&& stride * (height - 1) + width * bpp <= len
}

/// How much ink a colour carries: 0 for paper white, 255 for solid black.
pub open spec fn spec_ink_from_rgb(r: u8, g: u8, b: u8) -> u8 {
    (255 - (77 * r + 150 * g + 29 * b) / 256) as u8
}

/// Every byte of every pixel of a picture that fits its buffer is in the buffer,
/// and its offset is computed without overflow.
pub proof fn lemma_sample_in_bounds(
    len: int,
    width: int,
    height: int,
    stride: int,
    bpp: int,
    x: int,
    y: int,
    k: int,
)
    requires
        shape_fits(len, width, height, stride, bpp),
        0 <= x < width,
        0 <= y < height,
        0 <= k < bpp,
    ensures
        0 <= y * stride,
        y * stride <= stride * (height - 1),
        0 <= x * bpp,
        x * bpp + k < width * bpp,
        y * stride + x * bpp + k < len,
{
    assert(0 <= y * stride && y * stride <= stride * (height - 1)) by (nonlinear_arith)
        requires
            0 <= y <= height - 1,
            stride >= 0,
    ;
    assert(0 <= x * bpp && x * bpp + k < width * bpp) by (nonlinear_arith)
        requires
            0 <= x < width,
            0 <= k < bpp,
    ;
}

/// A borrowed view of somebody else's pixels, whose buffer is known to be as
/// big as its geometry claims.
#[derive(Clone, Copy, Debug)]
pub struct Pixels<'a> {
    data: &'a [u8],
    width: i32,
    height: i32,
    stride: usize,
    format: PixelFormat,
}

impl<'a> Pixels<'a> {
    #[verifier::type_invariant]
    spec fn inv(self) -> bool {
        shape_fits(
            self.data@.len() as int,
            self.width as int,
            self.height as int,
            self.stride as int,
            self.format.spec_bytes_per_pixel(),
        )
    }

    pub closed spec fn bytes(self) -> Seq<u8> {
        self.data@
    }

    pub closed spec fn spec_width(self) -> int {
        self.width as int
    }

    pub closed spec fn spec_height(self) -> int {
        self.height as int
    }

    pub closed spec fn spec_stride(self) -> int {
        self.stride as int
    }

    pub closed spec fn spec_format(self) -> PixelFormat {
        self.format
    }

    /// Byte `k` of pixel `(x, y)`.
    pub open spec fn byte_at(self, x: int, y: int, k: int) -> u8 {
        self.bytes()[y * self.spec_stride() + x * self.spec_format().spec_bytes_per_pixel() + k]
    }

    /// How much ink pixel `(x, y)` carries, read in this buffer's byte order.
    pub open spec fn ink_at(self, x: int, y: int) -> u8 {
        match self.spec_format() {
            PixelFormat::Rgba8 => spec_ink_from_rgb(
                self.byte_at(x, y, 0),
                self.byte_at(x, y, 1),
                self.byte_at(x, y, 2),
            ),
            _ => spec_ink_from_rgb(self.byte_at(x, y, 2), self.byte_at(x, y, 1), self.byte_at(x, y, 0)),
        }
    }

    /// Every `Pixels` value fits its buffer.
    pub open spec fn fits(self) -> bool {
        shape_fits(
            self.bytes().len() as int,
            self.spec_width(),
            self.spec_height(),
            self.spec_stride(),
            self.spec_format().spec_bytes_per_pixel(),
        )
    }

    /// Wraps a buffer, refusing a geometry the buffer cannot hold (or whose size
    /// does not fit in memory arithmetic).
    pub fn new(data: &'a [u8], width: i32, height: i32, stride: usize, format: PixelFormat) -> (r:
        Option<Self>)
        ensures
            r is Some <==> ({
                let bpp = format.spec_bytes_per_pixel();
                &&& shape_fits(data@.len() as int, width as int, height as int, stride as int, bpp)
                &&& width * bpp <= usize::MAX
                &&& stride * (height - 1) <= usize::MAX
                &&& stride * (height - 1) + width * bpp <= usize::MAX
            }),
            r matches Some(p) ==> {
                &&& p.bytes() == data@
                &&& p.spec_width() == width
                &&& p.spec_height() == height
                &&& p.spec_stride() == stride
                &&& p.spec_format() == format
            },
    {
        if width <= 0 || height <= 0 {
            return None;
        }
        let bpp = format.bytes_per_pixel();
        let row_bytes = match (width as usize).checked_mul(bpp) {
            Some(v) => v,
            None => return None,
        };
        if stride < row_bytes {
            return None;
        }
        let body = match stride.checked_mul(height as usize - 1) {
            Some(v) => v,
            None => return None,
        };
        let needed = match body.checked_add(row_bytes) {
            Some(v) => v,
            None => return None,
        };
        if data.len() < needed {
            return None;
        }
        Some(Pixels { data, width, height, stride, format })
    }

    /// The width in pixels. Also says that the buffer fits the geometry.
    pub fn width(&self) -> (w: i32)
        ensures
            w == self.spec_width(),
            self.fits(),
    {
        proof {
            use_type_invariant(self);
        }
        self.width
    }

    /// The height in pixels. Also says that the buffer fits the geometry.
    pub fn height(&self) -> (h: i32)
        ensures
            h == self.spec_height(),
            self.fits(),
    {
        proof {
            use_type_invariant(self);
        }
        self.height
    }

    pub fn format(&self) -> (f: PixelFormat)
        ensures
            f == self.spec_format(),
    {
        self.format
    }

    /// Byte `k` of pixel `(x, y)`.
    pub fn sample(&self, x: usize, y: usize, k: usize) -> (b: u8)
        requires
            x < self.spec_width(),
            y < self.spec_height(),
            k < self.spec_format().spec_bytes_per_pixel(),
        ensures
            b == self.byte_at(x as int, y as int, k as int),
    {
        proof {
            use_type_invariant(self);
            lemma_sample_in_bounds(
                self.data@.len() as int,
                self.width as int,
                self.height as int,
                self.stride as int,
                self.format.spec_bytes_per_pixel(),
                x as int,
                y as int,
                k as int,
            );
        }
        let bpp = self.format.bytes_per_pixel();
        let len = self.data.len();
        assert(y * self.stride + x * bpp + k < len);
        self.data[y * self.stride + x * bpp + k]
    }
}

/// A composed tile: 32bpp BGRA, tightly packed, owned.
#[derive(Clone, Debug)]
pub struct Tile {
    pub width: i32,
    pub height: i32,
    pub data: Vec<u8>,
}

impl Tile {
    /// Whether the buffer holds exactly `width * height` four-byte pixels.
    pub open spec fn wf(self) -> bool {
        &&& self.width > 0
        &&& self.height > 0
        &&& self.data@.len() == self.width * self.height * 4
    }

    /// Byte `k` of pixel `(x, y)`.
    pub open spec fn spec_byte(self, x: int, y: int, k: int) -> u8 {
        self.data@[(y * self.width + x) * 4 + k]
    }

    /// A blank tile of this size, or nothing for an empty or unallocatable one.
    pub fn new(width: i32, height: i32) -> (t: Option<Self>)
        ensures
            t is Some <==> (width > 0 && height > 0 && width * height * 4 <= usize::MAX),
            t matches Some(t) ==> {
                &&& t.wf()
                &&& t.width == width
                &&& t.height == height
                &&& forall|i: int| 0 <= i < t.data@.len() ==> t.data@[i] == 0
            },
    {
        if width <= 0 || height <= 0 {
            return None;
        }
        let wh = match (width as usize).checked_mul(height as usize) {
            Some(v) => v,
            None => return None,
        };
        let n = match wh.checked_mul(4) {
            Some(v) => v,
            None => return None,
        };
        proof {
            assert(n == width * height * 4) by (nonlinear_arith)
                requires
                    wh == width * height,
                    n == wh * 4,
            ;
        }
        let mut data: Vec<u8> = Vec::with_capacity(n);
        let mut i: usize = 0;
        while i < n
            invariant
                i <= n,
                data@.len() == i,
                forall|j: int| 0 <= j < i ==> data@[j] == 0,
            decreases n - i,
        {
            data.push(0);
            i = i + 1;
        }
        Some(Tile { width, height, data })
    }

    /// Bytes per row.
    pub fn stride(&self) -> (s: usize)
        requires
            self.width >= 0,
            self.width * 4 <= usize::MAX,
        ensures
            s == self.width * 4,
    {
        self.width as usize * 4
    }

    /// The B, G, R of one pixel.
    pub fn bgr_at(&self, x: i32, y: i32) -> (p: [u8; 3])
        requires
            0 <= x,
            0 <= y,
            self.width >= 0,
            (y * self.width + x) * 4 + 2 < self.data@.len(),
        ensures
            p@ == seq![self.spec_byte(x as int, y as int, 0), self.spec_byte(x as int, y as int, 1), self.spec_byte(x as int, y as int, 2)],
    {
        let len = self.data.len();
        proof {
            assert(0 <= y * self.width) by (nonlinear_arith)
                requires
                    y >= 0,
                    self.width >= 0,
            ;
        }
        assert(y * self.width + x < len);
        let row = y as usize * self.width as usize;
        let i = (row + x as usize) * 4;
        [self.data[i], self.data[i + 1], self.data[i + 2]]
    }
}

} // verus!
