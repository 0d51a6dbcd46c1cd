//! Resolution descriptor shared by every pass.

use vstd::prelude::*;

verus! {

/// The largest width or height whose pixel coordinates fit a signed 16-bit
/// channel of a seed texel.
pub const MAX_EXTENT: u32 = 32767;

/// Width and height, in pixels, of the buffers that the passes work on.
#[derive(Clone, Copy, Debug, PartialEq, Eq, Structural)]
pub struct Dimensions {
    width: u32,
    height: u32,
}

impl Dimensions {
    /// The width in pixels.
    pub closed spec fn spec_width(self) -> nat {
        self.width as nat
    }

    /// The height in pixels.
    pub closed spec fn spec_height(self) -> nat {
        self.height as nat
    }

    /// Number of pixels of a buffer of this size.
    pub open spec fn spec_pixel_count(self) -> nat {
        self.spec_width() * self.spec_height()
    }

    /// Whether `(x, y)` names a pixel of a buffer of this size.
    pub open spec fn spec_contains(self, x: int, y: int) -> bool {
        0 <= x < self.spec_width() && 0 <= y < self.spec_height()
    }

    /// Row-major position of pixel `(x, y)`.
    pub open spec fn spec_index(self, x: int, y: int) -> int {
        y * self.spec_width() + x
    }

    /// Whether every pixel coordinate of a buffer of this size can be stored
    /// in a seed texel.
    pub open spec fn spec_encodable(self) -> bool {
        self.spec_width() <= MAX_EXTENT && self.spec_height() <= MAX_EXTENT
    }

    /// The larger of width and height.
    pub open spec fn spec_max_extent(self) -> nat {
        if self.spec_width() >= self.spec_height() {
            self.spec_width()
        } else {
            self.spec_height()
        }
    }

    /// The descriptor for a `width` by `height` target.
    pub closed spec fn spec_new(width: u32, height: u32) -> Dimensions {
        Dimensions { width, height }
    }

    /// A descriptor for a `width` by `height` target.
    #[verifier::when_used_as_spec(spec_new)]
    pub fn new(width: u32, height: u32) -> (dims: Dimensions)
        ensures
            dims == Dimensions::spec_new(width, height),
            dims.spec_width() == width,
            dims.spec_height() == height,
    {
        Dimensions { width, height }
    }

    /// The width in pixels.
    pub fn width(self) -> (w: u32)
        ensures
            w == self.spec_width(),
    {
        self.width
    }

    /// The height in pixels.
    pub fn height(self) -> (h: u32)
        ensures
            h == self.spec_height(),
    {
        self.height
    }

    /// Number of pixels of a buffer of this size.
    pub fn pixel_count(self) -> (n: u64)
        ensures
            n == self.spec_pixel_count(),
    {
        let w: u64 = self.width as u64;
        let h: u64 = self.height as u64;
        assert(w * h <= 0xffff_ffff * 0xffff_ffff) by (nonlinear_arith)
            requires
                0 <= w <= 0xffff_ffff,
                0 <= h <= 0xffff_ffff,
        ;
        w * h
    }

    /// Whether `(x, y)` names a pixel of a buffer of this size.
    pub fn contains(self, x: u32, y: u32) -> (inside: bool)
        ensures
            inside == self.spec_contains(x as int, y as int),
    {
        x < self.width && y < self.height
    }

    /// Whether every pixel coordinate of a buffer of this size can be stored
    /// in a seed texel.
    pub fn encodable(self) -> (fits: bool)
        ensures
            fits == self.spec_encodable(),
    {
        self.width <= MAX_EXTENT && self.height <= MAX_EXTENT
    }

    /// The larger of width and height.
    pub fn max_extent(self) -> (m: u32)
        ensures
            m == self.spec_max_extent(),
    {
        if self.width >= self.height {
            self.width
        } else {
            self.height
        }
    }

    /// Row-major position of pixel `(x, y)` in a buffer whose length fits `usize`.
    pub fn index(self, x: u32, y: u32) -> (i: usize)
        requires
            self.spec_contains(x as int, y as int),
            self.spec_pixel_count() <= usize::MAX,
        ensures
            i == self.spec_index(x as int, y as int),
            i < self.spec_pixel_count(),
    {
        proof {
            lemma_index_in_range(self, x as int, y as int);
            assert(y * self.width <= self.spec_index(x as int, y as int));
        }
        (y as usize) * (self.width as usize) + (x as usize)
    }
}

/// A descriptor is determined by its width and height.
pub proof fn lemma_dimensions_by_extent(dims: Dimensions, width: u32, height: u32)
    ensures
        Dimensions::spec_new(width, height).spec_width() == width,
        Dimensions::spec_new(width, height).spec_height() == height,
        dims == Dimensions::spec_new(width, height) <==> (dims.spec_width() == width
            && dims.spec_height() == height),
{
}

/// A buffer of an encodable size has few enough pixels to be addressed on
/// any machine.
pub proof fn lemma_encodable_fits(dims: Dimensions)
    requires
        dims.spec_encodable(),
    ensures
        dims.spec_pixel_count() <= 0x3fff_0001,
        dims.spec_pixel_count() <= usize::MAX,
{
    let w: int = dims.spec_width() as int;
    let h: int = dims.spec_height() as int;
    assert(w * h <= 32767 * 32767) by (nonlinear_arith)
        requires
            0 <= w <= 32767,
            0 <= h <= 32767,
    ;
}

/// Width and height fit the 32 bits that a descriptor holds them in.
pub proof fn lemma_extent_bound(dims: Dimensions)
    ensures
        dims.spec_width() <= u32::MAX,
        dims.spec_height() <= u32::MAX,
        dims.spec_max_extent() <= u32::MAX,
{
}

/// A pixel inside the bounds has a row-major position inside the buffer.
pub proof fn lemma_index_in_range(dims: Dimensions, x: int, y: int)
    requires
        dims.spec_contains(x, y),
    ensures
        0 <= dims.spec_index(x, y) < dims.spec_pixel_count(),
        0 <= y * dims.spec_width(),
{
    let w: int = dims.spec_width() as int;
    let h: int = dims.spec_height() as int;
    assert(0 <= y * w && y * w + w <= h * w) by (nonlinear_arith)
        requires
            0 <= y < h,
            0 <= w,
    ;
    assert(h * w == w * h) by (nonlinear_arith);
}

/// Two pixels inside the bounds share a row-major position only if they are the same pixel.
pub proof fn lemma_index_injective(dims: Dimensions, x1: int, y1: int, x2: int, y2: int)
    requires
        dims.spec_contains(x1, y1),
        dims.spec_contains(x2, y2),
        dims.spec_index(x1, y1) == dims.spec_index(x2, y2),
    ensures
        x1 == x2,
        y1 == y2,
{
    let w: int = dims.spec_width() as int;
    if y1 < y2 {
        assert(y1 * w + w <= y2 * w) by (nonlinear_arith)
            requires
                y1 < y2,
                0 <= w,
        ;
    } else if y2 < y1 {
        assert(y2 * w + w <= y1 * w) by (nonlinear_arith)
            requires
                y2 < y1,
                0 <= w,
        ;
    }
}

} // verus!
