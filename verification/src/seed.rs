//! Seed texels, seed buffers and the seed initialisation pass.

use crate::coverage::CoverageBuffer;
use crate::error::OutlineError;
use crate::dimensions::{
    lemma_encodable_fits, lemma_index_in_range, lemma_index_injective, Dimensions, MAX_EXTENT,
};
use vstd::prelude::*;

verus! {

/// One texel of a seed buffer: the coordinate of the nearest seed found so
/// far, or the sentinel that stands for "no seed yet".
#[derive(Clone, Copy, Debug, PartialEq, Eq, Structural)]
pub enum Texel {
    Sentinel,
    Seed { x: u32, y: u32 },
}

/// The pair of signed 16-bit channels that stores `texel`: a coordinate is
/// stored as its pixel counts, the sentinel as `(-1, -1)`.
pub open spec fn spec_encode(texel: Texel) -> (i16, i16) {
    match texel {
        Texel::Sentinel => (-1i16, -1i16),
        Texel::Seed { x, y } => (x as i16, y as i16),
    }
}

/// The texel that a pair of channels stands for: any negative channel
/// makes it the sentinel.
pub open spec fn spec_decode(raw: (i16, i16)) -> Texel {
    if raw.0 < 0 || raw.1 < 0 {
        Texel::Sentinel
    } else {
        Texel::Seed { x: raw.0 as u32, y: raw.1 as u32 }
    }
}

impl Texel {
    /// Whether the texel fits the two channels: the sentinel does, and so
    /// does a coordinate up to the largest positive channel value.
    pub open spec fn spec_encodable(self) -> bool {
        self matches Texel::Seed { x, y } ==> x <= MAX_EXTENT && y <= MAX_EXTENT
    }

    /// The two channels that store the texel, or `None` for a coordinate
    /// beyond the channels' range.
    pub fn encode(self) -> (raw: Option<(i16, i16)>)
        ensures
            raw is Some <==> self.spec_encodable(),
            raw matches Some(r) ==> r == spec_encode(self),
    {
        match self {
            Texel::Sentinel => Some((-1, -1)),
            Texel::Seed { x, y } => if x <= MAX_EXTENT && y <= MAX_EXTENT {
                Some((x as i16, y as i16))
            } else {
                None
            },
        }
    }

    /// The texel that the two channels stand for.
    pub fn decode(raw: (i16, i16)) -> (texel: Texel)
        ensures
            texel == spec_decode(raw),
            texel.spec_encodable(),
    {
        if raw.0 < 0 || raw.1 < 0 {
            Texel::Sentinel
        } else {
            Texel::Seed { x: raw.0 as u32, y: raw.1 as u32 }
        }
    }
}

/// Decoding undoes encoding: a texel that fits the channels is read back
/// as it was written, and the sentinel is never read back as a coordinate.
pub proof fn lemma_decode_encode(texel: Texel)
    requires
        texel.spec_encodable(),
    ensures
        spec_decode(spec_encode(texel)) == texel,
{
}

/// Every texel of a valid field of encodable size fits the channels.
pub proof fn lemma_field_encodable(dims: Dimensions, field: Map<(int, int), Texel>, x: int, y: int)
    requires
        dims.spec_encodable(),
        field_valid(dims, field),
        dims.spec_contains(x, y),
    ensures
        field[(x, y)].spec_encodable(),
{
}

/// The pixels of a buffer of size `dims`: the keys of the field of texels
/// that a seed buffer of that size holds.
pub open spec fn field_domain(dims: Dimensions) -> Set<(int, int)> {
    Set::new(|p: (int, int)| dims.spec_contains(p.0, p.1))
}

/// A field covers exactly the pixels of `dims`, and every coordinate it
/// stores names a pixel of `dims`.
pub open spec fn field_valid(dims: Dimensions, field: Map<(int, int), Texel>) -> bool {
    &&& field.dom() =~= field_domain(dims)
    &&& forall|p: (int, int)|
        dims.spec_contains(p.0, p.1) ==> (#[trigger] field[p] matches Texel::Seed { x, y }
            ==> dims.spec_contains(x as int, y as int))
}

/// The coordinate nearest to `v` among `0 .. extent`, as a sampler that clamps
/// to the edge picks it.
pub open spec fn clamp_coord(v: int, extent: nat) -> int {
    if v < 0 {
        0
    } else if v >= extent {
        extent - 1
    } else {
        v
    }
}

/// The texel that a read at `(x, y)` returns when reads outside the buffer
/// are clamped to its edge.
pub open spec fn sample_clamped(dims: Dimensions, field: Map<(int, int), Texel>, x: int, y: int) -> Texel {
    field[(clamp_coord(x, dims.spec_width()), clamp_coord(y, dims.spec_height()))]
}

/// What seed initialisation makes of a coverage buffer: a covered pixel
/// stores its own coordinate, an uncovered one the sentinel.
pub open spec fn seeded_field(coverage: CoverageBuffer) -> Map<(int, int), Texel> {
    Map::new(
        |p: (int, int)| coverage.dims().spec_contains(p.0, p.1),
        |p: (int, int)|
            if coverage.covered(p.0, p.1) {
                Texel::Seed { x: p.0 as u32, y: p.1 as u32 }
            } else {
                Texel::Sentinel
            },
    )
}

/// Two-channel buffer holding one [`Texel`] per pixel.
pub struct SeedBuffer {
    dims: Dimensions,
    texels: Vec<Texel>,
}

impl View for SeedBuffer {
    type V = Map<(int, int), Texel>;

    /// The texel of every pixel, keyed by `(x, y)`.
    closed spec fn view(&self) -> Map<(int, int), Texel> {
        Map::new(
            |p: (int, int)| self.dims.spec_contains(p.0, p.1),
            |p: (int, int)| self.texels@[self.dims.spec_index(p.0, p.1)],
        )
    }
}

impl SeedBuffer {
    /// The buffer holds one texel per pixel, and every coordinate it stores
    /// names one of its pixels.
    pub closed spec fn wf(self) -> bool {
        &&& self.texels@.len() == self.dims.spec_pixel_count()
        &&& self.dims.spec_pixel_count() <= usize::MAX
        &&& self.dims.spec_encodable()
        &&& forall|i: int|
            0 <= i < self.texels@.len() ==> (#[trigger] self.texels@[i] matches Texel::Seed { x, y }
                ==> self.dims.spec_contains(x as int, y as int))
    }

    /// The size of the buffer.
    pub closed spec fn dims(self) -> Dimensions {
        self.dims
    }

    /// The texel stored for pixel `(x, y)`; meaningful inside the bounds.
    pub open spec fn texel(self, x: int, y: int) -> Texel {
        self@[(x, y)]
    }

    /// A well-formed buffer holds a valid field of addressable size.
    pub proof fn lemma_view_valid(self)
        requires
            self.wf(),
        ensures
            field_valid(self.dims(), self@),
            self.dims().spec_encodable(),
            self.dims().spec_pixel_count() <= usize::MAX,
    {
        assert forall|p: (int, int)| self.dims.spec_contains(p.0, p.1) implies (
        #[trigger] self@[p] matches Texel::Seed { x, y } ==> self.dims.spec_contains(
            x as int,
            y as int,
        )) by {
            lemma_index_in_range(self.dims, p.0, p.1);
        }
    }

    /// A buffer of the given size with the sentinel in every texel, or `None`
    /// when the size is not encodable.
    pub fn new(dims: Dimensions) -> (buffer: Option<SeedBuffer>)
        ensures
            buffer is Some <==> dims.spec_encodable(),
            buffer matches Some(b) ==> {
                &&& b.wf()
                &&& b.dims() == dims
                &&& forall|x: int, y: int|
                    dims.spec_contains(x, y) ==> #[trigger] b.texel(x, y) == Texel::Sentinel
            },
    {
        if !dims.encodable() {
            return None;
        }
        proof {
            lemma_encodable_fits(dims);
        }
        let n: usize = dims.pixel_count() as usize;
        let mut texels: Vec<Texel> = Vec::new();
        while texels.len() < n
            invariant
                texels@.len() <= n,
                forall|i: int| 0 <= i < texels@.len() ==> texels@[i] == Texel::Sentinel,
            decreases n - texels@.len(),
        {
            texels.push(Texel::Sentinel);
        }
        let b = SeedBuffer { dims, texels };
        proof {
            assert forall|x: int, y: int| dims.spec_contains(x, y) implies #[trigger] b.texel(x, y)
                == Texel::Sentinel by {
                lemma_index_in_range(dims, x, y);
            }
        }
        Some(b)
    }

    /// The size of the buffer.
    pub fn dimensions(&self) -> (dims: Dimensions)
        ensures
            dims == self.dims(),
    {
        self.dims
    }

    /// The texel stored for pixel `(x, y)`, or the sentinel for a coordinate
    /// outside the buffer.
    pub fn get(&self, x: u32, y: u32) -> (texel: Texel)
        requires
            self.wf(),
        ensures
            self.dims().spec_contains(x as int, y as int) ==> texel == self.texel(
                x as int,
                y as int,
            ),
            !self.dims().spec_contains(x as int, y as int) ==> texel == Texel::Sentinel,
            texel matches Texel::Seed { x: sx, y: sy } ==> self.dims().spec_contains(
                sx as int,
                sy as int,
            ),
    {
        if self.dims.contains(x, y) {
            let i: usize = self.dims.index(x, y);
            self.texels[i]
        } else {
            Texel::Sentinel
        }
    }

    /// Reads the texel at `(x, y)`, clamping the coordinate to the edge of
    /// the buffer. A buffer without pixels yields the sentinel.
    pub fn sample(&self, x: i64, y: i64) -> (texel: Texel)
        requires
            self.wf(),
        ensures
            self.dims().spec_pixel_count() > 0 ==> texel == sample_clamped(
                self.dims(),
                self@,
                x as int,
                y as int,
            ),
            self.dims().spec_pixel_count() == 0 ==> texel == Texel::Sentinel,
            texel matches Texel::Seed { x: sx, y: sy } ==> self.dims().spec_contains(
                sx as int,
                sy as int,
            ),
    {
        let w: u32 = self.dims.width();
        let h: u32 = self.dims.height();
        if w == 0 || h == 0 {
            assert(self.dims.spec_pixel_count() == 0) by (nonlinear_arith)
                requires
                    self.dims.spec_width() == 0 || self.dims.spec_height() == 0,
            ;
            return Texel::Sentinel;
        }
        assert(self.dims.spec_pixel_count() > 0) by (nonlinear_arith)
            requires
                self.dims.spec_width() > 0,
                self.dims.spec_height() > 0,
        ;
        let cx: u32 = if x < 0 {
            0
        } else if x >= w as i64 {
            w - 1
        } else {
            x as u32
        };
        let cy: u32 = if y < 0 {
            0
        } else if y >= h as i64 {
            h - 1
        } else {
            y as u32
        };
        let i: usize = self.dims.index(cx, cy);
        self.texels[i]
    }

    /// Writes `texel` at pixel `(x, y)`. A write outside the buffer, or of a
    /// coordinate that names no pixel of the buffer, is dropped.
    pub fn store(&mut self, x: u32, y: u32, texel: Texel)
        requires
            old(self).wf(),
        ensures
            final(self).wf(),
            final(self).dims() == old(self).dims(),
            spec_storable(old(self).dims(), x as int, y as int, texel) ==> final(self)@ == old(
                self,
            )@.insert((x as int, y as int), texel),
            !spec_storable(old(self).dims(), x as int, y as int, texel) ==> final(self)@ == old(
                self,
            )@,
    {
        let valid = match texel {
            Texel::Sentinel => true,
            Texel::Seed { x: sx, y: sy } => self.dims.contains(sx, sy),
        };
        if valid && self.dims.contains(x, y) {
            let i: usize = self.dims.index(x, y);
            self.texels[i] = texel;
            proof {
                let dims = self.dims;
                assert forall|p: (int, int)| dims.spec_contains(p.0, p.1) implies #[trigger] self@[p]
                    == old(self)@.insert((x as int, y as int), texel)[p] by {
                    lemma_index_in_range(dims, p.0, p.1);
                    if dims.spec_index(p.0, p.1) == i as int {
                        lemma_index_injective(dims, p.0, p.1, x as int, y as int);
                    }
                }
                assert(self@ =~= old(self)@.insert((x as int, y as int), texel));
            }
        }
    }
}

/// Whether a write of `texel` at `(x, y)` is accepted by a buffer of size
/// `dims`.
pub open spec fn spec_storable(dims: Dimensions, x: int, y: int, texel: Texel) -> bool {
    &&& dims.spec_contains(x, y)
    &&& texel matches Texel::Seed { x: sx, y: sy } ==> dims.spec_contains(sx as int, sy as int)
}

/// Seed initialisation is a function of the coverage alone: two coverage
/// buffers of one size that agree on every pixel give the same seeds.
pub proof fn lemma_seed_init_deterministic(first: CoverageBuffer, second: CoverageBuffer)
    requires
        first.dims() == second.dims(),
        forall|x: int, y: int|
            first.dims().spec_contains(x, y) ==> first.covered(x, y) == second.covered(x, y),
    ensures
        seeded_field(first) == seeded_field(second),
{
    assert(seeded_field(first) =~= seeded_field(second));
}

/// The seed initialisation pass, writing into an existing buffer, which is
/// overwritten in full. A covered pixel stores its own coordinate and an
/// uncovered pixel the sentinel, so equal coverage always gives equal seeds.
/// A buffer of another size than the coverage buffer is refused and left as
/// it was.
pub fn seed_init_into(coverage: &CoverageBuffer, write: &mut SeedBuffer) -> (outcome: Result<
    (),
    OutlineError,
>)
    requires
        old(write).wf(),
    ensures
        final(write).wf(),
        final(write).dims() == old(write).dims(),
        outcome is Ok <==> old(write).dims() == coverage.dims(),
        outcome matches Err(e) ==> e == OutlineError::ResourceMismatch && *final(write) == *old(
            write,
        ),
        outcome is Ok ==> final(write)@ == seeded_field(*coverage),
{
    let dims = coverage.dimensions();
    if write.dimensions() != dims {
        return Err(OutlineError::ResourceMismatch);
    }
    let w: u32 = dims.width();
    let h: u32 = dims.height();
    let mut y: u32 = 0;
    while y < h
        invariant
            y <= h,
            w == dims.spec_width(),
            h == dims.spec_height(),
            write.wf(),
            dims == coverage.dims(),
            write.dims() == dims,
            forall|a: int, b: int|
                dims.spec_contains(a, b) && b < y ==> #[trigger] write@[(a, b)] == seeded_field(
                    *coverage,
                )[(a, b)],
        decreases h - y,
    {
        let mut x: u32 = 0;
        while x < w
            invariant
                y < h,
                x <= w,
                w == dims.spec_width(),
                h == dims.spec_height(),
                write.wf(),
                dims == coverage.dims(),
                write.dims() == dims,
                forall|a: int, b: int|
                    dims.spec_contains(a, b) && (b < y || (b == y && a < x)) ==> #[trigger] write@[(
                        a,
                        b,
                    )] == seeded_field(*coverage)[(a, b)],
            decreases w - x,
        {
            let texel = if coverage.is_covered(x, y) {
                Texel::Seed { x, y }
            } else {
                Texel::Sentinel
            };
            write.store(x, y, texel);
            x = x + 1;
        }
        y = y + 1;
    }
    proof {
        write.lemma_view_valid();
        assert(write@ =~= seeded_field(*coverage));
    }
    Ok(())
}

/// The seed initialisation pass: turns coverage into the first seed buffer.
pub fn seed_init(coverage: &CoverageBuffer) -> (seeds: SeedBuffer)
    ensures
        seeds.wf(),
        seeds.dims() == coverage.dims(),
        seeds@ == seeded_field(*coverage),
{
    let dims = coverage.dimensions();
    match SeedBuffer::new(dims) {
        Some(mut seeds) => {
            match seed_init_into(coverage, &mut seeds) {
                Ok(()) => {},
                Err(_) => vstd::pervasive::unreached(),
            }
            seeds
        },
        None => vstd::pervasive::unreached(),
    }
}

} // verus!
