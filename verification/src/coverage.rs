//! The coverage buffer written by the mask pass.

use crate::dimensions::{
    lemma_encodable_fits, lemma_index_in_range, lemma_index_injective, Dimensions,
};
use vstd::prelude::*;

verus! {

/// The value of a pixel that an outlined mesh covers in full.
pub const FULLY_COVERED: u8 = 255;

/// Single-channel buffer that records, per pixel, how much of it the
/// outlined meshes cover. Only a fully covered pixel counts as covered.
pub struct CoverageBuffer {
    dims: Dimensions,
    cells: Vec<u8>,
}

impl CoverageBuffer {
    /// The buffer holds one value per pixel of an encodable size.
    #[verifier::type_invariant]
    spec fn well_formed(self) -> bool {
        &&& self.cells@.len() == self.dims.spec_pixel_count()
        &&& self.dims.spec_pixel_count() <= usize::MAX
        &&& self.dims.spec_encodable()
    }

    /// The size of the buffer.
    pub closed spec fn dims(self) -> Dimensions {
        self.dims
    }

    /// The value stored for pixel `(x, y)`; meaningful inside the bounds.
    pub closed spec fn value(self, x: int, y: int) -> u8 {
        self.cells@[self.dims.spec_index(x, y)]
    }

    /// Whether pixel `(x, y)` is covered: its value equals
    /// [`FULLY_COVERED`]. Any smaller value, as a resolved multisample edge
    /// leaves it, counts as uncovered.
    pub open spec fn covered(self, x: int, y: int) -> bool {
        self.value(x, y) == FULLY_COVERED
    }

    /// Every pixel has the value zero.
    pub open spec fn is_blank(self) -> bool {
        forall|x: int, y: int| self.dims().spec_contains(x, y) ==> #[trigger] self.value(x, y) == 0
    }

    /// A buffer of the given size with every pixel at zero, or `None` when
    /// the size is not encodable.
    pub fn new(dims: Dimensions) -> (buffer: Option<CoverageBuffer>)
        ensures
            buffer is Some <==> dims.spec_encodable(),
            buffer matches Some(b) ==> b.dims() == dims && b.is_blank(),
    {
        if !dims.encodable() {
            return None;
        }
        proof {
            lemma_encodable_fits(dims);
        }
        let n: usize = dims.pixel_count() as usize;
        let mut cells: Vec<u8> = Vec::new();
        while cells.len() < n
            invariant
                cells@.len() <= n,
                forall|i: int| 0 <= i < cells@.len() ==> cells@[i] == 0,
            decreases n - cells@.len(),
        {
            cells.push(0);
        }
        let b = CoverageBuffer { dims, cells };
        proof {
            assert forall|x: int, y: int| b.dims().spec_contains(x, y) implies #[trigger] b.value(
                x,
                y,
            ) == 0 by {
                lemma_index_in_range(dims, x, y);
            }
        }
        Some(b)
    }

    /// The size of the buffer.
    pub fn dimensions(&self) -> (dims: Dimensions)
        ensures
            dims == self.dims(),
            dims.spec_encodable(),
            dims.spec_pixel_count() <= usize::MAX,
    {
        proof {
            use_type_invariant(self);
        }
        self.dims
    }

    /// The value stored for pixel `(x, y)`, or zero outside the buffer.
    pub fn value_at(&self, x: u32, y: u32) -> (value: u8)
        ensures
            value == (if self.dims().spec_contains(x as int, y as int) {
                self.value(x as int, y as int)
            } else {
                0
            }),
    {
        proof {
            use_type_invariant(self);
        }
        if self.dims.contains(x, y) {
            let i: usize = self.dims.index(x, y);
            self.cells[i]
        } else {
            0
        }
    }

    /// Whether pixel `(x, y)` lies inside the buffer and is covered.
    pub fn is_covered(&self, x: u32, y: u32) -> (hit: bool)
        ensures
            hit == (self.dims().spec_contains(x as int, y as int) && self.covered(
                x as int,
                y as int,
            )),
    {
        self.value_at(x, y) == FULLY_COVERED
    }

    /// Stores `value` for pixel `(x, y)`. Coordinates outside the buffer are
    /// clipped: they leave it unchanged.
    pub fn store(&mut self, x: u32, y: u32, value: u8)
        ensures
            final(self).dims() == old(self).dims(),
            forall|a: int, b: int|
                old(self).dims().spec_contains(a, b) ==> #[trigger] final(self).value(a, b) == (if a
                    == x && b == y {
                    value
                } else {
                    old(self).value(a, b)
                }),
    {
        proof {
            use_type_invariant(&*self);
        }
        if self.dims.contains(x, y) {
            let i: usize = self.dims.index(x, y);
            self.cells[i] = value;
            proof {
                let dims = self.dims;
                assert forall|a: int, b: int| dims.spec_contains(a, b) implies #[trigger] self.value(
                    a,
                    b,
                ) == (if a == x && b == y {
                    value
                } else {
                    old(self).value(a, b)
                }) by {
                    lemma_index_in_range(dims, a, b);
                    if dims.spec_index(a, b) == i as int {
                        lemma_index_injective(dims, a, b, x as int, y as int);
                    }
                }
            }
        }
    }

    /// Marks pixel `(x, y)` as fully covered. Coordinates outside the buffer
    /// are clipped: they leave it unchanged.
    pub fn cover(&mut self, x: u32, y: u32)
        ensures
            final(self).dims() == old(self).dims(),
            forall|a: int, b: int|
                old(self).dims().spec_contains(a, b) ==> #[trigger] final(self).value(a, b) == (if a
                    == x && b == y {
                    FULLY_COVERED
                } else {
                    old(self).value(a, b)
                }),
    {
        self.store(x, y, FULLY_COVERED);
    }

    /// Sets every pixel to zero.
    pub fn clear(&mut self)
        ensures
            final(self).dims() == old(self).dims(),
            final(self).is_blank(),
    {
        proof {
            use_type_invariant(&*self);
        }
        let n: usize = self.cells.len();
        let mut i: usize = 0;
        while i < n
            invariant
                i <= n,
                n == self.cells@.len(),
                self.dims == old(self).dims,
                self.cells@.len() == self.dims.spec_pixel_count(),
                self.dims.spec_pixel_count() <= usize::MAX,
                self.dims.spec_encodable(),
                forall|j: int| 0 <= j < i ==> self.cells@[j] == 0,
            decreases n - i,
        {
            self.cells[i] = 0;
            i = i + 1;
        }
        proof {
            let dims = self.dims;
            assert forall|x: int, y: int| dims.spec_contains(x, y) implies #[trigger] self.value(
                x,
                y,
            ) == 0 by {
                lemma_index_in_range(dims, x, y);
            }
        }
    }
}

} // verus!
