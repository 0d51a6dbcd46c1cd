//! The colour target that the composite pass blends into.

use crate::dimensions::{
    lemma_encodable_fits, lemma_index_in_range, lemma_index_injective, Dimensions,
};
use vstd::prelude::*;

verus! {

/// A colour with eight bits per channel.
#[derive(Clone, Copy, Debug, PartialEq, Eq, Structural)]
pub struct Rgba8 {
    pub r: u8,
    pub g: u8,
    pub b: u8,
    pub a: u8,
}

/// A colour image that the pipeline does not own: the composite pass loads
/// its content and blends the outline over it.
pub struct ColorTarget {
    dims: Dimensions,
    pixels: Vec<Rgba8>,
}

impl View for ColorTarget {
    type V = Map<(int, int), Rgba8>;

    /// The colour of every pixel, keyed by `(x, y)`.
    closed spec fn view(&self) -> Map<(int, int), Rgba8> {
        Map::new(
            |p: (int, int)| self.dims.spec_contains(p.0, p.1),
            |p: (int, int)| self.pixels@[self.dims.spec_index(p.0, p.1)],
        )
    }
}

impl ColorTarget {
    /// The image holds one colour per pixel of an encodable size.
    #[verifier::type_invariant]
    spec fn well_formed(self) -> bool {
        &&& self.pixels@.len() == self.dims.spec_pixel_count()
        &&& self.dims.spec_pixel_count() <= usize::MAX
        &&& self.dims.spec_encodable()
    }

    /// The size of the image.
    pub closed spec fn dims(self) -> Dimensions {
        self.dims
    }

    /// The colour of pixel `(x, y)`; meaningful inside the bounds.
    pub open spec fn pixel(self, x: int, y: int) -> Rgba8 {
        self@[(x, y)]
    }

    /// An image of the given size filled with `fill`, or `None` when that
    /// size is not encodable.
    pub fn new(dims: Dimensions, fill: Rgba8) -> (target: Option<ColorTarget>)
        ensures
            target is Some <==> dims.spec_encodable(),
            target matches Some(t) ==> {
                &&& t.dims() == dims
                &&& forall|x: int, y: int| dims.spec_contains(x, y) ==> #[trigger] t.pixel(x, y) == fill
            },
    {
        if !dims.encodable() {
            return None;
        }
        proof {
            lemma_encodable_fits(dims);
        }
        let n: usize = dims.pixel_count() as usize;
        let mut pixels: Vec<Rgba8> = Vec::new();
        while pixels.len() < n
            invariant
                pixels@.len() <= n,
                forall|i: int| 0 <= i < pixels@.len() ==> pixels@[i] == fill,
            decreases n - pixels@.len(),
        {
            pixels.push(fill);
        }
        let t = ColorTarget { dims, pixels };
        proof {
            assert forall|x: int, y: int| dims.spec_contains(x, y) implies #[trigger] t.pixel(x, y)
                == fill by {
                lemma_index_in_range(dims, x, y);
            }
        }
        Some(t)
    }

    /// The size of the image.
    pub fn dimensions(&self) -> (dims: Dimensions)
        ensures
            dims == self.dims(),
            dims.spec_encodable(),
            dims.spec_pixel_count() <= usize::MAX,
            self@.dom() =~= Set::new(|p: (int, int)| dims.spec_contains(p.0, p.1)),
    {
        proof {
            use_type_invariant(self);
        }
        self.dims
    }

    /// The colour of pixel `(x, y)`, or `None` outside the image.
    pub fn get(&self, x: u32, y: u32) -> (color: Option<Rgba8>)
        ensures
            color is Some <==> self.dims().spec_contains(x as int, y as int),
            color matches Some(c) ==> c == self.pixel(x as int, y as int),
    {
        proof {
            use_type_invariant(self);
        }
        if self.dims.contains(x, y) {
            let i: usize = self.dims.index(x, y);
            Some(self.pixels[i])
        } else {
            None
        }
    }

    /// Sets the colour of pixel `(x, y)`. A write outside the image is
    /// dropped.
    pub fn put(&mut self, x: u32, y: u32, color: Rgba8)
        ensures
            final(self).dims() == old(self).dims(),
            old(self).dims().spec_contains(x as int, y as int) ==> final(self)@ == old(self)@.insert(
                (x as int, y as int),
                color,
            ),
            !old(self).dims().spec_contains(x as int, y as int) ==> final(self)@ == old(self)@,
    {
        proof {
            use_type_invariant(&*self);
        }
        if self.dims.contains(x, y) {
            let i: usize = self.dims.index(x, y);
            self.pixels[i] = color;
            proof {
                let dims = self.dims;
                assert forall|p: (int, int)| dims.spec_contains(p.0, p.1) implies #[trigger] self@[p]
                    == old(self)@.insert((x as int, y as int), color)[p] by {
                    lemma_index_in_range(dims, p.0, p.1);
                    if dims.spec_index(p.0, p.1) == i as int {
                        lemma_index_injective(dims, p.0, p.1, x as int, y as int);
                    }
                }
                assert(self@ =~= old(self)@.insert((x as int, y as int), color));
            }
        }
    }
}

} // verus!
