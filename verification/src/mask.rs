//! The mask pass: marks the pixels that the outlined meshes touch.

use crate::coverage::{CoverageBuffer, FULLY_COVERED};
use vstd::prelude::*;

verus! {

/// A pixel that the rasteriser reports as touched by an outlined mesh.
#[derive(Clone, Copy, Debug, PartialEq, Eq, Structural)]
pub struct Fragment {
    pub x: u32,
    pub y: u32,
}

/// Whether one of the fragments lies on pixel `(x, y)`.
pub open spec fn touches(fragments: Seq<Fragment>, x: int, y: int) -> bool {
    exists|i: int| 0 <= i < fragments.len() && (#[trigger] fragments[i]).x == x && fragments[i].y == y
}

/// The mask pass: clears the coverage buffer and then marks every pixel that
/// a fragment touches as fully covered. A pixel is covered when any fragment
/// lies on it, however many do and in whatever order; fragments outside the
/// buffer are clipped.
pub fn mask_pass(coverage: &mut CoverageBuffer, fragments: &Vec<Fragment>)
    ensures
        final(coverage).dims() == old(coverage).dims(),
        forall|x: int, y: int|
            old(coverage).dims().spec_contains(x, y) ==> #[trigger] final(coverage).value(x, y)
                == (if touches(fragments@, x, y) {
                FULLY_COVERED
            } else {
                0
            }),
{
    coverage.clear();
    let ghost dims = coverage.dims();
    let mut i: usize = 0;
    while i < fragments.len()
        invariant
            i <= fragments@.len(),
            coverage.dims() == dims,
            forall|x: int, y: int|
                dims.spec_contains(x, y) ==> #[trigger] coverage.value(x, y) == (if touches(
                    fragments@.take(i as int),
                    x,
                    y,
                ) {
                    FULLY_COVERED
                } else {
                    0
                }),
        decreases fragments@.len() - i,
    {
        let fragment = fragments[i];
        let ghost before = *coverage;
        coverage.cover(fragment.x, fragment.y);
        proof {
            let seen = fragments@.take(i as int);
            let next = fragments@.take(i + 1);
            assert forall|x: int, y: int| dims.spec_contains(x, y) implies #[trigger] coverage.value(
                x,
                y,
            ) == (if touches(next, x, y) {
                FULLY_COVERED
            } else {
                0
            }) by {
                assert(before.value(x, y) == (if touches(seen, x, y) {
                    FULLY_COVERED
                } else {
                    0
                }));
                if touches(seen, x, y) {
                    let k = choose|k: int|
                        0 <= k < seen.len() && (#[trigger] seen[k]).x == x && seen[k].y == y;
                    assert(next[k] == seen[k]);
                }
                if x == fragment.x && y == fragment.y {
                    assert(next[i as int] == fragment);
                }
                if touches(next, x, y) {
                    let k = choose|k: int|
                        0 <= k < next.len() && (#[trigger] next[k]).x == x && next[k].y == y;
                    if k < i {
                        assert(seen[k] == next[k]);
                    }
                }
            }
        }
        i = i + 1;
    }
    proof {
        assert(fragments@.take(i as int) =~= fragments@);
    }
}

} // verus!
