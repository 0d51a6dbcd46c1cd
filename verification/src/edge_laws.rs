//! The outline of a straight covered edge: the flood is exact there, and
//! the outline has the style's width.

use crate::coverage::CoverageBuffer;
use crate::dimensions::{lemma_extent_bound, Dimensions};
use crate::flood_laws::{
    lemma_axis_step, lemma_best_candidate, lemma_flood_step_sound, lemma_step_divides_span,
    on_grid, seeds_within, texel_dist2,
};
use crate::jfa::{best_candidate, candidate, flood, flood_step, offset_x, offset_y, spec_dist2};
use crate::outline::{spec_fixed_distance, spec_opacity, spec_opacity_at};
use crate::outline_laws::{
    lemma_fixed_distance_exact, lemma_opacity_full_inside, lemma_opacity_zero_outside,
};
use crate::seed::{seeded_field, Texel};
use crate::steps::{lemma_first_step, lemma_step_sequence_valid, spec_step_count, spec_step_sequence};
use vstd::arithmetic::power2::{lemma2_to64, lemma_pow2_pos, lemma_pow2_unfold, pow2};
use vstd::prelude::*;

verus! {

/// Distance of `x` from the column `c`.
pub open spec fn column_distance(x: int, c: int) -> int {
    if x >= c {
        x - c
    } else {
        c - x
    }
}

/// Every pixel whose horizontal offset from the column `c` lies on the grid
/// of spacing `grid`, out to `span - grid`, holds the pixel of the column
/// that is in its own row.
pub open spec fn row_reached(
    dims: Dimensions,
    field: Map<(int, int), Texel>,
    c: int,
    grid: int,
    span: int,
) -> bool {
    forall|p: (int, int)|
        dims.spec_contains(p.0, p.1) && on_grid(p.0 - c, grid, span) ==> #[trigger] field[p] == (
        Texel::Seed { x: c as u32, y: p.1 as u32 })
}

/// With seeds in the column `c` only, a pass at distance `step` carries
/// each row's seed from the grid of spacing `2 * step` to the grid of
/// spacing `step`: the seed in a pixel's own row is nearer than any other.
pub proof fn lemma_row_step(
    dims: Dimensions,
    field: Map<(int, int), Texel>,
    c: int,
    step: int,
    span: int,
)
    requires
        0 <= c < dims.spec_width(),
        seeds_within(dims, field, |x: int, y: int| x == c),
        row_reached(dims, field, c, 2 * step, span),
        step >= 1,
        span % (2 * step) == 0,
    ensures
        seeds_within(dims, flood_step(dims, field, step), |x: int, y: int| x == c),
        row_reached(dims, flood_step(dims, field, step), c, step, span),
{
    let in_column = |x: int, y: int| x == c;
    lemma_flood_step_sound(dims, field, step, in_column);
    lemma_extent_bound(dims);
    let after = flood_step(dims, field, step);
    assert forall|p: (int, int)|
        dims.spec_contains(p.0, p.1) && on_grid(p.0 - c, step, span) implies #[trigger] after[p]
        == (Texel::Seed { x: c as u32, y: p.1 as u32 }) by {
        let ox: int = lemma_axis_step(p.0 - c, step, span);
        let k: int = 3 + (ox + 1);
        assert(offset_x(k) == ox && offset_y(k) == 0);
        assert(ox * step == (if ox == 0 {
            0
        } else if ox == 1 {
            step
        } else {
            -step
        })) by (nonlinear_arith)
            requires
                -1 <= ox <= 1,
        ;
        assert(0 * step == 0);
        let qx: int = p.0 + ox * step;
        assert(dims.spec_contains(qx, p.1));
        assert(qx - c == (p.0 - c) + ox * step);
        let own = Texel::Seed { x: c as u32, y: p.1 as u32 };
        assert(field[(qx, p.1)] == own);
        assert(candidate(dims, field, p.0, p.1, step, k) == own);
        lemma_best_candidate(dims, field, p.0, p.1, step, 9);
        let kept = best_candidate(dims, field, p.0, p.1, step, 9);
        assert(after[p] == kept);
        assert(kept is Seed);
        assert(in_column(kept->x as int, kept->y as int));
        assert(texel_dist2(p.0, p.1, kept) <= texel_dist2(p.0, p.1, own));
        let dx: int = p.0 - c;
        let dy: int = p.1 - kept->y as int;
        assert(dy == 0) by (nonlinear_arith)
            requires
                dx * dx + dy * dy <= dx * dx + 0 * 0,
        ;
    }
}

/// After the first `i` passes of the flood over a field with seeds in the
/// column `c` only, one in each row, each row's seed has reached the grid
/// whose spacing is the jump distance of the last of them.
pub proof fn lemma_row_prefix(dims: Dimensions, field: Map<(int, int), Texel>, c: int, i: nat)
    requires
        0 <= c < dims.spec_width(),
        seeds_within(dims, field, |x: int, y: int| x == c),
        forall|y: int|
            0 <= y < dims.spec_height() ==> #[trigger] field[(c, y)] == (Texel::Seed {
                x: c as u32,
                y: y as u32,
            }),
        i <= spec_step_count(dims.spec_max_extent()),
    ensures
        seeds_within(
            dims,
            flood(dims, field, spec_step_sequence(dims.spec_max_extent()).take(i as int)),
            |x: int, y: int| x == c,
        ),
        row_reached(
            dims,
            flood(dims, field, spec_step_sequence(dims.spec_max_extent()).take(i as int)),
            c,
            pow2((spec_step_count(dims.spec_max_extent()) - i) as nat) as int,
            pow2(spec_step_count(dims.spec_max_extent())) as int,
        ),
    decreases i,
{
    let extent: nat = dims.spec_max_extent();
    let n: nat = spec_step_count(extent);
    let steps = spec_step_sequence(extent);
    lemma_extent_bound(dims);
    let span: int = pow2(n) as int;
    lemma_pow2_pos(n);
    if i == 0 {
        assert(steps.take(0) =~= Seq::<u32>::empty());
        assert(flood(dims, field, steps.take(0)) == field);
        assert forall|p: (int, int)|
            dims.spec_contains(p.0, p.1) && on_grid(p.0 - c, span, span) implies #[trigger] field[p]
            == (Texel::Seed { x: c as u32, y: p.1 as u32 }) by {
            assert(p.0 == c);
            assert(field[(c, p.1)] == (Texel::Seed { x: c as u32, y: p.1 as u32 }));
        }
    } else {
        let j: nat = (i - 1) as nat;
        lemma_row_prefix(dims, field, c, j);
        let before = flood(dims, field, steps.take(j as int));
        assert(steps.take(i as int).drop_last() =~= steps.take(j as int));
        assert(steps.take(i as int).last() == steps[j as int]);
        let step: int = steps[j as int] as int;
        lemma_step_divides_span(extent, j);
        assert(flood(dims, field, steps.take(i as int)) == flood_step(dims, before, step));
        lemma_row_step(dims, before, c, step, span);
    }
}

/// The flood is exact at a straight edge: when the covered pixels are those
/// of the column `c`, every pixel ends up with the pixel of the column in
/// its own row, which is its nearest covered pixel.
pub proof fn lemma_straight_edge_exact(coverage: CoverageBuffer, c: int)
    requires
        0 <= c < coverage.dims().spec_width(),
        forall|a: int, b: int|
            coverage.dims().spec_contains(a, b) ==> (coverage.covered(a, b) <==> a == c),
    ensures
        forall|p: (int, int)|
            coverage.dims().spec_contains(p.0, p.1) ==> #[trigger] flood(
                coverage.dims(),
                seeded_field(coverage),
                spec_step_sequence(coverage.dims().spec_max_extent()),
            )[p] == (Texel::Seed { x: c as u32, y: p.1 as u32 }),
{
    let dims = coverage.dims();
    let field = seeded_field(coverage);
    let extent: nat = dims.spec_max_extent();
    let n: nat = spec_step_count(extent);
    let steps = spec_step_sequence(extent);
    lemma_extent_bound(dims);
    lemma_step_sequence_valid(extent);
    lemma_first_step(extent);
    assert(seeds_within(dims, field, |x: int, y: int| x == c));
    assert forall|y: int| 0 <= y < dims.spec_height() implies #[trigger] field[(c, y)] == (
    Texel::Seed { x: c as u32, y: y as u32 }) by {
        assert(dims.spec_contains(c, y));
    }
    lemma_row_prefix(dims, field, c, n);
    assert(steps.take(n as int) =~= steps);
    lemma2_to64();
    lemma_pow2_unfold(n);
    let span: int = pow2(n) as int;
    assert(span >= extent);
    let result = flood(dims, field, steps);
    assert forall|p: (int, int)| dims.spec_contains(p.0, p.1) implies #[trigger] result[p] == (
    Texel::Seed { x: c as u32, y: p.1 as u32 }) by {
        assert(on_grid(p.0 - c, 1, span));
    }
}

/// Width boundary at a straight edge: when the covered pixels are those of
/// the column `c`, the opacity at a pixel is that of its horizontal
/// distance to the column. It is full where that distance is at least half
/// a band inside the style width and zero where it is at least half a band
/// beyond.
pub proof fn lemma_straight_edge_outline(coverage: CoverageBuffer, c: int, weight: int, x: int, y: int)
    requires
        0 <= c < coverage.dims().spec_width(),
        forall|a: int, b: int|
            coverage.dims().spec_contains(a, b) ==> (coverage.covered(a, b) <==> a == c),
        coverage.dims().spec_contains(x, y),
    ensures
        spec_opacity(
            weight,
            x,
            y,
            flood(
                coverage.dims(),
                seeded_field(coverage),
                spec_step_sequence(coverage.dims().spec_max_extent()),
            )[(x, y)],
        ) == spec_opacity_at(weight, 256 * column_distance(x, c)),
        256 * column_distance(x, c) + 128 <= weight ==> spec_opacity_at(
            weight,
            256 * column_distance(x, c),
        ) == 255,
        256 * column_distance(x, c) >= weight + 128 ==> spec_opacity_at(
            weight,
            256 * column_distance(x, c),
        ) == 0,
{
    let dims = coverage.dims();
    lemma_extent_bound(dims);
    lemma_straight_edge_exact(coverage, c);
    let texel = flood(dims, seeded_field(coverage), spec_step_sequence(dims.spec_max_extent()))[(
        x,
        y,
    )];
    assert(texel == (Texel::Seed { x: c as u32, y: y as u32 }));
    let d: int = column_distance(x, c);
    assert(spec_dist2(x, y, c, y) == d * d) by (nonlinear_arith)
        requires
            d == x - c || d == c - x,
    ;
    lemma_fixed_distance_exact(d);
    assert(spec_fixed_distance(d * d) == 256 * d);
    if 256 * d + 128 <= weight {
        lemma_opacity_full_inside(weight, 256 * d);
    }
    if 256 * d >= weight + 128 {
        lemma_opacity_zero_outside(weight, 256 * d);
    }
}

} // verus!
