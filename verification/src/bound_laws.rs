//! How far the seed that the flood leaves in a texel can be from the
//! pixel's nearest covered pixel, for every mask.

use crate::coverage::CoverageBuffer;
use crate::dimensions::{lemma_extent_bound, Dimensions};
use crate::edge_laws::column_distance;
use crate::flood_laws::{
    lemma_axis_step, lemma_best_candidate, lemma_flooded_seeds_are_covered, lemma_step_divides_span,
    on_grid, texel_dist2,
};
use crate::jfa::{best_candidate, candidate, flood, flood_step, offset_x, offset_y, spec_dist2};
use crate::seed::{seeded_field, Texel};
use crate::steps::{lemma_first_step, lemma_step_sequence_valid, spec_step_count, spec_step_sequence};
use vstd::arithmetic::power2::{lemma2_to64, lemma_pow2_pos, lemma_pow2_unfold, pow2};
use vstd::prelude::*;

verus! {

/// Distance between `(x, y)` and `(tx, ty)` along the axes: the sum of the
/// horizontal and the vertical distance.
pub open spec fn taxicab(x: int, y: int, tx: int, ty: int) -> int {
    column_distance(x, tx) + column_distance(y, ty)
}

/// Whether the texel holds, for pixel `(x, y)`, a seed that is no farther
/// from it than `(tx, ty)` is along the axes.
pub open spec fn within_taxicab(x: int, y: int, texel: Texel, tx: int, ty: int) -> bool {
    texel is Seed && texel_dist2(x, y, texel) <= taxicab(x, y, tx, ty) * taxicab(x, y, tx, ty)
}

/// Every pixel on the grid of spacing `grid` around `(tx, ty)`, out to
/// `span - grid` along both axes, holds a seed that is no farther from it
/// than `(tx, ty)` is along the axes.
pub open spec fn bounded(
    dims: Dimensions,
    field: Map<(int, int), Texel>,
    tx: int,
    ty: int,
    grid: int,
    span: int,
) -> bool {
    forall|p: (int, int)|
        dims.spec_contains(p.0, p.1) && on_grid(p.0 - tx, grid, span) && on_grid(
            p.1 - ty,
            grid,
            span,
        ) ==> within_taxicab(p.0, p.1, #[trigger] field[p], tx, ty)
}

/// The triangle inequality for squared lengths: a vector of length at most
/// `a` added to one of length at most `b` has length at most `a + b`.
pub proof fn lemma_triangle(vx: int, vy: int, wx: int, wy: int, a: int, b: int)
    requires
        0 <= a,
        0 <= b,
        vx * vx + vy * vy <= a * a,
        wx * wx + wy * wy <= b * b,
    ensures
        (vx + wx) * (vx + wx) + (vy + wy) * (vy + wy) <= (a + b) * (a + b),
{
    let dot: int = vx * wx + vy * wy;
    let cross: int = vx * wy - vy * wx;
    let v2: int = vx * vx + vy * vy;
    let w2: int = wx * wx + wy * wy;
    let xx: int = vx * wx;
    let yy: int = vy * wy;
    let xy: int = vx * wy;
    let yx: int = vy * wx;
    assert(xx * yy == xy * yx) by (nonlinear_arith)
        requires
            xx == vx * wx,
            yy == vy * wy,
            xy == vx * wy,
            yx == vy * wx,
    ;
    assert((vx * vx) * (wx * wx) == xx * xx) by (nonlinear_arith)
        requires
            xx == vx * wx,
    ;
    assert((vy * vy) * (wy * wy) == yy * yy) by (nonlinear_arith)
        requires
            yy == vy * wy,
    ;
    assert((vx * vx) * (wy * wy) == xy * xy) by (nonlinear_arith)
        requires
            xy == vx * wy,
    ;
    assert((vy * vy) * (wx * wx) == yx * yx) by (nonlinear_arith)
        requires
            yx == vy * wx,
    ;
    let px: int = vx * vx;
    let py: int = vy * vy;
    let qx: int = wx * wx;
    let qy: int = wy * wy;
    assert((px + py) * (qx + qy) == px * qx + px * qy + py * qx + py * qy) by (nonlinear_arith);
    assert((xx + yy) * (xx + yy) == xx * xx + 2 * (xx * yy) + yy * yy) by (nonlinear_arith);
    assert((xy - yx) * (xy - yx) == xy * xy - 2 * (xy * yx) + yx * yx) by (nonlinear_arith);
    assert(dot * dot + cross * cross == v2 * w2);
    assert(cross * cross >= 0) by (nonlinear_arith);
    assert(v2 >= 0 && w2 >= 0) by (nonlinear_arith)
        requires
            v2 == vx * vx + vy * vy,
            w2 == wx * wx + wy * wy,
    ;
    assert(v2 * w2 <= (a * a) * (b * b)) by (nonlinear_arith)
        requires
            0 <= v2 <= a * a,
            0 <= w2 <= b * b,
    ;
    assert((a * a) * (b * b) == (a * b) * (a * b)) by (nonlinear_arith);
    assert(dot <= a * b) by (nonlinear_arith)
        requires
            dot * dot <= (a * b) * (a * b),
            0 <= a,
            0 <= b,
    ;
    assert((vx + wx) * (vx + wx) + (vy + wy) * (vy + wy) == v2 + w2 + 2 * dot) by (nonlinear_arith)
        requires
            dot == vx * wx + vy * wy,
            v2 == vx * vx + vy * vy,
            w2 == wx * wx + wy * wy,
    ;
    assert((a + b) * (a + b) == a * a + b * b + 2 * (a * b)) by (nonlinear_arith);
}

/// A pass at distance `step` carries the bound from the grid of spacing
/// `2 * step` around `(tx, ty)` to the grid of spacing `step`.
pub proof fn lemma_bound_step(
    dims: Dimensions,
    field: Map<(int, int), Texel>,
    tx: int,
    ty: int,
    step: int,
    span: int,
)
    requires
        dims.spec_contains(tx, ty),
        bounded(dims, field, tx, ty, 2 * step, span),
        step >= 1,
        span % (2 * step) == 0,
    ensures
        bounded(dims, flood_step(dims, field, step), tx, ty, step, span),
{
    lemma_extent_bound(dims);
    let after = flood_step(dims, field, step);
    assert forall|p: (int, int)|
        dims.spec_contains(p.0, p.1) && on_grid(p.0 - tx, step, span) && on_grid(
            p.1 - ty,
            step,
            span,
        ) implies within_taxicab(p.0, p.1, #[trigger] after[p], tx, ty) by {
        let ox: int = lemma_axis_step(p.0 - tx, step, span);
        let oy: int = lemma_axis_step(p.1 - ty, step, span);
        let k: int = (oy + 1) * 3 + (ox + 1);
        assert(offset_x(k) == ox && offset_y(k) == oy);
        assert(ox * step == (if ox == 0 {
            0
        } else if ox == 1 {
            step
        } else {
            -step
        })) by (nonlinear_arith)
            requires
                -1 <= ox <= 1,
        ;
        assert(oy * step == (if oy == 0 {
            0
        } else if oy == 1 {
            step
        } else {
            -step
        })) by (nonlinear_arith)
            requires
                -1 <= oy <= 1,
        ;
        let qx: int = p.0 + ox * step;
        let qy: int = p.1 + oy * step;
        assert(dims.spec_contains(qx, qy));
        assert(qx - tx == (p.0 - tx) + ox * step);
        assert(qy - ty == (p.1 - ty) + oy * step);
        let near = field[(qx, qy)];
        assert(within_taxicab(qx, qy, near, tx, ty));
        assert(candidate(dims, field, p.0, p.1, step, k) == near);
        let jump: int = column_distance(p.0, qx) + column_distance(p.1, qy);
        let rest: int = taxicab(qx, qy, tx, ty);
        assert(taxicab(p.0, p.1, tx, ty) == jump + rest);
        let vx: int = p.0 - qx;
        let vy: int = p.1 - qy;
        assert(vx * vx + vy * vy <= jump * jump) by (nonlinear_arith)
            requires
                jump == column_distance(p.0, qx) + column_distance(p.1, qy),
                column_distance(p.0, qx) == vx || column_distance(p.0, qx) == -vx,
                column_distance(p.1, qy) == vy || column_distance(p.1, qy) == -vy,
                column_distance(p.0, qx) >= 0,
                column_distance(p.1, qy) >= 0,
        ;
        let wx: int = qx - near->x as int;
        let wy: int = qy - near->y as int;
        lemma_triangle(vx, vy, wx, wy, jump, rest);
        assert(vx + wx == p.0 - near->x as int);
        assert(vy + wy == p.1 - near->y as int);
        assert(texel_dist2(p.0, p.1, near) <= (jump + rest) * (jump + rest));
        lemma_best_candidate(dims, field, p.0, p.1, step, 9);
        let kept = best_candidate(dims, field, p.0, p.1, step, 9);
        assert(after[p] == kept);
        assert(kept is Seed);
        assert(texel_dist2(p.0, p.1, kept) <= texel_dist2(p.0, p.1, near));
    }
}

/// After the first `i` passes of the flood over a field that holds at
/// `(tx, ty)` that pixel's own coordinate, the bound holds on the grid
/// around `(tx, ty)` whose spacing is the jump distance of the last of
/// them.
pub proof fn lemma_bound_prefix(
    dims: Dimensions,
    field: Map<(int, int), Texel>,
    tx: int,
    ty: int,
    i: nat,
)
    requires
        dims.spec_contains(tx, ty),
        field[(tx, ty)] == (Texel::Seed { x: tx as u32, y: ty as u32 }),
        i <= spec_step_count(dims.spec_max_extent()),
    ensures
        bounded(
            dims,
            flood(dims, field, spec_step_sequence(dims.spec_max_extent()).take(i as int)),
            tx,
            ty,
            pow2((spec_step_count(dims.spec_max_extent()) - i) as nat) as int,
            pow2(spec_step_count(dims.spec_max_extent())) as int,
        ),
    decreases i,
{
    let extent: nat = dims.spec_max_extent();
    let n: nat = spec_step_count(extent);
    let steps = spec_step_sequence(extent);
    lemma_extent_bound(dims);
    let span: int = pow2(n) as int;
    lemma_pow2_pos(n);
    if i == 0 {
        assert(steps.take(0) =~= Seq::<u32>::empty());
        assert(flood(dims, field, steps.take(0)) == field);
        assert forall|p: (int, int)|
            dims.spec_contains(p.0, p.1) && on_grid(p.0 - tx, span, span) && on_grid(
                p.1 - ty,
                span,
                span,
            ) implies within_taxicab(p.0, p.1, #[trigger] field[p], tx, ty) by {
            assert(p == (tx, ty));
            assert(spec_dist2(tx, ty, tx, ty) == 0) by (nonlinear_arith);
            assert(taxicab(tx, ty, tx, ty) == 0);
        }
    } else {
        let j: nat = (i - 1) as nat;
        lemma_bound_prefix(dims, field, tx, ty, j);
        let before = flood(dims, field, steps.take(j as int));
        assert(steps.take(i as int).drop_last() =~= steps.take(j as int));
        assert(steps.take(i as int).last() == steps[j as int]);
        let step: int = steps[j as int] as int;
        lemma_step_divides_span(extent, j);
        assert(flood(dims, field, steps.take(i as int)) == flood_step(dims, before, step));
        lemma_bound_step(dims, before, tx, ty, step, span);
    }
}

/// The approximation bound of the flood: for any mask and any covered pixel
/// `(tx, ty)`, every pixel ends up with a covered pixel that is no farther
/// from it than `(tx, ty)` is along the axes. The squared distance read
/// back is therefore at least the true squared distance to the nearest
/// covered pixel and at most twice it.
pub proof fn lemma_flood_within_taxicab(coverage: CoverageBuffer, tx: int, ty: int, x: int, y: int)
    requires
        coverage.dims().spec_contains(tx, ty),
        coverage.covered(tx, ty),
        coverage.dims().spec_contains(x, y),
    ensures
        flood(
            coverage.dims(),
            seeded_field(coverage),
            spec_step_sequence(coverage.dims().spec_max_extent()),
        )[(x, y)] matches Texel::Seed { x: ux, y: uy } && {
            &&& coverage.dims().spec_contains(ux as int, uy as int)
            &&& coverage.covered(ux as int, uy as int)
            &&& spec_dist2(x, y, ux as int, uy as int) <= taxicab(x, y, tx, ty) * taxicab(
                x,
                y,
                tx,
                ty,
            )
            &&& spec_dist2(x, y, ux as int, uy as int) <= 2 * spec_dist2(x, y, tx, ty)
        },
{
    let dims = coverage.dims();
    let field = seeded_field(coverage);
    let extent: nat = dims.spec_max_extent();
    let n: nat = spec_step_count(extent);
    let steps = spec_step_sequence(extent);
    lemma_extent_bound(dims);
    lemma_step_sequence_valid(extent);
    lemma_first_step(extent);
    lemma_bound_prefix(dims, field, tx, ty, n);
    assert(steps.take(n as int) =~= steps);
    lemma2_to64();
    lemma_pow2_unfold(n);
    let span: int = pow2(n) as int;
    assert(span >= extent);
    let result = flood(dims, field, steps);
    let p = (x, y);
    assert(on_grid(p.0 - tx, 1, span));
    assert(on_grid(p.1 - ty, 1, span));
    assert(within_taxicab(p.0, p.1, result[p], tx, ty));
    lemma_flooded_seeds_are_covered(coverage, steps);
    let a: int = column_distance(x, tx);
    let b: int = column_distance(y, ty);
    assert((a + b) * (a + b) <= 2 * (a * a + b * b)) by (nonlinear_arith);
    assert(spec_dist2(x, y, tx, ty) == a * a + b * b) by (nonlinear_arith)
        requires
            a == x - tx || a == tx - x,
            b == y - ty || b == ty - y,
    ;
}

} // verus!
