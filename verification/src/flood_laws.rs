//! What holds of the jump flood for every input.

use crate::dimensions::{lemma_extent_bound, Dimensions};
use crate::jfa::{best_candidate, candidate, closer, flood, flood_step, offset_x, offset_y, spec_dist2};
use crate::coverage::CoverageBuffer;
use crate::seed::{clamp_coord, seeded_field, Texel};
use crate::steps::{lemma_first_step, lemma_step_sequence_valid, spec_step_count, spec_step_sequence};
use vstd::arithmetic::div_mod::{lemma_fundamental_div_mod, lemma_mod_multiples_basic};
use vstd::arithmetic::power2::{lemma2_to64, lemma_pow2_adds, lemma_pow2_pos, lemma_pow2_unfold, pow2};
use vstd::prelude::*;

verus! {

/// Every texel of the field is the sentinel.
pub open spec fn all_sentinel(dims: Dimensions, field: Map<(int, int), Texel>) -> bool {
    forall|p: (int, int)| dims.spec_contains(p.0, p.1) ==> #[trigger] field[p] == Texel::Sentinel
}

/// Every coordinate stored in `field` satisfies `is_seed`.
pub open spec fn seeds_within(
    dims: Dimensions,
    field: Map<(int, int), Texel>,
    is_seed: spec_fn(int, int) -> bool,
) -> bool {
    forall|p: (int, int)|
        dims.spec_contains(p.0, p.1) ==> (#[trigger] field[p] matches Texel::Seed { x, y }
            ==> is_seed(x as int, y as int))
}

/// Distance from pixel `(x, y)` to what a texel stores, for a texel that
/// holds a coordinate.
pub open spec fn texel_dist2(x: int, y: int, texel: Texel) -> int {
    match texel {
        Texel::Sentinel => 0,
        Texel::Seed { x: sx, y: sy } => spec_dist2(x, y, sx as int, sy as int),
    }
}

/// A clamped read of a buffer that has pixels reads one of its pixels.
pub proof fn lemma_sample_in_bounds(dims: Dimensions, x: int, y: int)
    requires
        dims.spec_width() > 0,
        dims.spec_height() > 0,
    ensures
        dims.spec_contains(clamp_coord(x, dims.spec_width()), clamp_coord(y, dims.spec_height())),
{
}

/// What a pixel keeps after `n` samples: the sentinel exactly when all of
/// them were the sentinel; otherwise one of the sampled seeds, and none of
/// the sampled seeds is strictly closer.
pub proof fn lemma_best_candidate(
    dims: Dimensions,
    field: Map<(int, int), Texel>,
    x: int,
    y: int,
    step: int,
    n: nat,
)
    ensures
        best_candidate(dims, field, x, y, step, n) is Sentinel <==> (forall|k: int|
            0 <= k < n ==> #[trigger] candidate(dims, field, x, y, step, k) is Sentinel),
        best_candidate(dims, field, x, y, step, n) is Seed ==> (exists|k: int|
            0 <= k < n && #[trigger] candidate(dims, field, x, y, step, k) == best_candidate(
                dims,
                field,
                x,
                y,
                step,
                n,
            )),
        forall|k: int|
            0 <= k < n && (#[trigger] candidate(dims, field, x, y, step, k)) is Seed ==> texel_dist2(
                x,
                y,
                best_candidate(dims, field, x, y, step, n),
            ) <= texel_dist2(x, y, candidate(dims, field, x, y, step, k)),
    decreases n,
{
    if n > 0 {
        let m: nat = (n - 1) as nat;
        lemma_best_candidate(dims, field, x, y, step, m);
        let before = best_candidate(dims, field, x, y, step, m);
        let next = candidate(dims, field, x, y, step, n - 1);
        let after = best_candidate(dims, field, x, y, step, n);
        assert(after == closer(x, y, before, next));
        if after is Seed {
            if after == next {
                assert(candidate(dims, field, x, y, step, n - 1) == after);
            } else {
                let k = choose|k: int|
                    0 <= k < m && #[trigger] candidate(dims, field, x, y, step, k) == before;
                assert(candidate(dims, field, x, y, step, k) == after);
            }
        }
    }
}

/// A pass over a field without seeds leaves a field without seeds.
pub proof fn lemma_flood_step_keeps_empty(dims: Dimensions, field: Map<(int, int), Texel>, step: int)
    requires
        all_sentinel(dims, field),
    ensures
        all_sentinel(dims, flood_step(dims, field, step)),
{
    assert forall|p: (int, int)| dims.spec_contains(p.0, p.1) implies #[trigger] flood_step(
        dims,
        field,
        step,
    )[p] == Texel::Sentinel by {
        lemma_best_candidate(dims, field, p.0, p.1, step, 9);
        assert forall|k: int| 0 <= k < 9 implies #[trigger] candidate(
            dims,
            field,
            p.0,
            p.1,
            step,
            k,
        ) is Sentinel by {
            let sx: int = p.0 + offset_x(k) * step;
            let sy: int = p.1 + offset_y(k) * step;
            lemma_sample_in_bounds(dims, sx, sy);
            let q = (clamp_coord(sx, dims.spec_width()), clamp_coord(sy, dims.spec_height()));
            assert(field[q] == Texel::Sentinel);
        }
    }
}

/// An entirely uncovered buffer stays at the sentinel everywhere through
/// every sequence of passes.
pub proof fn lemma_flood_keeps_empty(dims: Dimensions, field: Map<(int, int), Texel>, steps: Seq<u32>)
    requires
        all_sentinel(dims, field),
    ensures
        all_sentinel(dims, flood(dims, field, steps)),
    decreases steps.len(),
{
    if steps.len() > 0 {
        lemma_flood_keeps_empty(dims, field, steps.drop_last());
        lemma_flood_step_keeps_empty(dims, flood(dims, field, steps.drop_last()), steps.last() as int);
    }
}

/// A pass invents no seed: every coordinate it stores was stored somewhere
/// in the field it read.
pub proof fn lemma_flood_step_sound(
    dims: Dimensions,
    field: Map<(int, int), Texel>,
    step: int,
    is_seed: spec_fn(int, int) -> bool,
)
    requires
        seeds_within(dims, field, is_seed),
    ensures
        seeds_within(dims, flood_step(dims, field, step), is_seed),
{
    assert forall|p: (int, int)| dims.spec_contains(p.0, p.1) implies (#[trigger] flood_step(
        dims,
        field,
        step,
    )[p] matches Texel::Seed { x, y } ==> is_seed(x as int, y as int)) by {
        let kept = flood_step(dims, field, step)[p];
        lemma_best_candidate(dims, field, p.0, p.1, step, 9);
        if kept is Seed {
            let k = choose|k: int|
                0 <= k < 9 && #[trigger] candidate(dims, field, p.0, p.1, step, k) == kept;
            let sx: int = p.0 + offset_x(k) * step;
            let sy: int = p.1 + offset_y(k) * step;
            lemma_sample_in_bounds(dims, sx, sy);
            let q = (clamp_coord(sx, dims.spec_width()), clamp_coord(sy, dims.spec_height()));
            assert(field[q] == kept);
        }
    }
}

/// The flood invents no seed: whatever holds of every coordinate stored
/// before the flood holds of every coordinate stored after it.
pub proof fn lemma_flood_sound(
    dims: Dimensions,
    field: Map<(int, int), Texel>,
    steps: Seq<u32>,
    is_seed: spec_fn(int, int) -> bool,
)
    requires
        seeds_within(dims, field, is_seed),
    ensures
        seeds_within(dims, flood(dims, field, steps), is_seed),
    decreases steps.len(),
{
    if steps.len() > 0 {
        lemma_flood_sound(dims, field, steps.drop_last(), is_seed);
        lemma_flood_step_sound(
            dims,
            flood(dims, field, steps.drop_last()),
            steps.last() as int,
            is_seed,
        );
    }
}

/// A pass never loses ground: a pixel that held a seed holds one afterwards,
/// and no farther away.
pub proof fn lemma_flood_step_improves(
    dims: Dimensions,
    field: Map<(int, int), Texel>,
    step: int,
    x: int,
    y: int,
)
    requires
        dims.spec_contains(x, y),
        field[(x, y)] is Seed,
    ensures
        flood_step(dims, field, step)[(x, y)] is Seed,
        texel_dist2(x, y, flood_step(dims, field, step)[(x, y)]) <= texel_dist2(x, y, field[(x, y)]),
{
    lemma_best_candidate(dims, field, x, y, step, 9);
    assert(offset_x(4) == 0 && offset_y(4) == 0);
    assert(0 * step == 0);
    assert(candidate(dims, field, x, y, step, 4) == field[(x, y)]);
}

/// A covered pixel keeps its own coordinate through a pass.
pub proof fn lemma_flood_step_keeps_own(
    dims: Dimensions,
    field: Map<(int, int), Texel>,
    step: int,
    x: int,
    y: int,
)
    requires
        dims.spec_contains(x, y),
        field[(x, y)] == (Texel::Seed { x: x as u32, y: y as u32 }),
    ensures
        flood_step(dims, field, step)[(x, y)] == field[(x, y)],
{
    lemma_extent_bound(dims);
    lemma_flood_step_improves(dims, field, step, x, y);
    let kept = flood_step(dims, field, step)[(x, y)];
    let dx: int = x - kept->x as int;
    let dy: int = y - kept->y as int;
    assert(spec_dist2(x, y, x, y) == 0) by (nonlinear_arith);
    assert(dx == 0 && dy == 0) by (nonlinear_arith)
        requires
            dx * dx + dy * dy <= 0,
    ;
}

/// A covered pixel keeps its own coordinate through the whole flood, so
/// its distance to the outline's shape is read back as zero.
pub proof fn lemma_flood_keeps_own(
    dims: Dimensions,
    field: Map<(int, int), Texel>,
    steps: Seq<u32>,
    x: int,
    y: int,
)
    requires
        dims.spec_contains(x, y),
        field[(x, y)] == (Texel::Seed { x: x as u32, y: y as u32 }),
    ensures
        flood(dims, field, steps)[(x, y)] == field[(x, y)],
    decreases steps.len(),
{
    if steps.len() > 0 {
        lemma_flood_keeps_own(dims, field, steps.drop_last(), x, y);
        lemma_flood_step_keeps_own(
            dims,
            flood(dims, field, steps.drop_last()),
            steps.last() as int,
            x,
            y,
        );
    }
}

/// The field that seed initialisation makes of a buffer whose only covered
/// pixel is `(x0, y0)`.
pub open spec fn single_seed(dims: Dimensions, field: Map<(int, int), Texel>, x0: int, y0: int) -> bool {
    forall|p: (int, int)|
        dims.spec_contains(p.0, p.1) ==> #[trigger] field[p] == (if p == (x0, y0) {
            Texel::Seed { x: x0 as u32, y: y0 as u32 }
        } else {
            Texel::Sentinel
        })
}

/// Whether offset `d` from the seed lies on the grid of spacing `grid` and
/// within `span - grid` of the seed.
pub open spec fn on_grid(d: int, grid: int, span: int) -> bool {
    d % grid == 0 && grid - span <= d <= span - grid
}

/// Every pixel on the grid of spacing `grid` around `(x0, y0)`, out to
/// `span - grid` along both axes, holds a seed.
pub open spec fn filled(
    dims: Dimensions,
    field: Map<(int, int), Texel>,
    x0: int,
    y0: int,
    grid: int,
    span: int,
) -> bool {
    forall|p: (int, int)|
        dims.spec_contains(p.0, p.1) && on_grid(p.0 - x0, grid, span) && on_grid(
            p.1 - y0,
            grid,
            span,
        ) ==> #[trigger] field[p] is Seed
}

/// Along one axis, a pixel on the grid of spacing `step` has a sample, at
/// most one jump nearer to the seed, on the grid of spacing `2 * step`.
pub proof fn lemma_axis_step(d: int, step: int, span: int) -> (o: int)
    requires
        step >= 1,
        span % (2 * step) == 0,
        on_grid(d, step, span),
    ensures
        -1 <= o <= 1,
        on_grid(d + o * step, 2 * step, span),
        o == -1 ==> d >= step,
        o == 1 ==> d <= -step,
{
    let t: int = 2 * step;
    let q: int = d / step;
    let b: int = span / t;
    lemma_fundamental_div_mod(d, step);
    lemma_fundamental_div_mod(span, t);
    assert(d == q * step) by (nonlinear_arith)
        requires
            d == step * q + d % step,
            d % step == 0,
    ;
    assert(span == t * b);
    let a: int = q / 2;
    if q % 2 == 0 {
        assert(d == t * a) by (nonlinear_arith)
            requires
                d == q * step,
                q == 2 * a,
                t == 2 * step,
        ;
        lemma_mod_multiples_basic(a, t);
        assert((a * t) % t == 0);
        assert(a * t == t * a) by (nonlinear_arith);
        assert(-b < a < b) by (nonlinear_arith)
            requires
                -(t * b) < t * a < t * b,
                t > 0,
        ;
        assert(t - t * b <= t * a <= t * b - t) by (nonlinear_arith)
            requires
                1 - b <= a <= b - 1,
                t > 0,
        ;
        assert(d + 0 * step == d);
        0
    } else {
        assert(q == 2 * a + 1);
        assert(d == t * a + step) by (nonlinear_arith)
            requires
                d == q * step,
                q == 2 * a + 1,
                t == 2 * step,
        ;
        if d > 0 {
            assert(a >= 0) by (nonlinear_arith)
                requires
                    d == t * a + step,
                    d > 0,
                    t == 2 * step,
                    step >= 1,
            ;
            assert(d - step == t * a);
            lemma_mod_multiples_basic(a, t);
            assert(a * t == t * a) by (nonlinear_arith);
            assert(t * a >= 0) by (nonlinear_arith)
                requires
                    a >= 0,
                    t >= 2,
            ;
            assert(d + (-1) * step == d - step);
            -1
        } else {
            assert(a + 1 <= 0) by (nonlinear_arith)
                requires
                    d == t * a + step,
                    d <= 0,
                    t == 2 * step,
                    step >= 1,
            ;
            assert(d + step == t * (a + 1)) by (nonlinear_arith)
                requires
                    d == t * a + step,
                    t == 2 * step,
            ;
            lemma_mod_multiples_basic(a + 1, t);
            assert((a + 1) * t == t * (a + 1)) by (nonlinear_arith);
            assert(t * (a + 1) <= 0) by (nonlinear_arith)
                requires
                    a + 1 <= 0,
                    t >= 2,
            ;
            assert(d + 1 * step == d + step);
            1
        }
    }
}

/// A pass at distance `step` carries seeds from the grid of spacing
/// `2 * step` around `(x0, y0)` to the grid of spacing `step`.
pub proof fn lemma_fill_step(
    dims: Dimensions,
    field: Map<(int, int), Texel>,
    x0: int,
    y0: int,
    step: int,
    span: int,
)
    requires
        dims.spec_contains(x0, y0),
        filled(dims, field, x0, y0, 2 * step, span),
        step >= 1,
        span % (2 * step) == 0,
    ensures
        filled(dims, flood_step(dims, field, step), x0, y0, step, span),
{
    let after = flood_step(dims, field, step);
    assert forall|p: (int, int)|
        dims.spec_contains(p.0, p.1) && on_grid(p.0 - x0, step, span) && on_grid(
            p.1 - y0,
            step,
            span,
        ) implies #[trigger] after[p] is Seed by {
        let ox: int = lemma_axis_step(p.0 - x0, step, span);
        let oy: int = lemma_axis_step(p.1 - y0, step, span);
        let k: int = (oy + 1) * 3 + (ox + 1);
        assert(offset_x(k) == ox && offset_y(k) == oy);
        let qx: int = p.0 + ox * step;
        let qy: int = p.1 + oy * step;
        assert(ox * step == (if ox == 0 {
            0
        } else if ox == 1 {
            step
        } else {
            -step
        })) by (nonlinear_arith)
            requires
                -1 <= ox <= 1,
        ;
        assert(oy * step == (if oy == 0 {
            0
        } else if oy == 1 {
            step
        } else {
            -step
        })) by (nonlinear_arith)
            requires
                -1 <= oy <= 1,
        ;
        assert(dims.spec_contains(qx, qy));
        assert(qx - x0 == (p.0 - x0) + ox * step);
        assert(qy - y0 == (p.1 - y0) + oy * step);
        assert(field[(qx, qy)] is Seed);
        assert(candidate(dims, field, p.0, p.1, step, k) == field[(qx, qy)]);
        lemma_best_candidate(dims, field, p.0, p.1, step, 9);
        assert(after[p] == best_candidate(dims, field, p.0, p.1, step, 9));
    }
}

/// The `j`-th jump distance divides the span that the whole sequence covers.
pub proof fn lemma_step_divides_span(extent: nat, j: nat)
    requires
        extent <= u32::MAX,
        j < spec_step_count(extent),
    ensures
        spec_step_sequence(extent).len() == spec_step_count(extent),
        spec_step_sequence(extent)[j as int] >= 1,
        spec_step_sequence(extent)[j as int] == pow2((spec_step_count(extent) - 1 - j) as nat),
        2 * spec_step_sequence(extent)[j as int] == pow2((spec_step_count(extent) - j) as nat),
        pow2(spec_step_count(extent)) % (2 * spec_step_sequence(extent)[j as int]) as nat == 0,
{
    let n: nat = spec_step_count(extent);
    lemma_step_sequence_valid(extent);
    let step: int = spec_step_sequence(extent)[j as int] as int;
    assert(step == pow2((n - 1 - j) as nat));
    lemma_pow2_pos((n - 1 - j) as nat);
    lemma_pow2_unfold((n - j) as nat);
    lemma_pow2_adds(j, (n - j) as nat);
    lemma_mod_multiples_basic(pow2(j) as int, 2 * step);
}

/// After the first `i` passes of the flood over a field that holds a seed
/// at `(x0, y0)`, seeds have reached the grid around `(x0, y0)` whose
/// spacing is the jump distance of the last of them.
pub proof fn lemma_fill_prefix(
    dims: Dimensions,
    field: Map<(int, int), Texel>,
    x0: int,
    y0: int,
    i: nat,
)
    requires
        dims.spec_contains(x0, y0),
        field[(x0, y0)] is Seed,
        i <= spec_step_count(dims.spec_max_extent()),
    ensures
        filled(
            dims,
            flood(dims, field, spec_step_sequence(dims.spec_max_extent()).take(i as int)),
            x0,
            y0,
            pow2((spec_step_count(dims.spec_max_extent()) - i) as nat) as int,
            pow2(spec_step_count(dims.spec_max_extent())) as int,
        ),
    decreases i,
{
    let extent: nat = dims.spec_max_extent();
    let n: nat = spec_step_count(extent);
    let steps = spec_step_sequence(extent);
    lemma_extent_bound(dims);
    let span: int = pow2(n) as int;
    lemma_pow2_pos(n);
    if i == 0 {
        assert(steps.take(0) =~= Seq::<u32>::empty());
        assert(flood(dims, field, steps.take(0)) == field);
        assert forall|p: (int, int)|
            dims.spec_contains(p.0, p.1) && on_grid(p.0 - x0, span, span) && on_grid(
                p.1 - y0,
                span,
                span,
            ) implies #[trigger] field[p] is Seed by {
            assert(p == (x0, y0));
        }
    } else {
        let j: nat = (i - 1) as nat;
        lemma_fill_prefix(dims, field, x0, y0, j);
        let before = flood(dims, field, steps.take(j as int));
        assert(steps.take(i as int).drop_last() =~= steps.take(j as int));
        assert(steps.take(i as int).last() == steps[j as int]);
        let step: int = steps[j as int] as int;
        lemma_step_divides_span(extent, j);
        assert(flood(dims, field, steps.take(i as int)) == flood_step(dims, before, step));
        lemma_fill_step(dims, before, x0, y0, step, span);
    }
}

/// The flood fills the buffer: when any pixel holds a seed before it, every
/// pixel holds a seed after it.
pub proof fn lemma_flood_fills(dims: Dimensions, field: Map<(int, int), Texel>, x0: int, y0: int)
    requires
        dims.spec_contains(x0, y0),
        field[(x0, y0)] is Seed,
    ensures
        forall|p: (int, int)|
            dims.spec_contains(p.0, p.1) ==> #[trigger] flood(
                dims,
                field,
                spec_step_sequence(dims.spec_max_extent()),
            )[p] is Seed,
{
    let extent: nat = dims.spec_max_extent();
    let n: nat = spec_step_count(extent);
    let steps = spec_step_sequence(extent);
    lemma_extent_bound(dims);
    lemma_step_sequence_valid(extent);
    lemma_first_step(extent);
    lemma_fill_prefix(dims, field, x0, y0, n);
    assert(steps.take(n as int) =~= steps);
    lemma2_to64();
    lemma_pow2_unfold(n);
    let span: int = pow2(n) as int;
    assert(span >= extent);
    let result = flood(dims, field, steps);
    assert forall|p: (int, int)| dims.spec_contains(p.0, p.1) implies #[trigger] result[p] is Seed by {
        assert(on_grid(p.0 - x0, 1, span));
        assert(on_grid(p.1 - y0, 1, span));
    }
}

/// Single-seed convergence: when exactly one pixel `(x0, y0)` is covered,
/// the full flood leaves the coordinate `(x0, y0)` in every texel, so the
/// distance read back at any pixel is its true distance to the seed.
pub proof fn lemma_single_seed_converges(
    dims: Dimensions,
    field: Map<(int, int), Texel>,
    x0: int,
    y0: int,
)
    requires
        dims.spec_contains(x0, y0),
        single_seed(dims, field, x0, y0),
    ensures
        forall|p: (int, int)|
            dims.spec_contains(p.0, p.1) ==> #[trigger] flood(
                dims,
                field,
                spec_step_sequence(dims.spec_max_extent()),
            )[p] == (Texel::Seed { x: x0 as u32, y: y0 as u32 }),
{
    let steps = spec_step_sequence(dims.spec_max_extent());
    let only = |x: int, y: int| x == x0 && y == y0;
    lemma_extent_bound(dims);
    assert(field[(x0, y0)] is Seed);
    lemma_flood_fills(dims, field, x0, y0);
    lemma_flood_sound(dims, field, steps, only);
    let result = flood(dims, field, steps);
    assert forall|p: (int, int)| dims.spec_contains(p.0, p.1) implies #[trigger] result[p] == (
    Texel::Seed { x: x0 as u32, y: y0 as u32 }) by {
        assert(result[p] is Seed);
        assert(only(result[p]->x as int, result[p]->y as int));
    }
}

/// Single-seed convergence, from the coverage buffer: when `(x0, y0)` is
/// the only covered pixel, seed initialisation followed by the full flood
/// leaves the coordinate `(x0, y0)` in every texel, and the squared distance
/// read back at a pixel is its true squared distance to `(x0, y0)`.
pub proof fn lemma_single_covered_pixel_converges(coverage: CoverageBuffer, x0: int, y0: int)
    requires
        coverage.dims().spec_contains(x0, y0),
        forall|a: int, b: int|
            coverage.dims().spec_contains(a, b) ==> (coverage.covered(a, b) <==> (a == x0 && b
                == y0)),
    ensures
        forall|p: (int, int)|
            coverage.dims().spec_contains(p.0, p.1) ==> {
                let texel = #[trigger] flood(
                    coverage.dims(),
                    seeded_field(coverage),
                    spec_step_sequence(coverage.dims().spec_max_extent()),
                )[p];
                &&& texel == (Texel::Seed { x: x0 as u32, y: y0 as u32 })
                &&& texel_dist2(p.0, p.1, texel) == spec_dist2(p.0, p.1, x0, y0)
            },
{
    let dims = coverage.dims();
    lemma_extent_bound(dims);
    assert(single_seed(dims, seeded_field(coverage), x0, y0));
    lemma_single_seed_converges(dims, seeded_field(coverage), x0, y0);
}

/// Empty-mask handling, from the coverage buffer: when no pixel is covered,
/// seed initialisation followed by any sequence of passes leaves the
/// sentinel in every texel.
pub proof fn lemma_uncovered_stays_empty(coverage: CoverageBuffer, steps: Seq<u32>)
    requires
        forall|a: int, b: int| coverage.dims().spec_contains(a, b) ==> !coverage.covered(a, b),
    ensures
        all_sentinel(coverage.dims(), flood(coverage.dims(), seeded_field(coverage), steps)),
{
    assert(all_sentinel(coverage.dims(), seeded_field(coverage)));
    lemma_flood_keeps_empty(coverage.dims(), seeded_field(coverage), steps);
}

/// Every coordinate that the flood leaves in a texel is that of a covered
/// pixel of the buffer.
pub proof fn lemma_flooded_seeds_are_covered(coverage: CoverageBuffer, steps: Seq<u32>)
    ensures
        seeds_within(
            coverage.dims(),
            flood(coverage.dims(), seeded_field(coverage), steps),
            |x: int, y: int| coverage.dims().spec_contains(x, y) && coverage.covered(x, y),
        ),
{
    let dims = coverage.dims();
    let covered = |x: int, y: int| dims.spec_contains(x, y) && coverage.covered(x, y);
    lemma_extent_bound(dims);
    assert(seeds_within(dims, seeded_field(coverage), covered));
    lemma_flood_sound(dims, seeded_field(coverage), steps, covered);
}

/// When any pixel is covered, the full flood leaves in every texel the
/// coordinate of a covered pixel.
pub proof fn lemma_any_covered_fills(coverage: CoverageBuffer, x0: int, y0: int)
    requires
        coverage.dims().spec_contains(x0, y0),
        coverage.covered(x0, y0),
    ensures
        forall|p: (int, int)|
            coverage.dims().spec_contains(p.0, p.1) ==> (#[trigger] flood(
                coverage.dims(),
                seeded_field(coverage),
                spec_step_sequence(coverage.dims().spec_max_extent()),
            )[p] matches Texel::Seed { x, y } && coverage.dims().spec_contains(x as int, y as int)
                && coverage.covered(x as int, y as int)),
{
    let dims = coverage.dims();
    let steps = spec_step_sequence(dims.spec_max_extent());
    lemma_flood_fills(dims, seeded_field(coverage), x0, y0);
    lemma_flooded_seeds_are_covered(coverage, steps);
}

/// A covered pixel holds its own coordinate after the flood.
pub proof fn lemma_covered_pixel_keeps_own(coverage: CoverageBuffer, steps: Seq<u32>, x: int, y: int)
    requires
        coverage.dims().spec_contains(x, y),
        coverage.covered(x, y),
    ensures
        flood(coverage.dims(), seeded_field(coverage), steps)[(x, y)] == (Texel::Seed {
            x: x as u32,
            y: y as u32,
        }),
{
    lemma_flood_keeps_own(coverage.dims(), seeded_field(coverage), steps, x, y);
}

} // verus!
