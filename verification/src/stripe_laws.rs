//! Shapes made of whole columns: the flood is exact for them, so that the
//! outlines of two such shapes do not disturb each other.

use crate::coverage::CoverageBuffer;
use crate::dimensions::{lemma_extent_bound, Dimensions};
use crate::edge_laws::column_distance;
use crate::flood_laws::{
    lemma_axis_step, lemma_best_candidate, lemma_flood_step_sound, lemma_step_divides_span,
    on_grid, seeds_within, texel_dist2,
};
use crate::flood_laws::lemma_uncovered_stays_empty;
use crate::jfa::{best_candidate, candidate, flood, flood_step, offset_x, offset_y, spec_dist2};
use crate::outline::{spec_composite, spec_opacity, spec_opacity_at, OutlineParams};
use crate::outline_laws::{
    lemma_fixed_distance_exact, lemma_opacity_monotonic, lemma_opacity_zero_outside,
};
use crate::seed::{seeded_field, Texel};
use crate::target::Rgba8;
use crate::steps::{lemma_first_step, lemma_step_sequence_valid, spec_step_count, spec_step_sequence};
use vstd::arithmetic::power2::{lemma2_to64, lemma_pow2_pos, lemma_pow2_unfold, pow2};
use vstd::prelude::*;

verus! {

/// Whether `c` is a column of the buffer that belongs to the shape.
pub open spec fn in_stripes(dims: Dimensions, shape: spec_fn(int) -> bool, c: int) -> bool {
    0 <= c < dims.spec_width() && shape(c)
}

/// Whether the covered pixels of the buffer are those of the columns of the
/// shape.
pub open spec fn striped(coverage: CoverageBuffer, shape: spec_fn(int) -> bool) -> bool {
    forall|a: int, b: int|
        coverage.dims().spec_contains(a, b) ==> (#[trigger] coverage.covered(a, b) <==> shape(a))
}

/// Whether `c` is a column of the shape and no column of the shape is
/// nearer to the column `x`.
pub open spec fn nearest_column(
    dims: Dimensions,
    shape: spec_fn(int) -> bool,
    x: int,
    c: int,
) -> bool {
    &&& in_stripes(dims, shape, c)
    &&& forall|o: int|
        in_stripes(dims, shape, o) ==> column_distance(x, c) <= #[trigger] column_distance(x, o)
}

/// Whether the texel holds, for pixel `p`, the pixel of its own row in a
/// column of the shape that is nearest to it.
pub open spec fn holds_nearest(
    dims: Dimensions,
    shape: spec_fn(int) -> bool,
    p: (int, int),
    texel: Texel,
) -> bool {
    texel matches Texel::Seed { x, y } && y == p.1 && nearest_column(dims, shape, p.0, x as int)
}

/// Every pixel whose horizontal offset from a nearest column of the shape
/// lies on the grid of spacing `grid`, out to `span - grid`, holds a nearest
/// pixel of the shape.
pub open spec fn stripes_reached(
    dims: Dimensions,
    shape: spec_fn(int) -> bool,
    field: Map<(int, int), Texel>,
    grid: int,
    span: int,
) -> bool {
    forall|p: (int, int), s: int|
        #![trigger nearest_column(dims, shape, p.0, s), field[p]]
        dims.spec_contains(p.0, p.1) && nearest_column(dims, shape, p.0, s) && on_grid(
            p.0 - s,
            grid,
            span,
        ) ==> holds_nearest(dims, shape, p, field[p])
}

/// A shape with a column has a column nearest to any given column.
pub proof fn lemma_nearest_column_exists(
    dims: Dimensions,
    shape: spec_fn(int) -> bool,
    x: int,
    c: int,
) -> (s: int)
    requires
        in_stripes(dims, shape, c),
    ensures
        nearest_column(dims, shape, x, s),
    decreases column_distance(x, c),
{
    if exists|o: int| in_stripes(dims, shape, o) && column_distance(x, o) < column_distance(x, c) {
        let o: int = choose|o: int|
            in_stripes(dims, shape, o) && column_distance(x, o) < column_distance(x, c);
        lemma_nearest_column_exists(dims, shape, x, o)
    } else {
        c
    }
}

/// A column that is nearest to a pixel is nearest to every pixel between
/// the two.
pub proof fn lemma_nearest_column_between(
    dims: Dimensions,
    shape: spec_fn(int) -> bool,
    x: int,
    s: int,
    q: int,
)
    requires
        nearest_column(dims, shape, x, s),
        (s <= q <= x) || (x <= q <= s),
    ensures
        nearest_column(dims, shape, q, s),
{
    assert forall|o: int| in_stripes(dims, shape, o) implies column_distance(q, s)
        <= #[trigger] column_distance(q, o) by {
        assert(column_distance(x, s) <= column_distance(x, o));
    }
}

/// With seeds in the columns of the shape only, a pass at distance `step`
/// carries nearest pixels of the shape from the grid of spacing `2 * step`
/// to the grid of spacing `step`.
pub proof fn lemma_stripes_step(
    dims: Dimensions,
    shape: spec_fn(int) -> bool,
    field: Map<(int, int), Texel>,
    step: int,
    span: int,
)
    requires
        seeds_within(dims, field, |x: int, y: int| in_stripes(dims, shape, x)),
        stripes_reached(dims, shape, field, 2 * step, span),
        step >= 1,
        span % (2 * step) == 0,
    ensures
        seeds_within(dims, flood_step(dims, field, step), |x: int, y: int| in_stripes(dims, shape, x)),
        stripes_reached(dims, shape, flood_step(dims, field, step), step, span),
{
    let in_shape = |x: int, y: int| in_stripes(dims, shape, x);
    lemma_flood_step_sound(dims, field, step, in_shape);
    lemma_extent_bound(dims);
    let after = flood_step(dims, field, step);
    assert forall|p: (int, int), s: int|
        #![trigger nearest_column(dims, shape, p.0, s), after[p]]
        dims.spec_contains(p.0, p.1) && nearest_column(dims, shape, p.0, s) && on_grid(
            p.0 - s,
            step,
            span,
        ) implies holds_nearest(dims, shape, p, after[p]) by {
        let ox: int = lemma_axis_step(p.0 - s, step, span);
        let k: int = 3 + (ox + 1);
        assert(offset_x(k) == ox && offset_y(k) == 0);
        assert(ox * step == (if ox == 0 {
            0
        } else if ox == 1 {
            step
        } else {
            -step
        })) by (nonlinear_arith)
            requires
                -1 <= ox <= 1,
        ;
        assert(0 * step == 0);
        let qx: int = p.0 + ox * step;
        let q = (qx, p.1);
        assert(dims.spec_contains(qx, p.1));
        assert(qx - s == (p.0 - s) + ox * step);
        lemma_nearest_column_between(dims, shape, p.0, s, qx);
        let near = field[q];
        assert(nearest_column(dims, shape, q.0, s));
        assert(on_grid(q.0 - s, 2 * step, span));
        assert(holds_nearest(dims, shape, q, near));
        let cx: int = near->x as int;
        assert(column_distance(qx, cx) <= column_distance(qx, s));
        assert(column_distance(p.0, s) <= column_distance(p.0, cx));
        let reach: int = column_distance(p.0, s);
        assert(column_distance(p.0, cx) == reach);
        assert(candidate(dims, field, p.0, p.1, step, k) == near);
        lemma_best_candidate(dims, field, p.0, p.1, step, 9);
        let kept = best_candidate(dims, field, p.0, p.1, step, 9);
        assert(after[p] == kept);
        assert(kept is Seed);
        assert(in_shape(kept->x as int, kept->y as int));
        assert(texel_dist2(p.0, p.1, kept) <= texel_dist2(p.0, p.1, near));
        let kx: int = kept->x as int;
        let dx: int = p.0 - kx;
        let dy: int = p.1 - kept->y as int;
        let nx: int = p.0 - cx;
        assert(column_distance(p.0, s) <= column_distance(p.0, kx));
        assert(dx * dx >= reach * reach) by (nonlinear_arith)
            requires
                0 <= reach,
                dx >= reach || -dx >= reach,
        ;
        assert(nx * nx == reach * reach) by (nonlinear_arith)
            requires
                nx == reach || -nx == reach,
        ;
        assert((p.1 - p.1) * (p.1 - p.1) == 0);
        assert(dy == 0 && dx * dx <= reach * reach) by (nonlinear_arith)
            requires
                dx * dx + dy * dy <= reach * reach + 0,
                dx * dx >= reach * reach,
        ;
        assert(column_distance(p.0, kx) <= reach) by (nonlinear_arith)
            requires
                dx * dx <= reach * reach,
                0 <= reach,
                column_distance(p.0, kx) == dx || column_distance(p.0, kx) == -dx,
                column_distance(p.0, kx) >= 0,
        ;
        assert forall|o: int| in_stripes(dims, shape, o) implies column_distance(p.0, kx)
            <= #[trigger] column_distance(p.0, o) by {
            assert(column_distance(p.0, s) <= column_distance(p.0, o));
        }
    }
}

/// After the first `i` passes of the flood over the seeds of a shape made
/// of whole columns, nearest pixels of the shape have reached the grid whose
/// spacing is the jump distance of the last of them.
pub proof fn lemma_stripes_prefix(coverage: CoverageBuffer, shape: spec_fn(int) -> bool, i: nat)
    requires
        striped(coverage, shape),
        i <= spec_step_count(coverage.dims().spec_max_extent()),
    ensures
        seeds_within(
            coverage.dims(),
            flood(
                coverage.dims(),
                seeded_field(coverage),
                spec_step_sequence(coverage.dims().spec_max_extent()).take(i as int),
            ),
            |x: int, y: int| in_stripes(coverage.dims(), shape, x),
        ),
        stripes_reached(
            coverage.dims(),
            shape,
            flood(
                coverage.dims(),
                seeded_field(coverage),
                spec_step_sequence(coverage.dims().spec_max_extent()).take(i as int),
            ),
            pow2((spec_step_count(coverage.dims().spec_max_extent()) - i) as nat) as int,
            pow2(spec_step_count(coverage.dims().spec_max_extent())) as int,
        ),
    decreases i,
{
    let dims = coverage.dims();
    let field = seeded_field(coverage);
    let extent: nat = dims.spec_max_extent();
    let n: nat = spec_step_count(extent);
    let steps = spec_step_sequence(extent);
    lemma_extent_bound(dims);
    let span: int = pow2(n) as int;
    lemma_pow2_pos(n);
    if i == 0 {
        assert(steps.take(0) =~= Seq::<u32>::empty());
        assert(flood(dims, field, steps.take(0)) == field);
        assert(seeds_within(dims, field, |x: int, y: int| in_stripes(dims, shape, x))) by {
            assert forall|p: (int, int)| dims.spec_contains(p.0, p.1) implies (
            #[trigger] field[p] matches Texel::Seed { x, y } ==> in_stripes(dims, shape, x as int)) by {
                if coverage.covered(p.0, p.1) {
                    assert(shape(p.0));
                }
            }
        }
        assert forall|p: (int, int), s: int|
            #![trigger nearest_column(dims, shape, p.0, s), field[p]]
            dims.spec_contains(p.0, p.1) && nearest_column(dims, shape, p.0, s) && on_grid(
                p.0 - s,
                span,
                span,
            ) implies holds_nearest(dims, shape, p, field[p]) by {
            assert(p.0 == s);
            assert(coverage.covered(p.0, p.1));
        }
    } else {
        let j: nat = (i - 1) as nat;
        lemma_stripes_prefix(coverage, shape, j);
        let before = flood(dims, field, steps.take(j as int));
        assert(steps.take(i as int).drop_last() =~= steps.take(j as int));
        assert(steps.take(i as int).last() == steps[j as int]);
        let step: int = steps[j as int] as int;
        lemma_step_divides_span(extent, j);
        assert(flood(dims, field, steps.take(i as int)) == flood_step(dims, before, step));
        lemma_stripes_step(dims, shape, before, step, span);
    }
}

/// The flood is exact for a shape made of whole columns: every pixel ends
/// up with the pixel of its own row in a column of the shape that is nearest
/// to it.
pub proof fn lemma_stripes_exact(
    coverage: CoverageBuffer,
    shape: spec_fn(int) -> bool,
    x: int,
    y: int,
    s: int,
)
    requires
        striped(coverage, shape),
        coverage.dims().spec_contains(x, y),
        nearest_column(coverage.dims(), shape, x, s),
    ensures
        holds_nearest(
            coverage.dims(),
            shape,
            (x, y),
            flood(
                coverage.dims(),
                seeded_field(coverage),
                spec_step_sequence(coverage.dims().spec_max_extent()),
            )[(x, y)],
        ),
        column_distance(
            x,
            flood(
                coverage.dims(),
                seeded_field(coverage),
                spec_step_sequence(coverage.dims().spec_max_extent()),
            )[(x, y)]->x as int,
        ) == column_distance(x, s),
{
    let dims = coverage.dims();
    let extent: nat = dims.spec_max_extent();
    let n: nat = spec_step_count(extent);
    let steps = spec_step_sequence(extent);
    lemma_extent_bound(dims);
    lemma_step_sequence_valid(extent);
    lemma_first_step(extent);
    lemma_stripes_prefix(coverage, shape, n);
    assert(steps.take(n as int) =~= steps);
    lemma2_to64();
    lemma_pow2_unfold(n);
    let span: int = pow2(n) as int;
    assert(span >= extent);
    let result = flood(dims, seeded_field(coverage), steps);
    let p = (x, y);
    assert(on_grid(p.0 - s, 1, span));
    assert(nearest_column(dims, shape, p.0, s));
    assert(holds_nearest(dims, shape, p, result[p]));
    let cx: int = result[p]->x as int;
    assert(column_distance(x, cx) <= column_distance(x, s));
    assert(column_distance(x, s) <= column_distance(x, cx));
}

/// Opacity of the outline at pixel `(x, y)` after seed initialisation and
/// the full flood over `coverage`.
pub open spec fn outline_opacity(coverage: CoverageBuffer, weight: int, x: int, y: int) -> int {
    spec_opacity(
        weight,
        x,
        y,
        flood(
            coverage.dims(),
            seeded_field(coverage),
            spec_step_sequence(coverage.dims().spec_max_extent()),
        )[(x, y)],
    )
}

/// The larger of two opacities.
pub open spec fn larger(first: int, second: int) -> int {
    if first >= second {
        first
    } else {
        second
    }
}

/// The outline of a shape made of whole columns has, at every pixel, the
/// opacity that belongs to the pixel's distance from the nearest column.
pub proof fn lemma_stripes_opacity(
    coverage: CoverageBuffer,
    shape: spec_fn(int) -> bool,
    weight: int,
    x: int,
    y: int,
    s: int,
)
    requires
        striped(coverage, shape),
        coverage.dims().spec_contains(x, y),
        nearest_column(coverage.dims(), shape, x, s),
    ensures
        outline_opacity(coverage, weight, x, y) == spec_opacity_at(
            weight,
            256 * column_distance(x, s),
        ),
{
    let dims = coverage.dims();
    lemma_extent_bound(dims);
    lemma_stripes_exact(coverage, shape, x, y, s);
    let texel = flood(dims, seeded_field(coverage), spec_step_sequence(dims.spec_max_extent()))[(
        x,
        y,
    )];
    let cx: int = texel->x as int;
    let d: int = column_distance(x, s);
    assert(texel == (Texel::Seed { x: texel->x, y: y as u32 }));
    assert(spec_dist2(x, y, cx, y) == d * d) by (nonlinear_arith)
        requires
            d == x - cx || d == cx - x,
    ;
    lemma_fixed_distance_exact(d);
}

/// A shape without a column in the buffer has no outline.
pub proof fn lemma_no_stripes_opacity(
    coverage: CoverageBuffer,
    shape: spec_fn(int) -> bool,
    weight: int,
    x: int,
    y: int,
)
    requires
        striped(coverage, shape),
        coverage.dims().spec_contains(x, y),
        forall|c: int| !in_stripes(coverage.dims(), shape, c),
    ensures
        outline_opacity(coverage, weight, x, y) == 0,
{
    let dims = coverage.dims();
    let steps = spec_step_sequence(dims.spec_max_extent());
    assert forall|a: int, b: int| dims.spec_contains(a, b) implies !coverage.covered(a, b) by {
        assert(!in_stripes(dims, shape, a));
    }
    lemma_uncovered_stays_empty(coverage, steps);
    assert(flood(dims, seeded_field(coverage), steps)[(x, y)] == Texel::Sentinel);
}

/// Independent outlining: for two shapes made of whole columns, the outline
/// of both together has at every pixel the larger of the opacities that the
/// outlines of the single shapes have there.
pub proof fn lemma_striped_outlines_independent(
    first: CoverageBuffer,
    second: CoverageBuffer,
    both: CoverageBuffer,
    a: spec_fn(int) -> bool,
    b: spec_fn(int) -> bool,
    weight: int,
    x: int,
    y: int,
)
    requires
        first.dims() == both.dims(),
        second.dims() == both.dims(),
        striped(first, a),
        striped(second, b),
        striped(both, |c: int| a(c) || b(c)),
        both.dims().spec_contains(x, y),
    ensures
        outline_opacity(both, weight, x, y) == larger(
            outline_opacity(first, weight, x, y),
            outline_opacity(second, weight, x, y),
        ),
{
    let dims = both.dims();
    let union = |c: int| a(c) || b(c);
    let has_a = exists|c: int| in_stripes(dims, a, c);
    let has_b = exists|c: int| in_stripes(dims, b, c);
    if has_a && has_b {
        let ca: int = choose|c: int| in_stripes(dims, a, c);
        let cb: int = choose|c: int| in_stripes(dims, b, c);
        let sa: int = lemma_nearest_column_exists(dims, a, x, ca);
        let sb: int = lemma_nearest_column_exists(dims, b, x, cb);
        lemma_stripes_opacity(first, a, weight, x, y, sa);
        lemma_stripes_opacity(second, b, weight, x, y, sb);
        let da: int = column_distance(x, sa);
        let db: int = column_distance(x, sb);
        if da <= db {
            assert forall|o: int| in_stripes(dims, union, o) implies da <= #[trigger] column_distance(
                x,
                o,
            ) by {
                if a(o) {
                    assert(in_stripes(dims, a, o));
                } else {
                    assert(in_stripes(dims, b, o));
                    assert(db <= column_distance(x, o));
                }
            }
            assert(nearest_column(dims, union, x, sa));
            lemma_stripes_opacity(both, union, weight, x, y, sa);
            lemma_opacity_monotonic(weight, 256 * da, 256 * db);
        } else {
            assert forall|o: int| in_stripes(dims, union, o) implies db <= #[trigger] column_distance(
                x,
                o,
            ) by {
                if b(o) {
                    assert(in_stripes(dims, b, o));
                } else {
                    assert(in_stripes(dims, a, o));
                    assert(da <= column_distance(x, o));
                }
            }
            assert(nearest_column(dims, union, x, sb));
            lemma_stripes_opacity(both, union, weight, x, y, sb);
            lemma_opacity_monotonic(weight, 256 * db, 256 * da);
        }
    } else if has_a {
        let ca: int = choose|c: int| in_stripes(dims, a, c);
        let sa: int = lemma_nearest_column_exists(dims, a, x, ca);
        lemma_stripes_opacity(first, a, weight, x, y, sa);
        lemma_no_stripes_opacity(second, b, weight, x, y);
        assert forall|o: int| in_stripes(dims, union, o) implies column_distance(x, sa)
            <= #[trigger] column_distance(x, o) by {
            assert(!in_stripes(dims, b, o));
            assert(in_stripes(dims, a, o));
        }
        assert(nearest_column(dims, union, x, sa));
        lemma_stripes_opacity(both, union, weight, x, y, sa);
        lemma_opacity_monotonic(weight, 256 * column_distance(x, sa), 256 * column_distance(x, sa));
    } else if has_b {
        let cb: int = choose|c: int| in_stripes(dims, b, c);
        let sb: int = lemma_nearest_column_exists(dims, b, x, cb);
        lemma_stripes_opacity(second, b, weight, x, y, sb);
        lemma_no_stripes_opacity(first, a, weight, x, y);
        assert forall|o: int| in_stripes(dims, union, o) implies column_distance(x, sb)
            <= #[trigger] column_distance(x, o) by {
            assert(!in_stripes(dims, a, o));
            assert(in_stripes(dims, b, o));
        }
        assert(nearest_column(dims, union, x, sb));
        lemma_stripes_opacity(both, union, weight, x, y, sb);
        lemma_opacity_monotonic(weight, 256 * column_distance(x, sb), 256 * column_distance(x, sb));
    } else {
        lemma_no_stripes_opacity(first, a, weight, x, y);
        lemma_no_stripes_opacity(second, b, weight, x, y);
        assert forall|c: int| !in_stripes(dims, union, c) by {
            assert(!in_stripes(dims, a, c));
            assert(!in_stripes(dims, b, c));
        }
        lemma_no_stripes_opacity(both, union, weight, x, y);
    }
}

/// No bleed between distant shapes: when every column of one shape is at
/// least twice the style width plus the fade band away from every column of
/// the other, a pixel that the outline of the first shape touches gets from
/// both shapes together exactly what it gets from the first alone.
pub proof fn lemma_distant_stripes_keep_their_outline(
    first: CoverageBuffer,
    second: CoverageBuffer,
    both: CoverageBuffer,
    a: spec_fn(int) -> bool,
    b: spec_fn(int) -> bool,
    params: OutlineParams,
    target: Map<(int, int), Rgba8>,
    x: int,
    y: int,
)
    requires
        first.dims() == both.dims(),
        second.dims() == both.dims(),
        striped(first, a),
        striped(second, b),
        striped(both, |c: int| a(c) || b(c)),
        both.dims().spec_contains(x, y),
        forall|ca: int, cb: int|
            in_stripes(both.dims(), a, ca) && in_stripes(both.dims(), b, cb) ==> 256
                * #[trigger] column_distance(ca, cb) >= 2 * (params.weight + 128),
        outline_opacity(first, params.weight as int, x, y) > 0,
    ensures
        outline_opacity(second, params.weight as int, x, y) == 0,
        outline_opacity(both, params.weight as int, x, y) == outline_opacity(
            first,
            params.weight as int,
            x,
            y,
        ),
        spec_composite(
            both.dims(),
            flood(
                both.dims(),
                seeded_field(both),
                spec_step_sequence(both.dims().spec_max_extent()),
            ),
            params,
            target,
        )[(x, y)] == spec_composite(
            first.dims(),
            flood(
                first.dims(),
                seeded_field(first),
                spec_step_sequence(first.dims().spec_max_extent()),
            ),
            params,
            target,
        )[(x, y)],
{
    let dims = both.dims();
    let weight: int = params.weight as int;
    lemma_striped_outlines_independent(first, second, both, a, b, weight, x, y);
    if exists|c: int| in_stripes(dims, a, c) {
        let ca: int = choose|c: int| in_stripes(dims, a, c);
        let sa: int = lemma_nearest_column_exists(dims, a, x, ca);
        lemma_stripes_opacity(first, a, weight, x, y, sa);
        let da: int = column_distance(x, sa);
        if 256 * da >= weight + 128 {
            lemma_opacity_zero_outside(weight, 256 * da);
        }
        if exists|c: int| in_stripes(dims, b, c) {
            let cb: int = choose|c: int| in_stripes(dims, b, c);
            let sb: int = lemma_nearest_column_exists(dims, b, x, cb);
            lemma_stripes_opacity(second, b, weight, x, y, sb);
            let db: int = column_distance(x, sb);
            assert(256 * column_distance(sa, sb) >= 2 * (weight + 128));
            assert(column_distance(sa, sb) <= da + db);
            lemma_opacity_zero_outside(weight, 256 * db);
        } else {
            lemma_no_stripes_opacity(second, b, weight, x, y);
        }
    } else {
        lemma_no_stripes_opacity(first, a, weight, x, y);
    }
}

} // verus!
