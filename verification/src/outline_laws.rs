//! What holds of the composite pass for every input.

use crate::coverage::CoverageBuffer;
use crate::dimensions::Dimensions;
use crate::flood_laws::{all_sentinel, lemma_uncovered_stays_empty, seeds_within};
use crate::jfa::{flood, spec_dist2};
use crate::outline::{
    is_isqrt, lemma_isqrt_monotonic, lemma_isqrt_unique, lemma_smooth_bound, spec_blend,
    spec_composite, spec_fixed_distance, spec_isqrt, spec_opacity, spec_opacity_at,
    spec_ramp, spec_scale, spec_smooth, OutlineParams,
};
use crate::seed::{seeded_field, Texel};
use crate::target::Rgba8;
use vstd::prelude::*;

verus! {

/// Every natural number has an integer square root.
pub proof fn lemma_isqrt_exists(n: nat)
    ensures
        is_isqrt(n as int, spec_isqrt(n) as int),
    decreases n,
{
    if n == 0 {
        assert(is_isqrt(0, 0nat as int));
    } else {
        lemma_isqrt_exists((n - 1) as nat);
        let r = spec_isqrt((n - 1) as nat);
        if (r + 1) * (r + 1) <= n {
            assert((r + 2) * (r + 2) > (r + 1) * (r + 1)) by (nonlinear_arith)
                requires
                    r >= 0,
            ;
            let up: nat = (r + 1) as nat;
            assert(is_isqrt(n as int, up as int));
        } else {
            assert(is_isqrt(n as int, r as int));
        }
    }
}

/// A pixel farther from its seed is assigned no smaller a fixed-point
/// distance.
pub proof fn lemma_fixed_distance_monotonic(near: int, far: int)
    requires
        0 <= near <= far,
    ensures
        spec_fixed_distance(near) <= spec_fixed_distance(far),
{
    lemma_isqrt_exists((near * 65536) as nat);
    lemma_isqrt_exists((far * 65536) as nat);
    lemma_isqrt_monotonic(
        near * 65536,
        spec_fixed_distance(near) as int,
        far * 65536,
        spec_fixed_distance(far) as int,
    );
}

/// A seed exactly `k` pixels away is at fixed-point distance `256 * k`.
pub proof fn lemma_fixed_distance_exact(k: int)
    requires
        0 <= k,
    ensures
        spec_fixed_distance(k * k) == 256 * k,
{
    assert(k * k >= 0) by (nonlinear_arith);
    let n: nat = (k * k * 65536) as nat;
    lemma_isqrt_exists(n);
    assert(is_isqrt(n as int, 256 * k)) by (nonlinear_arith)
        requires
            n == k * k * 65536,
            0 <= k,
    ;
    lemma_isqrt_unique(n as int, 256 * k, spec_isqrt(n) as int);
}

/// One step further into the band never lowers the smooth step.
proof fn lemma_smooth_step_up(t: int)
    requires
        0 <= t < 256,
    ensures
        t * t * (768 - 2 * t) <= (t + 1) * (t + 1) * (768 - 2 * (t + 1)),
{
    assert((t + 1) * (t + 1) * (768 - 2 * (t + 1)) - t * t * (768 - 2 * t) == 6 * (t * (255 - t))
        + 766) by (nonlinear_arith);
    assert(t * (255 - t) >= 0) by (nonlinear_arith)
        requires
            0 <= t <= 255,
    ;
}

/// The smooth step rises monotonically across the band.
pub proof fn lemma_smooth_monotonic(low: int, high: int)
    requires
        0 <= low <= high <= 256,
    ensures
        spec_smooth(low) <= spec_smooth(high),
        low * low * (768 - 2 * low) <= high * high * (768 - 2 * high),
    decreases high - low,
{
    if low < high {
        lemma_smooth_monotonic(low, high - 1);
        lemma_smooth_step_up(high - 1);
        let a: int = low * low * (768 - 2 * low);
        let b: int = high * high * (768 - 2 * high);
        assert(a * 255 <= b * 255);
    }
}

/// Width boundary, inner side: at least half a band inside the style width
/// the outline is fully opaque.
pub proof fn lemma_opacity_full_inside(weight: int, dist: int)
    requires
        dist + 128 <= weight,
    ensures
        spec_opacity_at(weight, dist) == 255,
{
    assert(spec_ramp(weight, dist) == 256);
    assert(256int * 256 == 65536);
    assert(65536int * 256 == 16777216);
}

/// Width boundary, outer side: at least half a band beyond the style width
/// there is no outline.
pub proof fn lemma_opacity_zero_outside(weight: int, dist: int)
    requires
        dist >= weight + 128,
    ensures
        spec_opacity_at(weight, dist) == 0,
{
    assert(spec_ramp(weight, dist) == 0);
    assert(0int * 0 == 0);
    assert(0int * (768 - 2 * 0) == 0);
    assert(0int * 255 == 0);
    assert(spec_smooth(0) == 0);
}

/// Width boundary, transition: opacity always lies in `0..=255` and never
/// grows with the distance to the seed.
pub proof fn lemma_opacity_monotonic(weight: int, near: int, far: int)
    requires
        near <= far,
    ensures
        0 <= spec_opacity_at(weight, far) <= spec_opacity_at(weight, near) <= 255,
{
    lemma_smooth_bound(spec_ramp(weight, far));
    lemma_smooth_bound(spec_ramp(weight, near));
    lemma_smooth_monotonic(spec_ramp(weight, far), spec_ramp(weight, near));
}

/// At opacity zero the blend leaves the colour channels of the target as
/// they were and reports a fully transparent source.
pub proof fn lemma_blend_transparent(color: Rgba8, dst: Rgba8)
    ensures
        spec_blend(color, 0, dst).r == dst.r,
        spec_blend(color, 0, dst).g == dst.g,
        spec_blend(color, 0, dst).b == dst.b,
        spec_blend(color, 0, dst).a == 0,
{
    assert(0 * (color.a as int) == 0);
    assert(spec_scale(0, color.a as int) == 0);
    assert((color.r as int) * 0 == 0 && (color.g as int) * 0 == 0 && (color.b as int) * 0 == 0);
}

/// With an opaque style colour, full opacity replaces the colour channels
/// of the target by the style's.
pub proof fn lemma_blend_opaque(color: Rgba8, dst: Rgba8)
    requires
        color.a == 255,
    ensures
        spec_blend(color, 255, dst).r == color.r,
        spec_blend(color, 255, dst).g == color.g,
        spec_blend(color, 255, dst).b == color.b,
        spec_blend(color, 255, dst).a == 255,
{
    assert(255int * 255 == 65025);
    assert(spec_scale(255, 255) == 255);
    assert((dst.r as int) * 0 == 0 && (dst.g as int) * 0 == 0 && (dst.b as int) * 0 == 0);
}

/// Empty-mask handling: when the flood left the sentinel everywhere, the
/// composite contributes nothing, so every pixel keeps its colour channels.
pub proof fn lemma_composite_of_empty(
    dims: Dimensions,
    seeds: Map<(int, int), Texel>,
    params: OutlineParams,
    target: Map<(int, int), Rgba8>,
)
    requires
        all_sentinel(dims, seeds),
    ensures
        forall|p: (int, int)|
            dims.spec_contains(p.0, p.1) ==> {
                let out = #[trigger] spec_composite(dims, seeds, params, target)[p];
                out.r == target[p].r && out.g == target[p].g && out.b == target[p].b && out.a == 0
            },
{
    assert forall|p: (int, int)| dims.spec_contains(p.0, p.1) implies {
        let out = #[trigger] spec_composite(dims, seeds, params, target)[p];
        out.r == target[p].r && out.g == target[p].g && out.b == target[p].b && out.a == 0
    } by {
        assert(seeds[p] == Texel::Sentinel);
        lemma_blend_transparent(params.color, target[p]);
    }
}

/// Empty-mask handling, end to end: when no pixel is covered, the frame's
/// composite leaves the colour channels of every pixel of the target as
/// they were.
pub proof fn lemma_empty_mask_no_outline(
    coverage: CoverageBuffer,
    steps: Seq<u32>,
    params: OutlineParams,
    target: Map<(int, int), Rgba8>,
)
    requires
        forall|a: int, b: int| coverage.dims().spec_contains(a, b) ==> !coverage.covered(a, b),
    ensures
        forall|p: (int, int)|
            coverage.dims().spec_contains(p.0, p.1) ==> {
                let out = #[trigger] spec_composite(
                    coverage.dims(),
                    flood(coverage.dims(), seeded_field(coverage), steps),
                    params,
                    target,
                )[p];
                out.r == target[p].r && out.g == target[p].g && out.b == target[p].b && out.a == 0
            },
{
    lemma_uncovered_stays_empty(coverage, steps);
    lemma_composite_of_empty(
        coverage.dims(),
        flood(coverage.dims(), seeded_field(coverage), steps),
        params,
        target,
    );
}

/// No bleed: a pixel that is at least the style width plus half a band away
/// from every seed gets no outline, whichever seed the flood left in its
/// texel.
pub proof fn lemma_no_outline_beyond_reach(
    dims: Dimensions,
    seeds: Map<(int, int), Texel>,
    is_seed: spec_fn(int, int) -> bool,
    weight: int,
    x: int,
    y: int,
)
    requires
        dims.spec_contains(x, y),
        weight >= 0,
        seeds_within(dims, seeds, is_seed),
        forall|sx: int, sy: int| #[trigger]
            is_seed(sx, sy) ==> spec_dist2(x, y, sx, sy) * 65536 >= (weight + 128) * (weight + 128),
    ensures
        spec_opacity(weight, x, y, seeds[(x, y)]) == 0,
{
    match seeds[(x, y)] {
        Texel::Sentinel => {
            lemma_opacity_zero_outside(0, 128);
        },
        Texel::Seed { x: sx, y: sy } => {
            assert(is_seed(sx as int, sy as int));
            let d2: int = spec_dist2(x, y, sx as int, sy as int);
            let n: nat = (d2 * 65536) as nat;
            lemma_isqrt_exists(n);
            let r: int = spec_isqrt(n) as int;
            let reach: int = weight + 128;
            if r < reach {
                assert((r + 1) * (r + 1) <= reach * reach) by (nonlinear_arith)
                    requires
                        0 <= r,
                        r + 1 <= reach,
                ;
            }
            lemma_opacity_zero_outside(weight, r);
        },
    }
}

} // verus!
