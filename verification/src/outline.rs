//! The outline composite pass: distance to the nearest seed, opacity and
//! blending, in fixed-point arithmetic.

use crate::dimensions::Dimensions;
use crate::error::OutlineError;
use crate::jfa::{dist2, spec_dist2};
use crate::seed::{field_domain, SeedBuffer, Texel};
use crate::target::{ColorTarget, Rgba8};
use vstd::prelude::*;

verus! {

/// Fixed-point units per pixel for distances and widths.
pub const SUBPIXEL: u32 = 256;

/// Half the width, in fixed-point units, of the band around the outline's
/// edge over which it fades out.
pub const HALF_BAND: u32 = 128;

/// Style of an outline: its colour, and its width in units of
/// 1/[`SUBPIXEL`] pixel.
#[derive(Clone, Copy, Debug, PartialEq, Eq, Structural)]
pub struct OutlineParams {
    pub color: Rgba8,
    pub weight: u32,
}

impl OutlineParams {
    /// A style with the given colour and width.
    pub fn new(color: Rgba8, weight: u32) -> (params: OutlineParams)
        ensures
            params.color == color,
            params.weight == weight,
    {
        OutlineParams { color, weight }
    }
}

/// Whether `r` is the integer square root of `n`.
pub open spec fn is_isqrt(n: int, r: int) -> bool {
    0 <= r && r * r <= n < (r + 1) * (r + 1)
}

/// The integer square root of `n`: the largest `r` with `r * r <= n`.
pub open spec fn spec_isqrt(n: nat) -> nat {
    choose|r: nat| is_isqrt(n as int, r as int)
}

/// A number has at most one integer square root.
pub proof fn lemma_isqrt_unique(n: int, r: int, s: int)
    requires
        is_isqrt(n, r),
        is_isqrt(n, s),
    ensures
        r == s,
{
    if r < s {
        assert((r + 1) * (r + 1) <= s * s) by (nonlinear_arith)
            requires
                0 <= r,
                r + 1 <= s,
        ;
    } else if s < r {
        assert((s + 1) * (s + 1) <= r * r) by (nonlinear_arith)
            requires
                0 <= s,
                s + 1 <= r,
        ;
    }
}

/// The integer square root grows with its argument.
pub proof fn lemma_isqrt_monotonic(n: int, r: int, m: int, s: int)
    requires
        is_isqrt(n, r),
        is_isqrt(m, s),
        n <= m,
    ensures
        r <= s,
{
    if s < r {
        assert((s + 1) * (s + 1) <= r * r) by (nonlinear_arith)
            requires
                0 <= s,
                s + 1 <= r,
        ;
    }
}

/// The integer square root of `n`.
pub fn isqrt(n: u128) -> (r: u64)
    ensures
        is_isqrt(n as int, r as int),
        r == spec_isqrt(n as nat),
{
    let mut lo: u128 = 0;
    let mut hi: u128 = 0x1_0000_0000_0000_0000;
    assert(0x1_0000_0000_0000_0000 * 0x1_0000_0000_0000_0000 > u128::MAX) by (nonlinear_arith);
    while hi - lo > 1
        invariant
            lo < hi <= 0x1_0000_0000_0000_0000,
            lo * lo <= n < hi * hi,
        decreases hi - lo,
    {
        let mid: u128 = lo + (hi - lo) / 2;
        assert(mid * mid <= 0xffff_ffff_ffff_ffff * 0xffff_ffff_ffff_ffff) by (nonlinear_arith)
            requires
                0 <= mid <= 0xffff_ffff_ffff_ffff,
        ;
        if mid * mid <= n {
            lo = mid;
        } else {
            hi = mid;
        }
    }
    proof {
        assert(is_isqrt(n as int, lo as int));
        let witness: nat = lo as nat;
        assert(is_isqrt(n as int, witness as int));
        lemma_isqrt_unique(n as int, lo as int, spec_isqrt(n as nat) as int);
    }
    lo as u64
}

/// Distance, in fixed-point units and rounded down, that belongs to the
/// squared pixel distance `d2`.
pub open spec fn spec_fixed_distance(d2: int) -> nat {
    spec_isqrt((d2 * 65536) as nat)
}

/// How far inside the outer edge of the fade band a pixel at fixed-point
/// distance `dist` lies, clamped to the band: `0` at and beyond the outer
/// edge, `2 * HALF_BAND` at and within the inner edge.
pub open spec fn spec_ramp(weight: int, dist: int) -> int {
    let t: int = weight + 128 - dist;
    if t < 0 {
        0
    } else if t > 256 {
        256
    } else {
        t
    }
}

/// The smooth step `3 t^2 - 2 t^3` over the band, scaled to eight bits.
pub open spec fn spec_smooth(t: int) -> int {
    t * t * (768 - 2 * t) * 255 / 16777216
}

/// Opacity, in eight bits, of the outline at a pixel whose nearest seed is
/// at fixed-point distance `dist`.
pub open spec fn spec_opacity_at(weight: int, dist: int) -> int {
    spec_smooth(spec_ramp(weight, dist))
}

/// Opacity, in eight bits, of the outline at pixel `(x, y)` given the texel
/// that the flood left there. The sentinel is infinitely far: no outline.
pub open spec fn spec_opacity(weight: int, x: int, y: int, texel: Texel) -> int {
    match texel {
        Texel::Sentinel => 0,
        Texel::Seed { x: sx, y: sy } => spec_opacity_at(
            weight,
            spec_fixed_distance(spec_dist2(x, y, sx as int, sy as int)) as int,
        ),
    }
}

/// Product of two eight-bit fractions, rounded to the nearest.
pub open spec fn spec_scale(a: int, b: int) -> int {
    (a * b + 127) / 255
}

/// Source-over blend of one channel: `src * alpha + dst * (1 - alpha)`,
/// rounded to the nearest.
pub open spec fn spec_mix(src: int, dst: int, alpha: int) -> int {
    (src * alpha + dst * (255 - alpha) + 127) / 255
}

/// The style's colour at the given opacity blended over `dst`. Colour
/// channels are mixed source-over; the alpha channel takes the source alpha.
pub open spec fn spec_blend(color: Rgba8, opacity: int, dst: Rgba8) -> Rgba8 {
    let alpha: int = spec_scale(opacity, color.a as int);
    Rgba8 {
        r: spec_mix(color.r as int, dst.r as int, alpha) as u8,
        g: spec_mix(color.g as int, dst.g as int, alpha) as u8,
        b: spec_mix(color.b as int, dst.b as int, alpha) as u8,
        a: alpha as u8,
    }
}

/// The composed image: every pixel of the target with the outline blended
/// over it.
pub open spec fn spec_composite(
    dims: Dimensions,
    seeds: Map<(int, int), Texel>,
    params: OutlineParams,
    target: Map<(int, int), Rgba8>,
) -> Map<(int, int), Rgba8> {
    Map::new(
        |p: (int, int)| dims.spec_contains(p.0, p.1),
        |p: (int, int)|
            spec_blend(
                params.color,
                spec_opacity(params.weight as int, p.0, p.1, seeds[p]),
                target[p],
            ),
    )
}

/// The cubic of the smooth step never exceeds its value at the inner edge.
pub proof fn lemma_smooth_bound(t: int)
    requires
        0 <= t <= 256,
    ensures
        0 <= t * t * (768 - 2 * t) <= 16777216,
        0 <= spec_smooth(t) <= 255,
{
    assert(16777216 - t * t * (768 - 2 * t) == (256 - t) * (256 - t) * (2 * t + 256))
        by (nonlinear_arith);
    assert((256 - t) * (256 - t) * (2 * t + 256) >= 0) by (nonlinear_arith)
        requires
            0 <= t <= 256,
    ;
    assert(t * t * (768 - 2 * t) >= 0) by (nonlinear_arith)
        requires
            0 <= t <= 256,
    ;
    let c: int = t * t * (768 - 2 * t);
    assert(0 <= c * 255 <= 16777216 * 255);
}

/// Opacity, in eight bits, of the outline at a pixel whose nearest seed is
/// at fixed-point distance `dist`.
pub fn opacity_at(weight: u32, dist: u64) -> (opacity: u8)
    ensures
        opacity == spec_opacity_at(weight as int, dist as int),
{
    let reach: u64 = weight as u64 + HALF_BAND as u64;
    let t: u64 = if dist >= reach {
        0
    } else if reach - dist > 2 * (HALF_BAND as u64) {
        2 * (HALF_BAND as u64)
    } else {
        reach - dist
    };
    assert(t == spec_ramp(weight as int, dist as int));
    proof {
        lemma_smooth_bound(t as int);
    }
    assert(t * t <= 65536) by (nonlinear_arith)
        requires
            0 <= t <= 256,
    ;
    let square: u64 = t * t;
    let cubic: u64 = square * (768 - 2 * t);
    let scaled: u64 = cubic * 255 / 16777216;
    scaled as u8
}

/// Opacity, in eight bits, of the outline at pixel `(x, y)` given the texel
/// that the flood left there.
pub fn opacity(weight: u32, x: u32, y: u32, texel: Texel) -> (opacity: u8)
    ensures
        opacity == spec_opacity(weight as int, x as int, y as int, texel),
{
    match texel {
        Texel::Sentinel => {
            proof {
                lemma_smooth_bound(0);
            }
            0
        },
        Texel::Seed { x: sx, y: sy } => {
            let d2: u128 = dist2(x, y, sx, sy);
            assert(d2 <= 2 * (0xffff_ffff * 0xffff_ffff)) by (nonlinear_arith)
                requires
                    d2 == (x - sx) * (x - sx) + (y - sy) * (y - sy),
                    -0xffff_ffff <= x - sx <= 0xffff_ffff,
                    -0xffff_ffff <= y - sy <= 0xffff_ffff,
            ;
            let dist: u64 = isqrt(d2 * 65536);
            opacity_at(weight, dist)
        },
    }
}

/// Product of two eight-bit fractions, rounded to the nearest.
pub fn scale(a: u8, b: u8) -> (product: u8)
    ensures
        product == spec_scale(a as int, b as int),
{
    assert(a * b <= 255 * 255) by (nonlinear_arith)
        requires
            0 <= a <= 255,
            0 <= b <= 255,
    ;
    ((a as u32 * b as u32 + 127) / 255) as u8
}

/// Source-over blend of one channel.
pub fn mix(src: u8, dst: u8, alpha: u8) -> (channel: u8)
    ensures
        channel == spec_mix(src as int, dst as int, alpha as int),
{
    assert(src * alpha + dst * (255 - alpha) <= 255 * 255) by (nonlinear_arith)
        requires
            0 <= src <= 255,
            0 <= dst <= 255,
            0 <= alpha <= 255,
    ;
    assert(0 <= src * alpha && 0 <= dst * (255 - alpha)) by (nonlinear_arith)
        requires
            0 <= src,
            0 <= dst,
            0 <= alpha <= 255,
    ;
    ((src as u32 * alpha as u32 + dst as u32 * (255 - alpha as u32) + 127) / 255) as u8
}

/// The style's colour at the given opacity blended over `dst`.
pub fn blend(color: Rgba8, opacity: u8, dst: Rgba8) -> (out: Rgba8)
    ensures
        out == spec_blend(color, opacity as int, dst),
{
    let alpha: u8 = scale(opacity, color.a);
    Rgba8 {
        r: mix(color.r, dst.r, alpha),
        g: mix(color.g, dst.g, alpha),
        b: mix(color.b, dst.b, alpha),
        a: alpha,
    }
}

/// The outline composite pass: blends the outline described by `seeds` and
/// `params` over the existing content of `target`. A target of another size
/// than the seed buffer is refused and left as it was.
pub fn composite(seeds: &SeedBuffer, params: &OutlineParams, target: &mut ColorTarget) -> (outcome:
    Result<(), OutlineError>)
    requires
        seeds.wf(),
    ensures
        final(target).dims() == old(target).dims(),
        outcome is Ok <==> seeds.dims() == old(target).dims(),
        outcome matches Err(e) ==> e == OutlineError::ResourceMismatch && final(target)@ == old(
            target,
        )@,
        outcome is Ok ==> final(target)@ == spec_composite(
            seeds.dims(),
            seeds@,
            *params,
            old(target)@,
        ),
{
    let dims = seeds.dimensions();
    if target.dimensions() != dims {
        return Err(OutlineError::ResourceMismatch);
    }
    let w: u32 = dims.width();
    let h: u32 = dims.height();
    let ghost goal = spec_composite(dims, seeds@, *params, old(target)@);
    let mut y: u32 = 0;
    while y < h
        invariant
            y <= h,
            w == dims.spec_width(),
            h == dims.spec_height(),
            seeds.wf(),
            seeds.dims() == dims,
            target.dims() == dims,
            target@.dom() =~= field_domain(dims),
            goal == spec_composite(dims, seeds@, *params, old(target)@),
            forall|a: int, b: int|
                dims.spec_contains(a, b) ==> #[trigger] target@[(a, b)] == (if b < y {
                    goal[(a, b)]
                } else {
                    old(target)@[(a, b)]
                }),
        decreases h - y,
    {
        let mut x: u32 = 0;
        while x < w
            invariant
                y < h,
                x <= w,
                w == dims.spec_width(),
                h == dims.spec_height(),
                seeds.wf(),
                seeds.dims() == dims,
                target.dims() == dims,
                target@.dom() =~= field_domain(dims),
                goal == spec_composite(dims, seeds@, *params, old(target)@),
                forall|a: int, b: int|
                    dims.spec_contains(a, b) ==> #[trigger] target@[(a, b)] == (if b < y || (b == y
                        && a < x) {
                        goal[(a, b)]
                    } else {
                        old(target)@[(a, b)]
                    }),
            decreases w - x,
        {
            let texel = seeds.get(x, y);
            let dst = match target.get(x, y) {
                Some(c) => c,
                None => vstd::pervasive::unreached(),
            };
            assert(dst == old(target)@[(x as int, y as int)]);
            let out = blend(params.color, opacity(params.weight, x, y, texel), dst);
            target.put(x, y, out);
            x = x + 1;
        }
        y = y + 1;
    }
    proof {
        assert(target@ =~= goal);
    }
    Ok(())
}

} // verus!
