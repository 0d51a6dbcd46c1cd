//! The jump flood pass and its iteration over the jump distance sequence.

use crate::dimensions::{lemma_index_in_range, Dimensions};
use crate::error::OutlineError;
use crate::seed::{sample_clamped, SeedBuffer, Texel};
use vstd::prelude::*;

verus! {

/// Squared Euclidean distance between pixels `(px, py)` and `(qx, qy)`.
pub open spec fn spec_dist2(px: int, py: int, qx: int, qy: int) -> int {
    (px - qx) * (px - qx) + (py - qy) * (py - qy)
}

/// Horizontal offset, in jump distances, of the `k`-th of the nine samples.
pub open spec fn offset_x(k: int) -> int {
    k % 3 - 1
}

/// Vertical offset, in jump distances, of the `k`-th of the nine samples.
pub open spec fn offset_y(k: int) -> int {
    k / 3 - 1
}

/// The `k`-th texel that pixel `(x, y)` samples at jump distance `step`.
pub open spec fn candidate(
    dims: Dimensions,
    field: Map<(int, int), Texel>,
    x: int,
    y: int,
    step: int,
    k: int,
) -> Texel {
    sample_clamped(dims, field, x + offset_x(k) * step, y + offset_y(k) * step)
}

/// Which of two texels pixel `(x, y)` keeps: the sentinel loses against any
/// seed, and of two seeds the newcomer wins only when it is strictly closer.
pub open spec fn closer(x: int, y: int, best: Texel, next: Texel) -> Texel {
    match next {
        Texel::Sentinel => best,
        Texel::Seed { x: nx, y: ny } => match best {
            Texel::Sentinel => next,
            Texel::Seed { x: bx, y: by } => if spec_dist2(x, y, nx as int, ny as int) < spec_dist2(
                x,
                y,
                bx as int,
                by as int,
            ) {
                next
            } else {
                best
            },
        },
    }
}

/// The texel that pixel `(x, y)` keeps after looking at its first `n` samples.
pub open spec fn best_candidate(
    dims: Dimensions,
    field: Map<(int, int), Texel>,
    x: int,
    y: int,
    step: int,
    n: nat,
) -> Texel
    decreases n,
{
    if n == 0 {
        Texel::Sentinel
    } else {
        closer(
            x,
            y,
            best_candidate(dims, field, x, y, step, (n - 1) as nat),
            candidate(dims, field, x, y, step, n - 1),
        )
    }
}

/// One jump flood pass at distance `step`: every pixel keeps the nearest of
/// the seeds found in its nine samples.
pub open spec fn flood_step(dims: Dimensions, field: Map<(int, int), Texel>, step: int) -> Map<
    (int, int),
    Texel,
> {
    Map::new(
        |p: (int, int)| dims.spec_contains(p.0, p.1),
        |p: (int, int)| best_candidate(dims, field, p.0, p.1, step, 9),
    )
}

/// The passes for `steps`, applied in order.
pub open spec fn flood(dims: Dimensions, field: Map<(int, int), Texel>, steps: Seq<u32>) -> Map<
    (int, int),
    Texel,
>
    decreases steps.len(),
{
    if steps.len() == 0 {
        field
    } else {
        flood_step(dims, flood(dims, field, steps.drop_last()), steps.last() as int)
    }
}

/// Squared Euclidean distance between pixels `(px, py)` and `(qx, qy)`.
pub fn dist2(px: u32, py: u32, qx: u32, qy: u32) -> (d: u128)
    ensures
        d == spec_dist2(px as int, py as int, qx as int, qy as int),
{
    let dx: u128 = if px >= qx {
        (px - qx) as u128
    } else {
        (qx - px) as u128
    };
    let dy: u128 = if py >= qy {
        (py - qy) as u128
    } else {
        (qy - py) as u128
    };
    assert(dx * dx <= 0xffff_ffff * 0xffff_ffff && dx * dx == (px - qx) * (px - qx))
        by (nonlinear_arith)
        requires
            dx <= 0xffff_ffff,
            dx == px - qx || dx == qx - px,
    ;
    assert(dy * dy <= 0xffff_ffff * 0xffff_ffff && dy * dy == (py - qy) * (py - qy))
        by (nonlinear_arith)
        requires
            dy <= 0xffff_ffff,
            dy == py - qy || dy == qy - py,
    ;
    dx * dx + dy * dy
}

/// Which of two texels pixel `(x, y)` keeps.
pub fn pick_closer(x: u32, y: u32, best: Texel, next: Texel) -> (kept: Texel)
    ensures
        kept == closer(x as int, y as int, best, next),
{
    match next {
        Texel::Sentinel => best,
        Texel::Seed { x: nx, y: ny } => match best {
            Texel::Sentinel => next,
            Texel::Seed { x: bx, y: by } => if dist2(x, y, nx, ny) < dist2(x, y, bx, by) {
                next
            } else {
                best
            },
        },
    }
}

/// The texel that pixel `(x, y)` of `read` keeps at jump distance `step`.
pub fn nearest_candidate(read: &SeedBuffer, x: u32, y: u32, step: u32) -> (kept: Texel)
    requires
        read.wf(),
        read.dims().spec_contains(x as int, y as int),
    ensures
        kept == best_candidate(read.dims(), read@, x as int, y as int, step as int, 9),
        kept matches Texel::Seed { x: sx, y: sy } ==> read.dims().spec_contains(
            sx as int,
            sy as int,
        ),
{
    proof {
        lemma_index_in_range(read.dims(), x as int, y as int);
    }
    let mut best = Texel::Sentinel;
    let mut k: i64 = 0;
    while k < 9
        invariant
            0 <= k <= 9,
            read.wf(),
            read.dims().spec_pixel_count() > 0,
            best == best_candidate(read.dims(), read@, x as int, y as int, step as int, k as nat),
            best matches Texel::Seed { x: sx, y: sy } ==> read.dims().spec_contains(
                sx as int,
                sy as int,
            ),
        decreases 9 - k,
    {
        let ox: i64 = k % 3 - 1;
        let oy: i64 = k / 3 - 1;
        assert(ox * (step as i64) == offset_x(k as int) * (step as int) && -0xffff_ffff <= ox * (
        step as i64) <= 0xffff_ffff) by (nonlinear_arith)
            requires
                -1 <= ox <= 1,
                ox == offset_x(k as int),
                0 <= step <= 0xffff_ffff,
        ;
        assert(oy * (step as i64) == offset_y(k as int) * (step as int) && -0xffff_ffff <= oy * (
        step as i64) <= 0xffff_ffff) by (nonlinear_arith)
            requires
                -1 <= oy <= 1,
                oy == offset_y(k as int),
                0 <= step <= 0xffff_ffff,
        ;
        let sx: i64 = x as i64 + ox * (step as i64);
        let sy: i64 = y as i64 + oy * (step as i64);
        let next = read.sample(sx, sy);
        best = pick_closer(x, y, best, next);
        k = k + 1;
    }
    best
}

/// One jump flood pass at distance `step` from `read` into `write`, which is
/// overwritten in full. Buffers of unequal size are refused, and `write` is
/// left as it was.
pub fn jump_flood_pass(read: &SeedBuffer, write: &mut SeedBuffer, step: u32) -> (outcome: Result<
    (),
    OutlineError,
>)
    requires
        read.wf(),
        old(write).wf(),
    ensures
        final(write).wf(),
        final(write).dims() == old(write).dims(),
        outcome is Ok <==> old(write).dims() == read.dims(),
        outcome matches Err(e) ==> e == OutlineError::ResourceMismatch && *final(write) == *old(
            write,
        ),
        outcome is Ok ==> final(write)@ == flood_step(read.dims(), read@, step as int),
{
    let dims = read.dimensions();
    if write.dimensions() != dims {
        return Err(OutlineError::ResourceMismatch);
    }
    let w: u32 = dims.width();
    let h: u32 = dims.height();
    let ghost target = flood_step(dims, read@, step as int);
    let mut y: u32 = 0;
    while y < h
        invariant
            y <= h,
            w == dims.spec_width(),
            h == dims.spec_height(),
            read.wf(),
            write.wf(),
            dims == read.dims(),
            write.dims() == dims,
            target == flood_step(dims, read@, step as int),
            forall|a: int, b: int|
                dims.spec_contains(a, b) && b < y ==> #[trigger] write@[(a, b)] == target[(a, b)],
        decreases h - y,
    {
        let mut x: u32 = 0;
        while x < w
            invariant
                y < h,
                x <= w,
                w == dims.spec_width(),
                h == dims.spec_height(),
                read.wf(),
                write.wf(),
                dims == read.dims(),
                write.dims() == dims,
                target == flood_step(dims, read@, step as int),
                forall|a: int, b: int|
                    dims.spec_contains(a, b) && (b < y || (b == y && a < x)) ==> #[trigger] write@[(
                        a,
                        b,
                    )] == target[(a, b)],
            decreases w - x,
        {
            let kept = nearest_candidate(read, x, y, step);
            write.store(x, y, kept);
            x = x + 1;
        }
        y = y + 1;
    }
    proof {
        write.lemma_view_valid();
        assert(write@ =~= target);
    }
    Ok(())
}

} // verus!
