//! The jump distance sequence that drives the flood.

use crate::dimensions::Dimensions;
use vstd::arithmetic::power2::{lemma2_to64, lemma_pow2_pos, lemma_pow2_unfold, pow2};
use vstd::prelude::*;

verus! {

/// Number of jump flood passes for a buffer whose larger side is `extent`.
pub open spec fn spec_step_count(extent: nat) -> nat
    decreases extent,
{
    if extent <= 2 {
        1
    } else {
        1 + spec_step_count((extent + 1) / 2)
    }
}

/// The jump distances for a buffer whose larger side is `extent`: powers of
/// two, each half of the one before, down to one.
pub open spec fn spec_step_sequence(extent: nat) -> Seq<u32> {
    let n: nat = spec_step_count(extent);
    Seq::new(n, |i: int| pow2((n - 1 - i) as nat) as u32)
}

/// The first jump distance is the smallest power of two that reaches at
/// least half of `extent`: doubled it spans the buffer, and unless it is one
/// it is itself shorter than the buffer's larger side.
pub proof fn lemma_first_step(extent: nat)
    ensures
        spec_step_count(extent) >= 1,
        2 * pow2((spec_step_count(extent) - 1) as nat) >= extent,
        spec_step_count(extent) == 1 || pow2((spec_step_count(extent) - 1) as nat) < extent,
    decreases extent,
{
    lemma2_to64();
    if extent > 2 {
        let half: nat = ((extent + 1) / 2) as nat;
        lemma_first_step(half);
        let m: nat = spec_step_count(half);
        lemma_pow2_unfold(m);
    }
}

/// For any size the sequence is non-empty, starts at the smallest power of
/// two whose double spans the larger side, halves at every position and
/// ends at one.
pub proof fn lemma_step_sequence_valid(extent: nat)
    requires
        extent <= u32::MAX,
    ensures
        spec_step_sequence(extent).len() == spec_step_count(extent),
        spec_step_sequence(extent).len() >= 1,
        spec_step_sequence(extent).len() <= 32,
        2 * spec_step_sequence(extent)[0] >= extent,
        spec_step_sequence(extent)[0] == 1 || spec_step_sequence(extent)[0] < extent,
        spec_step_sequence(extent).last() == 1,
        forall|i: int|
            0 <= i < spec_step_sequence(extent).len() ==> #[trigger] spec_step_sequence(extent)[i]
                == pow2((spec_step_sequence(extent).len() - 1 - i) as nat),
        forall|i: int|
            0 <= i < spec_step_sequence(extent).len() - 1 ==> #[trigger] spec_step_sequence(
                extent,
            )[i] == 2 * spec_step_sequence(extent)[i + 1],
{
    let n: nat = spec_step_count(extent);
    let steps = spec_step_sequence(extent);
    lemma_first_step(extent);
    lemma2_to64();
    let top: nat = pow2((n - 1) as nat);
    assert(top < 0x1_0000_0000);
    if n > 33 {
        vstd::arithmetic::power2::lemma_pow2_strictly_increases(32, (n - 1) as nat);
    }
    assert forall|i: int| 0 <= i < n implies #[trigger] steps[i] == pow2((n - 1 - i) as nat) by {
        let e: nat = (n - 1 - i) as nat;
        if e < n - 1 {
            vstd::arithmetic::power2::lemma_pow2_strictly_increases(e, (n - 1) as nat);
        }
    }
    assert forall|i: int| 0 <= i < n - 1 implies #[trigger] steps[i] == 2 * steps[i + 1] by {
        assert(steps[i + 1] == pow2((n - 1 - (i + 1)) as nat));
        lemma_pow2_unfold((n - 1 - i) as nat);
    }
    assert(steps.last() == steps[n - 1]);
}

/// The jump distances for a buffer whose larger side is `extent`, largest
/// first.
pub fn step_sequence(extent: u32) -> (steps: Vec<u32>)
    ensures
        steps@ == spec_step_sequence(extent as nat),
{
    proof {
        lemma_step_sequence_valid(extent as nat);
        lemma2_to64();
    }
    let ghost n = spec_step_count(extent as nat);
    let mut count: u32 = 1;
    let mut first: u32 = 1;
    let mut rest: u32 = extent;
    while rest > 2
        invariant
            1 <= count <= n <= 32,
            n == count - 1 + spec_step_count(rest as nat),
            first == pow2((count - 1) as nat),
        decreases rest,
    {
        proof {
            lemma2_to64();
            lemma_first_step(((rest + 1) / 2) as nat);
            assert(count <= n - 1);
            lemma_pow2_unfold(count as nat);
            if count < n - 1 {
                vstd::arithmetic::power2::lemma_pow2_strictly_increases(count as nat, (n - 1) as nat);
            }
            vstd::arithmetic::power2::lemma_pow2_strictly_increases((n - 1) as nat, 32);
        }
        rest = rest / 2 + rest % 2;
        first = first * 2;
        count = count + 1;
    }
    let mut steps: Vec<u32> = Vec::new();
    let mut step: u32 = first;
    let mut i: u32 = 0;
    while i < count
        invariant
            i <= count,
            count == n,
            n <= 32,
            steps@.len() == i,
            i < count ==> step == pow2((n - 1 - i) as nat),
            forall|j: int| 0 <= j < i ==> #[trigger] steps@[j] == spec_step_sequence(extent as nat)[j],
            spec_step_sequence(extent as nat).len() == n,
            forall|j: int|
                0 <= j < n ==> #[trigger] spec_step_sequence(extent as nat)[j] == pow2(
                    (n - 1 - j) as nat,
                ),
        decreases count - i,
    {
        steps.push(step);
        proof {
            if i + 1 < count {
                lemma_pow2_unfold((n - 1 - i) as nat);
            }
            lemma_pow2_pos((n - 1 - i) as nat);
        }
        step = step / 2;
        i = i + 1;
    }
    assert(steps@ =~= spec_step_sequence(extent as nat));
    steps
}

/// Number of jump distances that are held ready for the passes: the powers
/// of two from `1` to `32768`.
pub const JUMP_DISTANCE_COUNT: usize = 16;

/// The jump distances that are held ready for the passes, the `k`-th being
/// two to the power `k`.
pub fn jump_distance_table() -> (table: Vec<u32>)
    ensures
        table@.len() == JUMP_DISTANCE_COUNT,
        forall|k: int| 0 <= k < JUMP_DISTANCE_COUNT ==> #[trigger] table@[k] == pow2(k as nat),
{
    proof {
        lemma2_to64();
    }
    let mut table: Vec<u32> = Vec::new();
    let mut dist: u32 = 1;
    while table.len() < JUMP_DISTANCE_COUNT
        invariant
            table@.len() <= JUMP_DISTANCE_COUNT,
            dist == pow2(table@.len()),
            dist <= 65536,
            forall|k: int| 0 <= k < table@.len() ==> #[trigger] table@[k] == pow2(k as nat),
        decreases JUMP_DISTANCE_COUNT - table@.len(),
    {
        proof {
            lemma_pow2_unfold(table@.len() + 1);
            if table@.len() + 1 < 16 {
                vstd::arithmetic::power2::lemma_pow2_strictly_increases(table@.len() + 1, 16);
            }
            lemma2_to64();
        }
        table.push(dist);
        dist = dist * 2;
    }
    table
}

/// The place of `step` among the jump distances held ready, or `None` when
/// it is not one of them.
pub fn jump_distance_index(step: u32) -> (index: Option<usize>)
    ensures
        index matches Some(k) ==> k < JUMP_DISTANCE_COUNT && step == pow2(k as nat),
        index is None ==> forall|k: nat| k < JUMP_DISTANCE_COUNT ==> step != #[trigger] pow2(k),
{
    proof {
        lemma2_to64();
    }
    let mut k: usize = 0;
    let mut dist: u32 = 1;
    while k < JUMP_DISTANCE_COUNT
        invariant
            k <= JUMP_DISTANCE_COUNT,
            dist == pow2(k as nat),
            dist <= 65536,
            forall|j: nat| j < k ==> step != #[trigger] pow2(j),
        decreases JUMP_DISTANCE_COUNT - k,
    {
        if dist == step {
            return Some(k);
        }
        proof {
            lemma_pow2_unfold((k + 1) as nat);
            if k + 1 < 16 {
                vstd::arithmetic::power2::lemma_pow2_strictly_increases((k + 1) as nat, 16);
            }
            lemma2_to64();
        }
        dist = dist * 2;
        k = k + 1;
    }
    None
}

/// Every jump distance of an encodable size is one of the distances held
/// ready, so that a pass always finds its distance.
pub proof fn lemma_steps_in_table(dims: Dimensions, i: int)
    requires
        dims.spec_encodable(),
        0 <= i < spec_step_sequence(dims.spec_max_extent()).len(),
    ensures
        exists|k: nat|
            k < JUMP_DISTANCE_COUNT && spec_step_sequence(dims.spec_max_extent())[i]
                == #[trigger] pow2(k),
{
    let extent: nat = dims.spec_max_extent();
    let n: nat = spec_step_count(extent);
    lemma_step_sequence_valid(extent);
    lemma_first_step(extent);
    lemma2_to64();
    if n > 16 {
        vstd::arithmetic::power2::lemma_pow2_strictly_increases(15, (n - 1) as nat);
    }
    let k: nat = (n - 1 - i) as nat;
    assert(spec_step_sequence(extent)[i] == pow2(k));
}

} // verus!
