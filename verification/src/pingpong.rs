//! The pair of seed buffers that the flood alternates between.

use crate::coverage::CoverageBuffer;
use crate::dimensions::{lemma_extent_bound, Dimensions};
use crate::error::OutlineError;
use crate::jfa::{flood, flood_step, jump_flood_pass};
use crate::seed::{seed_init_into, seeded_field, SeedBuffer, Texel};
use crate::steps::{lemma_step_sequence_valid, spec_step_sequence, step_sequence};
use vstd::prelude::*;

verus! {

/// Names one of the two seed buffers.
#[derive(Clone, Copy, Debug, PartialEq, Eq, Structural)]
pub enum Slot {
    Primary,
    Secondary,
}

impl Slot {
    /// The other buffer of the pair.
    pub open spec fn spec_other(self) -> Slot {
        match self {
            Slot::Primary => Slot::Secondary,
            Slot::Secondary => Slot::Primary,
        }
    }

    /// The other buffer of the pair.
    pub fn other(self) -> (slot: Slot)
        ensures
            slot == self.spec_other(),
    {
        match self {
            Slot::Primary => Slot::Secondary,
            Slot::Secondary => Slot::Primary,
        }
    }

    /// The buffer that holds the result after `passes` passes when `self`
    /// held the input: roles swap with every pass.
    pub open spec fn spec_after(self, passes: nat) -> Slot {
        if passes % 2 == 0 {
            self
        } else {
            self.spec_other()
        }
    }
}

/// Two seed buffers of one size and a selector that says which of them holds
/// the current seeds. A pass reads the selected buffer, writes the other and
/// then flips the selector, so no pass reads the buffer it writes.
pub struct PingPong {
    primary: SeedBuffer,
    secondary: SeedBuffer,
    front: Slot,
}

impl PingPong {
    /// Both buffers are well formed and of the same size.
    pub closed spec fn wf(self) -> bool {
        &&& self.primary.wf()
        &&& self.secondary.wf()
        &&& self.primary.dims() == self.secondary.dims()
    }

    /// The size of both buffers.
    pub closed spec fn dims(self) -> Dimensions {
        self.primary.dims()
    }

    /// The buffer that holds the current seeds.
    pub closed spec fn front(self) -> Slot {
        self.front
    }

    /// The content of the named buffer.
    pub closed spec fn content(self, slot: Slot) -> Map<(int, int), Texel> {
        match slot {
            Slot::Primary => self.primary@,
            Slot::Secondary => self.secondary@,
        }
    }

    /// The current seeds.
    pub open spec fn current(self) -> Map<(int, int), Texel> {
        self.content(self.front())
    }

    /// Well-formed buffers have an encodable size.
    pub proof fn lemma_encodable(self)
        requires
            self.wf(),
        ensures
            self.dims().spec_encodable(),
    {
        self.primary.lemma_view_valid();
    }

    /// A pair of buffers of the given size, every texel the sentinel, with
    /// the primary buffer selected; `None` when the size is not encodable.
    pub fn new(dims: Dimensions) -> (pair: Option<PingPong>)
        ensures
            pair is Some <==> dims.spec_encodable(),
            pair matches Some(p) ==> {
                &&& p.wf()
                &&& p.dims() == dims
                &&& p.front() == Slot::Primary
                &&& forall|x: int, y: int, slot: Slot|
                    dims.spec_contains(x, y) ==> #[trigger] p.content(slot)[(x, y)]
                        == Texel::Sentinel
            },
    {
        let primary = match SeedBuffer::new(dims) {
            Some(b) => b,
            None => {
                return None;
            },
        };
        let secondary = match SeedBuffer::new(dims) {
            Some(b) => b,
            None => {
                return None;
            },
        };
        let p = PingPong { primary, secondary, front: Slot::Primary };
        proof {
            assert forall|x: int, y: int, slot: Slot| dims.spec_contains(x, y) implies #[trigger] p.content(
                slot,
            )[(x, y)] == Texel::Sentinel by {
                assert(p.primary.texel(x, y) == Texel::Sentinel);
                assert(p.secondary.texel(x, y) == Texel::Sentinel);
            }
        }
        Some(p)
    }

    /// The size of both buffers.
    pub fn dimensions(&self) -> (dims: Dimensions)
        ensures
            dims == self.dims(),
    {
        self.primary.dimensions()
    }

    /// Which buffer holds the current seeds.
    pub fn selected(&self) -> (slot: Slot)
        ensures
            slot == self.front(),
    {
        self.front
    }

    /// The named buffer.
    pub fn buffer(&self, slot: Slot) -> (buffer: &SeedBuffer)
        requires
            self.wf(),
        ensures
            buffer.wf(),
            buffer.dims() == self.dims(),
            buffer@ == self.content(slot),
    {
        match slot {
            Slot::Primary => &self.primary,
            Slot::Secondary => &self.secondary,
        }
    }

    /// The buffer that holds the current seeds.
    pub fn current_buffer(&self) -> (buffer: &SeedBuffer)
        requires
            self.wf(),
        ensures
            buffer.wf(),
            buffer.dims() == self.dims(),
            buffer@ == self.current(),
    {
        self.buffer(self.front)
    }

    /// Runs seed initialisation into the primary buffer and selects it. A
    /// coverage buffer of another size is refused and leaves the pair as it
    /// was.
    pub fn seed(&mut self, coverage: &CoverageBuffer) -> (outcome: Result<(), OutlineError>)
        requires
            old(self).wf(),
        ensures
            final(self).wf(),
            final(self).dims() == old(self).dims(),
            outcome is Ok <==> coverage.dims() == old(self).dims(),
            outcome matches Err(e) ==> e == OutlineError::ResourceMismatch && *final(self) == *old(
                self,
            ),
            outcome is Ok ==> {
                &&& final(self).front() == Slot::Primary
                &&& final(self).current() == seeded_field(*coverage)
                &&& final(self).content(Slot::Secondary) == old(self).content(Slot::Secondary)
            },
    {
        match seed_init_into(coverage, &mut self.primary) {
            Ok(()) => {
                self.front = Slot::Primary;
                Ok(())
            },
            Err(e) => Err(e),
        }
    }

    /// One jump flood pass at distance `step`: reads the selected buffer,
    /// writes the other one and selects it.
    pub fn step(&mut self, step: u32)
        requires
            old(self).wf(),
        ensures
            final(self).wf(),
            final(self).dims() == old(self).dims(),
            final(self).front() == old(self).front().spec_other(),
            final(self).current() == flood_step(old(self).dims(), old(self).current(), step as int),
            final(self).content(old(self).front()) == old(self).current(),
    {
        let outcome = match self.front {
            Slot::Primary => jump_flood_pass(&self.primary, &mut self.secondary, step),
            Slot::Secondary => jump_flood_pass(&self.secondary, &mut self.primary, step),
        };
        match outcome {
            Ok(()) => {},
            Err(_) => vstd::pervasive::unreached(),
        }
        self.front = self.front.other();
    }

    /// Runs the whole flood: one pass for each jump distance of the buffers'
    /// size, largest first. The selector ends where the parity of the number
    /// of passes puts it.
    pub fn flood(&mut self)
        requires
            old(self).wf(),
        ensures
            final(self).wf(),
            final(self).dims() == old(self).dims(),
            final(self).current() == flood(
                old(self).dims(),
                old(self).current(),
                spec_step_sequence(old(self).dims().spec_max_extent()),
            ),
            final(self).front() == old(self).front().spec_after(
                spec_step_sequence(old(self).dims().spec_max_extent()).len(),
            ),
            final(self).content(final(self).front().spec_other()) == flood(
                old(self).dims(),
                old(self).current(),
                spec_step_sequence(old(self).dims().spec_max_extent()).drop_last(),
            ),
    {
        let dims = self.dimensions();
        let steps = step_sequence(dims.max_extent());
        let ghost start = self.current();
        let ghost first = self.front();
        proof {
            lemma_extent_bound(dims);
            lemma_step_sequence_valid(dims.spec_max_extent());
        }
        let mut i: usize = 0;
        while i < steps.len()
            invariant
                i <= steps@.len(),
                self.wf(),
                self.dims() == dims,
                self.current() == flood(dims, start, steps@.take(i as int)),
                self.front() == first.spec_after(i as nat),
                i > 0 ==> self.content(self.front().spec_other()) == flood(
                    dims,
                    start,
                    steps@.take(i - 1),
                ),
            decreases steps@.len() - i,
        {
            proof {
                assert(steps@.take(i + 1).drop_last() =~= steps@.take(i as int));
            }
            self.step(steps[i]);
            i = i + 1;
        }
        proof {
            assert(steps@.take(i as int) =~= steps@);
            assert(steps@.take(i - 1) =~= steps@.drop_last());
        }
    }
}

} // verus!
