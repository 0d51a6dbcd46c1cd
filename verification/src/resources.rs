//! The buffers that the pipeline owns, and their lifetime across changes of
//! resolution.

use crate::coverage::{CoverageBuffer, FULLY_COVERED};
use crate::dimensions::Dimensions;
use crate::error::OutlineError;
use crate::mask::{mask_pass, touches, Fragment};
use crate::outline::{composite, spec_composite, OutlineParams};
use crate::jfa::flood;
use crate::pingpong::{PingPong, Slot};
use crate::seed::{seeded_field, Texel};
use crate::steps::spec_step_sequence;
use crate::target::ColorTarget;
use vstd::prelude::*;

verus! {

/// The resolution descriptor together with the coverage buffer and the two
/// seed buffers, which always have that resolution.
pub struct OutlineResources {
    dimensions: Dimensions,
    mask_output: CoverageBuffer,
    jfa_output: PingPong,
}

impl OutlineResources {
    /// Every buffer has the size that the resolution descriptor states.
    pub closed spec fn wf(self) -> bool {
        &&& self.jfa_output.wf()
        &&& self.mask_output.dims() == self.dimensions
        &&& self.jfa_output.dims() == self.dimensions
    }

    /// The resolution descriptor.
    pub closed spec fn dims(self) -> Dimensions {
        self.dimensions
    }

    /// The coverage buffer.
    pub closed spec fn mask(self) -> CoverageBuffer {
        self.mask_output
    }

    /// The pair of seed buffers.
    pub closed spec fn seeds(self) -> PingPong {
        self.jfa_output
    }

    /// In a well-formed set of resources the coverage buffer and both seed
    /// buffers have the size of the resolution descriptor.
    pub proof fn lemma_sizes_agree(self)
        requires
            self.wf(),
        ensures
            self.mask().dims() == self.dims(),
            self.seeds().dims() == self.dims(),
            self.seeds().wf(),
            self.dims().spec_encodable(),
    {
        self.jfa_output.lemma_encodable();
    }

    /// Resources for a target of one pixel, the size before the first
    /// resolution is known.
    pub fn new() -> (resources: OutlineResources)
        ensures
            resources.wf(),
            resources.dims() == Dimensions::new(1, 1),
            resources.mask().is_blank(),
            resources.seeds().front() == Slot::Primary,
            forall|x: int, y: int, slot: Slot|
                resources.dims().spec_contains(x, y) ==> #[trigger] resources.seeds().content(
                    slot,
                )[(x, y)] == Texel::Sentinel,
    {
        let dimensions = Dimensions::new(1, 1);
        let mask_output = match CoverageBuffer::new(dimensions) {
            Some(b) => b,
            None => vstd::pervasive::unreached(),
        };
        let jfa_output = match PingPong::new(dimensions) {
            Some(p) => p,
            None => vstd::pervasive::unreached(),
        };
        OutlineResources { dimensions, mask_output, jfa_output }
    }

    /// The resolution descriptor.
    pub fn dimensions(&self) -> (dims: Dimensions)
        ensures
            dims == self.dims(),
    {
        self.dimensions
    }

    /// The coverage buffer.
    pub fn mask_output(&self) -> (mask: &CoverageBuffer)
        requires
            self.wf(),
        ensures
            *mask == self.mask(),
            mask.dims() == self.dims(),
    {
        &self.mask_output
    }

    /// The pair of seed buffers.
    pub fn jfa_output(&self) -> (seeds: &PingPong)
        requires
            self.wf(),
        ensures
            *seeds == self.seeds(),
            seeds.wf(),
            seeds.dims() == self.dims(),
    {
        &self.jfa_output
    }

    /// Runs one frame: mask, seed initialisation, the jump flood and the
    /// composite onto `target`. A target whose size differs from the current
    /// resolution is refused before any pass runs.
    pub fn render(
        &mut self,
        fragments: &Vec<Fragment>,
        params: &OutlineParams,
        target: &mut ColorTarget,
    ) -> (outcome: Result<(), OutlineError>)
        requires
            old(self).wf(),
        ensures
            final(self).wf(),
            final(self).dims() == old(self).dims(),
            final(target).dims() == old(target).dims(),
            outcome is Ok <==> old(target).dims() == old(self).dims(),
            outcome matches Err(e) ==> {
                &&& e == OutlineError::ResourceMismatch
                &&& *final(self) == *old(self)
                &&& final(target)@ == old(target)@
            },
            outcome is Ok ==> {
                &&& forall|x: int, y: int|
                    old(self).dims().spec_contains(x, y) ==> #[trigger] final(self).mask().value(
                        x,
                        y,
                    ) == (if touches(fragments@, x, y) {
                        FULLY_COVERED
                    } else {
                        0
                    })
                &&& final(self).seeds().current() == flood(
                    old(self).dims(),
                    seeded_field(final(self).mask()),
                    spec_step_sequence(old(self).dims().spec_max_extent()),
                )
                &&& final(self).seeds().front() == Slot::Primary.spec_after(
                    spec_step_sequence(old(self).dims().spec_max_extent()).len(),
                )
                &&& final(target)@ == spec_composite(
                    old(self).dims(),
                    final(self).seeds().current(),
                    *params,
                    old(target)@,
                )
            },
    {
        if target.dimensions() != self.dimensions {
            return Err(OutlineError::ResourceMismatch);
        }
        mask_pass(&mut self.mask_output, fragments);
        match self.jfa_output.seed(&self.mask_output) {
            Ok(()) => {},
            Err(_) => vstd::pervasive::unreached(),
        }
        self.jfa_output.flood();
        match composite(self.jfa_output.current_buffer(), params, target) {
            Ok(()) => {},
            Err(_) => vstd::pervasive::unreached(),
        }
        Ok(())
    }
}

/// What a change of the output resolution asks of the buffers.
#[derive(Clone, Copy, Debug, PartialEq, Eq, Structural)]
pub enum ResizeAction {
    /// The resolution is the current one: every buffer stays.
    Keep,
    /// Every buffer, and whatever is bound to one, is replaced by one of the
    /// given size.
    Rebuild(Dimensions),
    /// The resolution is not encodable: every buffer stays and the change is
    /// an error.
    Refuse,
}

/// Decides what a request for the resolution `width` by `height` asks of
/// buffers that currently have the size `current`.
pub fn plan_resize(current: Dimensions, width: u32, height: u32) -> (action: ResizeAction)
    ensures
        action == (if Dimensions::new(width, height) == current {
            ResizeAction::Keep
        } else if Dimensions::new(width, height).spec_encodable() {
            ResizeAction::Rebuild(Dimensions::new(width, height))
        } else {
            ResizeAction::Refuse
        }),
{
    let requested = Dimensions::new(width, height);
    if requested == current {
        ResizeAction::Keep
    } else if requested.encodable() {
        ResizeAction::Rebuild(requested)
    } else {
        ResizeAction::Refuse
    }
}

/// Brings the resources to the resolution `width` by `height`. When the
/// resolution is unchanged nothing happens and the result is `false`. When
/// it changes, the coverage buffer and both seed buffers are replaced
/// together by blank buffers of the new size and the result is `true`; if
/// the new size is not encodable, nothing is replaced.
pub fn recreate_outline_resources(
    outline: &mut OutlineResources,
    width: u32,
    height: u32,
) -> (outcome: Result<bool, OutlineError>)
    requires
        old(outline).wf(),
    ensures
        final(outline).wf(),
        outcome is Ok <==> Dimensions::new(width, height).spec_encodable(),
        outcome matches Err(e) ==> {
            &&& e == OutlineError::ResolutionTooLarge
            &&& *final(outline) == *old(outline)
        },
        outcome matches Ok(changed) ==> {
            &&& final(outline).dims() == Dimensions::new(width, height)
            &&& changed == (Dimensions::new(width, height) != old(outline).dims())
            &&& !changed ==> *final(outline) == *old(outline)
            &&& changed ==> {
                &&& final(outline).mask().is_blank()
                &&& final(outline).seeds().front() == Slot::Primary
                &&& forall|x: int, y: int, slot: Slot|
                    final(outline).dims().spec_contains(x, y) ==> #[trigger] final(
                        outline
                    ).seeds().content(slot)[(x, y)] == Texel::Sentinel
            }
        },
{
    proof {
        outline.lemma_sizes_agree();
    }
    match plan_resize(outline.dimensions, width, height) {
        ResizeAction::Keep => Ok(false),
        ResizeAction::Refuse => Err(OutlineError::ResolutionTooLarge),
        ResizeAction::Rebuild(dimensions) => {
            let mask_output = match CoverageBuffer::new(dimensions) {
                Some(b) => b,
                None => vstd::pervasive::unreached(),
            };
            let jfa_output = match PingPong::new(dimensions) {
                Some(p) => p,
                None => vstd::pervasive::unreached(),
            };
            outline.dimensions = dimensions;
            outline.mask_output = mask_output;
            outline.jfa_output = jfa_output;
            Ok(true)
        },
    }
}

} // verus!
