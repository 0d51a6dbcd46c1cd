//! The ordered chain of passes of one frame and what each reads and writes.

use crate::dimensions::{lemma_extent_bound, Dimensions};
use crate::pingpong::Slot;
use crate::steps::{lemma_step_sequence_valid, spec_step_sequence, step_sequence};
use vstd::prelude::*;

verus! {

/// One pass of the frame, with the seed buffers it is bound to.
#[derive(Clone, Copy, Debug, PartialEq, Eq, Structural)]
pub enum Pass {
    /// Rasterises the outlined meshes of the view into the coverage buffer.
    Mask,
    /// Turns the coverage buffer into seeds in `write`.
    SeedInit { write: Slot },
    /// Floods at jump distance `step` from `read` into `write`.
    JumpFlood { step: u32, read: Slot, write: Slot },
    /// Blends the outline found in `read` onto the colour target.
    Composite { read: Slot },
}

/// What a pass reads or writes.
#[derive(Clone, Copy, Debug, PartialEq, Eq, Structural)]
pub enum Resource {
    /// The view whose outlined meshes are drawn.
    View,
    /// The coverage buffer.
    Coverage,
    /// One of the two seed buffers.
    Seeds(Slot),
    /// The colour target, which the pipeline does not own.
    Target,
}

impl Pass {
    /// What the pass reads, the product of the pass before it first.
    pub open spec fn spec_inputs(self) -> Seq<Resource> {
        match self {
            Pass::Mask => seq![Resource::View],
            Pass::SeedInit { write } => seq![Resource::Coverage],
            Pass::JumpFlood { step, read, write } => seq![Resource::Seeds(read)],
            Pass::Composite { read } => seq![Resource::Seeds(read), Resource::View, Resource::Target],
        }
    }

    /// What the pass writes.
    pub open spec fn spec_output(self) -> Resource {
        match self {
            Pass::Mask => Resource::Coverage,
            Pass::SeedInit { write } => Resource::Seeds(write),
            Pass::JumpFlood { step, read, write } => Resource::Seeds(write),
            Pass::Composite { read } => Resource::Target,
        }
    }

    /// The seed buffer that the pass reads, if it reads one.
    pub open spec fn reads(self) -> Option<Slot> {
        match self {
            Pass::Mask => None,
            Pass::SeedInit { write } => None,
            Pass::JumpFlood { step, read, write } => Some(read),
            Pass::Composite { read } => Some(read),
        }
    }

    /// The seed buffer that the pass writes, if it writes one.
    pub open spec fn writes(self) -> Option<Slot> {
        match self {
            Pass::Mask => None,
            Pass::SeedInit { write } => Some(write),
            Pass::JumpFlood { step, read, write } => Some(write),
            Pass::Composite { read } => None,
        }
    }

    /// What the pass reads, the product of the pass before it first.
    pub fn inputs(&self) -> (inputs: Vec<Resource>)
        ensures
            inputs@ == self.spec_inputs(),
    {
        let mut inputs: Vec<Resource> = Vec::new();
        match self {
            Pass::Mask => {
                inputs.push(Resource::View);
            },
            Pass::SeedInit { write: _ } => {
                inputs.push(Resource::Coverage);
            },
            Pass::JumpFlood { step: _, read, write: _ } => {
                inputs.push(Resource::Seeds(*read));
            },
            Pass::Composite { read } => {
                inputs.push(Resource::Seeds(*read));
                inputs.push(Resource::View);
                inputs.push(Resource::Target);
            },
        }
        assert(inputs@ =~= self.spec_inputs());
        inputs
    }

    /// What the pass writes.
    pub fn output(&self) -> (output: Resource)
        ensures
            output == self.spec_output(),
    {
        match self {
            Pass::Mask => Resource::Coverage,
            Pass::SeedInit { write } => Resource::Seeds(*write),
            Pass::JumpFlood { step: _, read: _, write } => Resource::Seeds(*write),
            Pass::Composite { read: _ } => Resource::Target,
        }
    }
}

/// The passes of one frame at the given resolution: mask, seed
/// initialisation into the primary buffer, one jump flood pass per jump
/// distance with the two buffers swapping roles each time, and the
/// composite reading the buffer written last.
pub open spec fn spec_outline(dims: Dimensions) -> Seq<Pass> {
    let steps = spec_step_sequence(dims.spec_max_extent());
    Seq::new(
        steps.len() + 3,
        |i: int|
            if i == 0 {
                Pass::Mask
            } else if i == 1 {
                Pass::SeedInit { write: Slot::Primary }
            } else if i < steps.len() + 2 {
                Pass::JumpFlood {
                    step: steps[i - 2],
                    read: Slot::Primary.spec_after((i - 2) as nat),
                    write: Slot::Primary.spec_after((i - 1) as nat),
                }
            } else {
                Pass::Composite { read: Slot::Primary.spec_after(steps.len()) }
            },
    )
}

/// The passes of one frame at the given resolution, in submission order.
pub fn outline(dims: Dimensions) -> (passes: Vec<Pass>)
    ensures
        passes@ == spec_outline(dims),
{
    let steps = step_sequence(dims.max_extent());
    let ghost goal = spec_outline(dims);
    proof {
        lemma_extent_bound(dims);
        lemma_step_sequence_valid(dims.spec_max_extent());
    }
    let mut passes: Vec<Pass> = Vec::new();
    passes.push(Pass::Mask);
    passes.push(Pass::SeedInit { write: Slot::Primary });
    let mut read = Slot::Primary;
    let mut i: usize = 0;
    while i < steps.len()
        invariant
            i <= steps@.len(),
            steps@.len() <= 32,
            steps@ == spec_step_sequence(dims.spec_max_extent()),
            goal == spec_outline(dims),
            passes@.len() == i + 2,
            read == Slot::Primary.spec_after(i as nat),
            forall|j: int| 0 <= j < i + 2 ==> #[trigger] passes@[j] == goal[j],
        decreases steps@.len() - i,
    {
        let write = read.other();
        passes.push(Pass::JumpFlood { step: steps[i], read, write });
        read = write;
        i = i + 1;
    }
    passes.push(Pass::Composite { read });
    assert(passes@ =~= goal);
    passes
}

/// The chain is one-directional: it opens with the mask and seed
/// initialisation, ends with the composite, and everything between is a
/// jump flood pass.
pub proof fn lemma_outline_order(dims: Dimensions)
    ensures
        spec_outline(dims).len() >= 4,
        spec_outline(dims)[0] == Pass::Mask,
        spec_outline(dims)[1] == (Pass::SeedInit { write: Slot::Primary }),
        spec_outline(dims).last() is Composite,
        forall|i: int|
            2 <= i < spec_outline(dims).len() - 1 ==> #[trigger] spec_outline(dims)[i] is JumpFlood,
{
    lemma_extent_bound(dims);
    lemma_step_sequence_valid(dims.spec_max_extent());
}

/// No pass reads the buffer that it writes, but for the composite, which
/// blends over the colour target that it loads.
pub proof fn lemma_outline_no_hazard(dims: Dimensions, i: int, k: int)
    requires
        0 <= i < spec_outline(dims).len(),
        0 <= k < spec_outline(dims)[i].spec_inputs().len(),
    ensures
        spec_outline(dims)[i].spec_inputs()[k] == spec_outline(dims)[i].spec_output() ==> (
        spec_outline(dims)[i] is Composite && spec_outline(dims)[i].spec_output()
            == Resource::Target),
        spec_outline(dims)[i].reads() is Some ==> spec_outline(dims)[i].reads() != spec_outline(
            dims,
        )[i].writes(),
{
}

/// Data flows one way along the chain: the first thing a pass reads is
/// what the pass before it wrote, and a pass that reads a seed buffer reads
/// the one written last.
pub proof fn lemma_outline_dependencies(dims: Dimensions, i: int)
    requires
        1 <= i < spec_outline(dims).len(),
    ensures
        spec_outline(dims)[i].spec_inputs()[0] == spec_outline(dims)[i - 1].spec_output(),
        i >= 2 ==> spec_outline(dims)[i].reads() is Some && spec_outline(dims)[i].reads()
            == spec_outline(dims)[i - 1].writes(),
{
    lemma_extent_bound(dims);
    lemma_step_sequence_valid(dims.spec_max_extent());
}

/// The jump distances of the chain are those of the resolution, largest
/// first.
pub proof fn lemma_outline_steps(dims: Dimensions, i: int)
    requires
        0 <= i < spec_step_sequence(dims.spec_max_extent()).len(),
    ensures
        spec_outline(dims)[i + 2] matches Pass::JumpFlood { step, read, write } && step
            == spec_step_sequence(dims.spec_max_extent())[i],
{
}

/// Which of the things a frame needs are at hand.
#[derive(Clone, Copy, Debug, PartialEq, Eq, Structural)]
pub struct Readiness {
    /// The mask pass's program has been compiled.
    pub mask: bool,
    /// The seed initialisation pass's program has been compiled.
    pub seed_init: bool,
    /// The jump flood pass's program has been compiled.
    pub jump_flood: bool,
    /// The composite pass's program has been compiled.
    pub composite: bool,
    /// The view has a colour target to blend into.
    pub target: bool,
}

/// What to do with the current frame.
#[derive(Clone, Copy, Debug, PartialEq, Eq, Structural)]
pub enum FrameAction {
    /// Submit every pass of the chain.
    Run,
    /// Submit nothing: the frame shows no outline.
    Skip,
}

/// Decides whether the frame's chain of passes runs. It runs in full when
/// every program and the colour target are at hand, and is skipped as a
/// whole otherwise.
pub fn plan_frame(ready: Readiness) -> (action: FrameAction)
    ensures
        action == FrameAction::Run <==> (ready.mask && ready.seed_init && ready.jump_flood
            && ready.composite && ready.target),
{
    if ready.mask && ready.seed_init && ready.jump_flood && ready.composite && ready.target {
        FrameAction::Run
    } else {
        FrameAction::Skip
    }
}

} // verus!
