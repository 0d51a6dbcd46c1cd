//! Failures of the outline pipeline.

use vstd::prelude::*;

verus! {

/// Why the pipeline refused to run or to change its resources.
#[derive(Clone, Copy, Debug, PartialEq, Eq, Structural)]
pub enum OutlineError {
    /// The colour target's format cannot serve as a blended render attachment.
    UnusableTargetFormat,
    /// Buffers that must agree in size do not.
    ResourceMismatch,
    /// The requested resolution has coordinates that a seed texel cannot hold.
    ResolutionTooLarge,
}

impl OutlineError {
    /// A short description of the failure.
    pub fn message(&self) -> (text: String)
        ensures
            text@ == (match *self {
                OutlineError::UnusableTargetFormat => "invalid format for the outline target"@,
                OutlineError::ResourceMismatch => "outline buffers disagree in size"@,
                OutlineError::ResolutionTooLarge => "resolution exceeds the seed buffer's coordinate range"@,
            }),
    {
        match self {
            OutlineError::UnusableTargetFormat => "invalid format for the outline target".to_string(),
            OutlineError::ResourceMismatch => "outline buffers disagree in size".to_string(),
            OutlineError::ResolutionTooLarge => {
                "resolution exceeds the seed buffer's coordinate range".to_string()
            },
        }
    }
}

} // verus!
