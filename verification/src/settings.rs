//! Performance and visual quality settings.

use vstd::prelude::*;

verus! {

/// Performance and visual quality settings for the outlines.
#[derive(Clone, Copy, Debug, PartialEq, Eq, Structural)]
pub struct OutlineSettings {
    half_resolution: bool,
}

impl OutlineSettings {
    /// Whether the half-resolution setting is enabled.
    pub closed spec fn spec_half_resolution(self) -> bool {
        self.half_resolution
    }

    /// Returns whether the half-resolution setting is enabled.
    pub fn half_resolution(&self) -> (enabled: bool)
        ensures
            enabled == self.spec_half_resolution(),
    {
        self.half_resolution
    }

    /// Sets whether the half-resolution setting is enabled.
    pub fn set_half_resolution(&mut self, value: bool)
        ensures
            final(self).spec_half_resolution() == value,
    {
        self.half_resolution = value;
    }
}

impl Default for OutlineSettings {
    /// Settings with half resolution switched off.
    fn default() -> (settings: OutlineSettings)
        ensures
            !settings.spec_half_resolution(),
    {
        OutlineSettings { half_resolution: false }
    }
}

} // verus!
