//! Which colour target formats the composite pass can be specialised for.

use crate::error::OutlineError;
use bevy::render::render_resource::{TextureFormat, TextureSampleType};
use bevy::render::texture::BevyDefault;
use vstd::prelude::*;

verus! {

/// Declares `TextureFormat` as an opaque type: a value of it is carried
/// through, and all that is said of it is said through [`format_traits`].
#[verifier::external_type_specification]
#[verifier::external_body]
pub struct ExTextureFormat(TextureFormat);

/// How shaders sample a texture of some format.
#[derive(Clone, Copy, Debug, PartialEq, Eq, Structural)]
pub enum SampleKind {
    Float { filterable: bool },
    Depth,
    Sint,
    Uint,
}

/// The bit that, in the usages of a texture, allows it to be the output
/// attachment of a render pass.
pub const RENDER_ATTACHMENT: u32 = 16;

/// The bit that, in the feature flags of a texture format, says that a
/// render target of the format can be blended into.
pub const BLENDABLE: u32 = 32;

/// What the composite pass needs to know of a texture format.
#[derive(Clone, Copy, Debug, PartialEq, Eq, Structural)]
pub struct FormatTraits {
    /// How shaders sample the format.
    pub sample: SampleKind,
    /// The usages that every device allows for a texture of the format, as
    /// a set of bits.
    pub allowed_usages: u32,
    /// The features that every device grants a texture of the format, as a
    /// set of bits.
    pub flags: u32,
}

impl FormatTraits {
    /// Whether a format with these traits can be the colour target of the
    /// composite pass, which renders to it and blends over what it holds:
    /// it is not a depth format, its allowed usages hold
    /// [`RENDER_ATTACHMENT`] and its feature flags hold [`BLENDABLE`].
    pub open spec fn usable(self) -> bool {
        &&& !(self.sample is Depth)
        &&& self.allowed_usages & RENDER_ATTACHMENT == RENDER_ATTACHMENT
        &&& self.flags & BLENDABLE == BLENDABLE
    }
}

/// What `TextureFormat::describe` reports of a format: its sample type and
/// the bits of its guaranteed allowed usages and feature flags. The report
/// is a table lookup on the format and on nothing else.
pub uninterp spec fn format_traits(format: TextureFormat) -> FormatTraits;

/// The traits of `TextureFormat::Rgba8UnormSrgb`: filterable float samples;
/// the usages copy source, copy destination, texture binding and render
/// attachment; the features filterable, multisample, multisample resolve
/// and blendable.
pub open spec fn default_target_traits() -> FormatTraits {
    FormatTraits {
        sample: SampleKind::Float { filterable: true },
        allowed_usages: 23,
        flags: 39,
    }
}

/// Looks the format up with `TextureFormat::describe` and hands back its
/// sample type and the bits of its guaranteed allowed usages and feature
/// flags. The claim is
/// that the result is [`format_traits`] of the format: that `describe`
/// depends on the format alone.
#[verifier::external_body]
fn describe_format(format: &TextureFormat) -> (traits: FormatTraits)
    ensures
        traits == format_traits(*format),
{
    let info = format.describe();
    FormatTraits {
        sample: match info.sample_type {
            TextureSampleType::Float { filterable } => SampleKind::Float { filterable },
            TextureSampleType::Depth => SampleKind::Depth,
            TextureSampleType::Sint => SampleKind::Sint,
            TextureSampleType::Uint => SampleKind::Uint,
        },
        allowed_usages: info.guaranteed_format_features.allowed_usages.bits(),
        flags: info.guaranteed_format_features.flags.bits(),
    }
}

/// The format that `BevyDefault::bevy_default` names as the default surface
/// format. The claim is that it is `TextureFormat::Rgba8UnormSrgb`, stated
/// by what `TextureFormat::describe` reports of that format.
#[verifier::external_body]
fn default_target_format() -> (format: TextureFormat)
    ensures
        format_traits(format) == default_target_traits(),
{
    TextureFormat::bevy_default()
}

/// The default surface format can be the colour target of the composite
/// pass.
pub proof fn lemma_default_target_usable()
    ensures
        default_target_traits().usable(),
{
    assert(23u32 & RENDER_ATTACHMENT == RENDER_ATTACHMENT) by (bit_vector);
    assert(39u32 & BLENDABLE == BLENDABLE) by (bit_vector);
}

/// Key under which the composite pass's pipeline is specialised: a colour
/// target format that the pass can blend into.
#[derive(Clone, Copy, Debug, PartialEq, Eq, Hash)]
pub struct OutlinePipelineKey {
    format: TextureFormat,
}

impl OutlinePipelineKey {
    /// The format of the colour target.
    pub closed spec fn format(self) -> TextureFormat {
        self.format
    }

    /// The key for `format`, whose traits are `traits`, or `None` when a
    /// format with those traits cannot be the colour target.
    pub fn for_traits(format: TextureFormat, traits: FormatTraits) -> (key: Option<OutlinePipelineKey>)
        ensures
            key is Some <==> traits.usable(),
            key matches Some(k) ==> k.format() == format,
    {
        match traits.sample {
            SampleKind::Depth => None,
            _ => if traits.allowed_usages & RENDER_ATTACHMENT == RENDER_ATTACHMENT && traits.flags
                & BLENDABLE == BLENDABLE {
                Some(OutlinePipelineKey { format })
            } else {
                None
            },
        }
    }

    /// The key for `format`, or `None` when the format cannot be the colour
    /// target of the composite pass: when it is a depth format, cannot be
    /// rendered to or cannot be blended into.
    pub fn new(format: TextureFormat) -> (key: Option<OutlinePipelineKey>)
        ensures
            key is Some <==> format_traits(format).usable(),
            key matches Some(k) ==> k.format() == format,
    {
        let traits = describe_format(&format);
        OutlinePipelineKey::for_traits(format, traits)
    }

    /// The key for `format`. A format that cannot be the colour target is a
    /// configuration error.
    pub fn require(format: TextureFormat) -> (key: Result<OutlinePipelineKey, OutlineError>)
        ensures
            key is Ok <==> format_traits(format).usable(),
            key matches Ok(k) ==> k.format() == format,
            key matches Err(e) ==> e == OutlineError::UnusableTargetFormat,
    {
        match OutlinePipelineKey::new(format) {
            Some(k) => Ok(k),
            None => Err(OutlineError::UnusableTargetFormat),
        }
    }

    /// The key for the default surface format, which is a colour format
    /// that can be rendered to and blended into, so that there always is
    /// one.
    pub fn for_default_target() -> (key: Result<OutlinePipelineKey, OutlineError>)
        ensures
            key matches Ok(k) && format_traits(k.format()) == default_target_traits(),
    {
        proof {
            lemma_default_target_usable();
        }
        OutlinePipelineKey::require(default_target_format())
    }

    /// The format of the colour target.
    pub fn texture_format(&self) -> (format: TextureFormat)
        ensures
            format == self.format(),
    {
        self.format
    }
}

} // verus!
