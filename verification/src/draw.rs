//! Draw tags and the fixed-size payloads that go with them in the draw data stream.

use vstd::prelude::*;

verus! {

/// Draw tag representation.
///
/// Bits 2 to 4 of a tag give the number of words of draw data that follow the
/// tag in the draw data stream ("scene size"), bits 6 to 9 the number of words
/// of draw info the GPU allocates for it ("info size").
#[derive(Copy, Clone, PartialEq, Eq, Debug, Structural)]
pub struct DrawTag(pub u32);

impl DrawTag {
    /// No operation.
    pub const NOP: u32 = 0;

    /// Color fill.
    pub const COLOR: u32 = 0x44;

    /// Linear gradient fill.
    pub const LINEAR_GRADIENT: u32 = 0x114;

    /// Radial gradient fill.
    pub const RADIAL_GRADIENT: u32 = 0x29c;

    /// Sweep gradient fill.
    pub const SWEEP_GRADIENT: u32 = 0x254;

    /// Image fill.
    pub const IMAGE: u32 = 0x28C;

    /// Blurred rounded rectangle.
    pub const BLUR_RECT: u32 = 0x2d4;

    /// Begin layer/clip.
    pub const BEGIN_CLIP: u32 = 0x9;

    /// End layer/clip.
    pub const END_CLIP: u32 = 0x21;

    /// Number of words of draw info the tag needs: bits 6 to 9 of the tag.
    pub open spec fn spec_info_size(self) -> u32 {
        ((self.0 / 64) % 16) as u32
    }

    /// Number of words of draw data that follow the tag: bits 2 to 4 of the tag.
    pub open spec fn scene_size(self) -> nat {
        ((self.0 / 4) % 8) as nat
    }

    /// Returns the size of the info buffer (in u32s) used by this tag.
    pub fn info_size(self) -> (r: u32)
        ensures
            r == self.spec_info_size(),
            r < 16,
    {
        let t = self.0;
        assert((t >> 6u32) & 0xfu32 == (t / 64) % 16) by (bit_vector);
        (t >> 6) & 0xf
    }
}

/// The info and draw data sizes of every draw tag: a color takes one word of
/// info and one of data, an image ten of info and three of data, a blurred
/// rectangle eleven of info and five of data, a begin clip two words of data
/// and no info, an end clip nothing.
pub proof fn lemma_draw_tag_sizes()
    ensures
        DrawTag(DrawTag::NOP).spec_info_size() == 0 && DrawTag(DrawTag::NOP).scene_size() == 0,
        DrawTag(DrawTag::COLOR).spec_info_size() == 1 && DrawTag(DrawTag::COLOR).scene_size() == 1,
        DrawTag(DrawTag::LINEAR_GRADIENT).spec_info_size() == 4
            && DrawTag(DrawTag::LINEAR_GRADIENT).scene_size() == 5,
        DrawTag(DrawTag::RADIAL_GRADIENT).spec_info_size() == 10
            && DrawTag(DrawTag::RADIAL_GRADIENT).scene_size() == 7,
        DrawTag(DrawTag::SWEEP_GRADIENT).spec_info_size() == 9
            && DrawTag(DrawTag::SWEEP_GRADIENT).scene_size() == 5,
        DrawTag(DrawTag::IMAGE).spec_info_size() == 10 && DrawTag(DrawTag::IMAGE).scene_size() == 3,
        DrawTag(DrawTag::BLUR_RECT).spec_info_size() == 11
            && DrawTag(DrawTag::BLUR_RECT).scene_size() == 5,
        DrawTag(DrawTag::BEGIN_CLIP).spec_info_size() == 0
            && DrawTag(DrawTag::BEGIN_CLIP).scene_size() == 2,
        DrawTag(DrawTag::END_CLIP).spec_info_size() == 0
            && DrawTag(DrawTag::END_CLIP).scene_size() == 0,
{
}

/// The first word of each draw info stream entry contains the flags.
///
/// This is not part of the draw object stream but gets used after the draw
/// objects get reduced on the GPU. `0` represents a non-zero fill.
/// `1` represents an even-odd fill.
pub const DRAW_INFO_FLAGS_FILL_RULE_BIT: u32 = 1;

/// Draw data for a solid color.
#[derive(Clone, Copy, Debug, Default, PartialEq, Eq, Structural)]
pub struct DrawColor {
    /// Packed little-endian RGBA premultiplied color with the red component in the low byte, i.e.,
    /// with `r` the least significant byte and `a` the most significant.
    pub rgba: u32,
}

/// Draw data for an image.
#[derive(Clone, Copy, Debug, Default, PartialEq, Eq, Structural)]
pub struct DrawImage {
    /// Packed atlas coordinates.
    pub xy: u32,
    /// Packed image dimensions.
    pub width_height: u32,
    /// Packed quality, extend mode and 8-bit alpha (bits `qqxxyyaaaaaaaa`,
    /// 18 unused prefix bits).
    pub sample_alpha: u32,
}

/// Sampling quality of an image.
#[derive(Copy, Clone, PartialEq, Eq, Debug, Structural)]
pub enum ImageQuality {
    /// Nearest neighbor sampling.
    Low,
    /// Bilinear sampling.
    Medium,
    /// Bicubic sampling.
    High,
}

impl ImageQuality {
    /// The numeric value of the quality, as packed into image draw data.
    pub open spec fn value(self) -> u32 {
        match self {
            ImageQuality::Low => 0,
            ImageQuality::Medium => 1,
            ImageQuality::High => 2,
        }
    }

    /// Returns the numeric value of the quality.
    pub fn to_u32(self) -> (r: u32)
        ensures
            r == self.value(),
    {
        match self {
            ImageQuality::Low => 0,
            ImageQuality::Medium => 1,
            ImageQuality::High => 2,
        }
    }
}

/// How an image is extended beyond its bounds in one direction.
#[derive(Copy, Clone, PartialEq, Eq, Debug, Structural)]
pub enum Extend {
    /// Repeats the edge pixels.
    Pad,
    /// Repeats the image.
    Repeat,
    /// Reflects the image.
    Reflect,
}

impl Extend {
    /// The numeric value of the extend mode, as packed into image draw data.
    pub open spec fn value(self) -> u32 {
        match self {
            Extend::Pad => 0,
            Extend::Repeat => 1,
            Extend::Reflect => 2,
        }
    }

    /// Returns the numeric value of the extend mode.
    pub fn to_u32(self) -> (r: u32)
        ensures
            r == self.value(),
    {
        match self {
            Extend::Pad => 0,
            Extend::Repeat => 1,
            Extend::Reflect => 2,
        }
    }
}

/// How a layer's colors are mixed and composed with what lies below it.
///
/// The two fields are the numeric values of the mix and compose modes of the
/// blend mode (for a clip layer, the mix value is 128).
#[derive(Clone, Copy, Debug, PartialEq, Eq, Structural)]
pub struct BlendMode {
    /// The color mixing function.
    pub mix: u8,
    /// The layer composition function.
    pub compose: u8,
}

/// Draw data for a clip or layer.
#[derive(Clone, Copy, Debug, Default, PartialEq, Eq, Structural)]
pub struct DrawBeginClip {
    /// Blend mode.
    pub blend_mode: u32,
    /// Group alpha, as the bit pattern of a 32-bit float.
    pub alpha: u32,
}

impl BlendMode {
    /// The packed blend word: the mix mode in bits 8 to 15, the compose mode in
    /// bits 0 to 7.
    pub open spec fn packed(self) -> u32 {
        (self.mix * 256 + self.compose) as u32
    }
}

impl DrawBeginClip {
    /// Creates new clip draw data.
    pub fn new(blend_mode: BlendMode, alpha: u32) -> (r: Self)
        ensures
            r.blend_mode == blend_mode.packed(),
            r.alpha == alpha,
    {
        let mix = blend_mode.mix as u32;
        let compose = blend_mode.compose as u32;
        assert(mix < 256 && compose < 256 ==> (mix << 8u32) | compose == mix * 256 + compose)
            by (bit_vector);
        Self { blend_mode: (mix << 8) | compose, alpha }
    }
}

/// Monoid for the draw tag stream.
#[derive(Copy, Clone, PartialEq, Eq, Default, Debug, Structural)]
pub struct DrawMonoid {
    /// The number of paths preceding this draw object.
    pub path_ix: u32,
    /// The number of clip operations preceding this draw object.
    pub clip_ix: u32,
    /// The offset of the encoded draw object in the scene (u32s).
    pub scene_offset: u32,
    /// The offset of the associated info.
    pub info_offset: u32,
}

} // verus!
