//! Path tags, path styles and transforms: the elements of the path tag,
//! style and transform streams.
//!
//! Styles and transforms hold 32-bit floats. They are kept here by their bit
//! patterns, the form in which they are packed for the GPU; their equality is
//! the equality of the floats that the bits stand for.

use vstd::prelude::*;

verus! {

/// Path tag representation.
#[derive(Copy, Clone, PartialEq, Eq, Debug, Structural)]
pub struct PathTag(pub u8);

impl PathTag {
    /// Path marker.
    pub const PATH: u8 = 0x10;

    /// Transform marker.
    pub const TRANSFORM: u8 = 0x20;

    /// Style setting.
    pub const STYLE: u8 = 0x40;
}

/// Whether the 32-bit float with these bits is a NaN: all exponent bits set
/// and a non-zero mantissa.
pub open spec fn f32_is_nan(bits: u32) -> bool {
    (bits / 0x80_0000) % 0x100 == 0xff && bits % 0x80_0000 != 0
}

/// Whether the 32-bit float with these bits is a zero of either sign.
pub open spec fn f32_is_zero(bits: u32) -> bool {
    bits % 0x8000_0000 == 0
}

/// Equality of the 32-bit floats with bit patterns `a` and `b`: no NaN equals
/// anything, the two zeros are equal, every other float equals only itself.
pub open spec fn f32_eq(a: u32, b: u32) -> bool {
    !f32_is_nan(a) && !f32_is_nan(b) && (a == b || (f32_is_zero(a) && f32_is_zero(b)))
}

proof fn lemma_f32_bits(a: u32)
    by (bit_vector)
    ensures
        ((a & 0x7f80_0000u32) == 0x7f80_0000u32 && (a & 0x7f_ffffu32) != 0u32) == ((a / 0x80_0000)
            % 0x100 == 0xff && a % 0x80_0000 != 0),
        ((a & 0x7fff_ffffu32) == 0u32) == (a % 0x8000_0000 == 0),
{
}

/// Float equality on bit patterns: a NaN (all exponent bits set, a non-zero
/// mantissa) equals nothing, every other float equals itself, and two
/// different bit patterns stand for equal floats only when both are zeros
/// (all bits but the sign clear). So `10.0` and `-10.0`, which differ only in
/// the sign bit, are different floats.
pub proof fn lemma_f32_eq_semantics(a: u32, b: u32)
    ensures
        (a / 0x80_0000) % 0x100 == 0xff && a % 0x80_0000 != 0 ==> !f32_eq(a, b) && !f32_eq(b, a),
        !((a / 0x80_0000) % 0x100 == 0xff && a % 0x80_0000 != 0) ==> f32_eq(a, a),
        f32_eq(a, b) && a != b ==> a % 0x8000_0000 == 0 && b % 0x8000_0000 == 0,
        f32_eq(a, b) ==> f32_eq(b, a),
        f32_eq(0, 0x8000_0000),
{
}

/// Float equality is transitive.
pub proof fn lemma_f32_eq_transitive(a: u32, b: u32, c: u32)
    requires
        f32_eq(a, b),
        f32_eq(b, c),
    ensures
        f32_eq(a, c),
{
}

/// Transforms are equal only when each of their six entries stands for the
/// same float: when some entry of one differs in its bits from that of the
/// other, and the two are not both zeros, the transforms differ.
pub proof fn lemma_transform_eq_entries(t: Transform, u: Transform, i: int)
    requires
        0 <= i < 6,
        t.words()[i] != u.words()[i],
        !(t.words()[i] % 0x8000_0000 == 0 && u.words()[i] % 0x8000_0000 == 0),
    ensures
        !t.spec_eq(u),
{
    lemma_f32_eq_semantics(t.words()[i], u.words()[i]);
}

/// Styles are equal only when they have the same flags and miter limit and
/// widths that stand for the same float: styles whose flags differ, or whose
/// widths differ in their bits without both being zeros, differ.
pub proof fn lemma_style_eq_fields(s: Style, t: Style)
    ensures
        s.flags_and_miter_limit != t.flags_and_miter_limit ==> !s.spec_eq(t),
        s.line_width != t.line_width && !(s.line_width % 0x8000_0000 == 0 && t.line_width
            % 0x8000_0000 == 0) ==> !s.spec_eq(t),
        s.spec_eq(t) ==> s.flags_and_miter_limit == t.flags_and_miter_limit,
{
    lemma_f32_eq_semantics(s.line_width, t.line_width);
}

/// Compares two 32-bit floats given by their bit patterns.
pub fn f32_bits_eq(a: u32, b: u32) -> (r: bool)
    ensures
        r == f32_eq(a, b),
{
    proof {
        lemma_f32_bits(a);
        lemma_f32_bits(b);
    }
    let a_nan = (a & 0x7f80_0000) == 0x7f80_0000 && (a & 0x7f_ffff) != 0;
    let b_nan = (b & 0x7f80_0000) == 0x7f80_0000 && (b & 0x7f_ffff) != 0;
    if a_nan || b_nan {
        false
    } else {
        a == b || ((a & 0x7fff_ffff) == 0 && (b & 0x7fff_ffff) == 0)
    }
}

/// The 32-bit float with bits `bits` clamped to `[0, 1]`, as `f32::clamp`
/// clamps it: a NaN stays as it is, a negative float other than `-0.0`
/// becomes `0.0`, a float above `1.0` becomes `1.0`, and the others stay.
pub open spec fn f32_clamp_unit(bits: u32) -> u32 {
    if f32_is_nan(bits) {
        bits
    } else if bits >= 0x8000_0000 {
        if f32_is_zero(bits) {
            bits
        } else {
            0
        }
    } else if bits > 0x3f80_0000 {
        0x3f80_0000
    } else {
        bits
    }
}

/// Clamps a 32-bit float, given by its bit pattern, to `[0, 1]`. Positive
/// floats are ordered as their bit patterns are, so `1.0` (`0x3f80_0000`)
/// bounds them from above by a comparison of bits.
pub fn f32_bits_clamp_unit(bits: u32) -> (r: u32)
    ensures
        r == f32_clamp_unit(bits),
{
    proof {
        lemma_f32_bits(bits);
    }
    let nan = (bits & 0x7f80_0000) == 0x7f80_0000 && (bits & 0x7f_ffff) != 0;
    if nan {
        bits
    } else if bits >= 0x8000_0000 {
        if (bits & 0x7fff_ffff) == 0 {
            bits
        } else {
            0
        }
    } else if bits > 0x3f80_0000 {
        0x3f80_0000
    } else {
        bits
    }
}

/// Fill rule of a path.
#[derive(Copy, Clone, PartialEq, Eq, Debug, Structural)]
pub enum Fill {
    /// Non-zero fill rule.
    NonZero,
    /// Even-odd fill rule.
    EvenOdd,
}

/// The style of a path: the fill rule of a fill, or the parameters of a stroke.
#[derive(Copy, Clone, Debug)]
pub struct Style {
    /// Encodes the stroke and fill style parameters. This field is split into
    /// the style flags (high bits) and the miter limit (low bits).
    pub flags_and_miter_limit: u32,
    /// The stroke width, as the bit pattern of a 32-bit float; zero for a fill.
    pub line_width: u32,
}

impl Style {
    /// 0 is a non-zero fill, 1 is an even-odd fill.
    pub const FLAGS_FILL_BIT: u32 = 0x4000_0000;

    /// 0 is a fill, 1 is a stroke.
    pub const FLAGS_STYLE_BIT: u32 = 0x8000_0000;

    /// The style word pair of a fill with the given rule.
    pub open spec fn spec_from_fill(fill: Fill) -> Style {
        Style {
            flags_and_miter_limit: match fill {
                Fill::NonZero => 0,
                Fill::EvenOdd => Style::FLAGS_FILL_BIT,
            },
            line_width: 0,
        }
    }

    /// Creates the style of a fill with the given rule.
    pub fn from_fill(fill: Fill) -> (r: Style)
        ensures
            r == Style::spec_from_fill(fill),
    {
        let fill_bit = match fill {
            Fill::NonZero => 0,
            Fill::EvenOdd => Style::FLAGS_FILL_BIT,
        };
        Style { flags_and_miter_limit: fill_bit, line_width: 0 }
    }

    /// Equality of styles: the same flags and miter limit, and equal widths.
    pub open spec fn spec_eq(self, other: Style) -> bool {
        self.flags_and_miter_limit == other.flags_and_miter_limit && f32_eq(
            self.line_width,
            other.line_width,
        )
    }

    /// Compares two styles as the floats they hold compare.
    pub fn style_eq(&self, other: &Style) -> (r: bool)
        ensures
            r == self.spec_eq(*other),
    {
        self.flags_and_miter_limit == other.flags_and_miter_limit && f32_bits_eq(
            self.line_width,
            other.line_width,
        )
    }
}

/// An affine transformation: a 2x2 matrix in column-major order followed by a
/// translation, each entry the bit pattern of a 32-bit float.
#[derive(Copy, Clone, Debug)]
pub struct Transform {
    /// 2x2 matrix.
    pub matrix: [u32; 4],
    /// Translation.
    pub translation: [u32; 2],
}

impl Transform {
    /// The six words of the transform, in the order they are packed.
    pub open spec fn words(self) -> Seq<u32> {
        self.matrix@ + self.translation@
    }

    /// Equality of transforms: all six entries are equal floats.
    pub open spec fn spec_eq(self, other: Transform) -> bool {
        forall|i: int| 0 <= i < 6 ==> f32_eq(#[trigger] self.words()[i], other.words()[i])
    }

    /// Compares two transforms as the floats they hold compare.
    pub fn transform_eq(&self, other: &Transform) -> (r: bool)
        ensures
            r == self.spec_eq(*other),
    {
        let mut i: usize = 0;
        while i < 4
            invariant
                0 <= i <= 4,
                forall|j: int| 0 <= j < i ==> f32_eq(#[trigger] self.matrix@[j], other.matrix@[j]),
            decreases 4 - i,
        {
            if !f32_bits_eq(self.matrix[i], other.matrix[i]) {
                assert(!f32_eq(self.words()[i as int], other.words()[i as int]));
                return false;
            }
            i = i + 1;
        }
        let mut k: usize = 0;
        while k < 2
            invariant
                0 <= k <= 2,
                forall|j: int| 0 <= j < 4 ==> f32_eq(#[trigger] self.matrix@[j], other.matrix@[j]),
                forall|j: int|
                    0 <= j < k ==> f32_eq(#[trigger] self.translation@[j], other.translation@[j]),
            decreases 2 - k,
        {
            if !f32_bits_eq(self.translation[k], other.translation[k]) {
                assert(!f32_eq(self.words()[4 + k], other.words()[4 + k]));
                return false;
            }
            k = k + 1;
        }
        assert forall|i: int| 0 <= i < 6 implies f32_eq(
            #[trigger] self.words()[i],
            other.words()[i],
        ) by {
            if i < 4 {
                assert(self.words()[i] == self.matrix@[i]);
                assert(other.words()[i] == other.matrix@[i]);
            } else {
                assert(self.words()[i] == self.translation@[i - 4]);
                assert(other.words()[i] == other.translation@[i - 4]);
            }
        }
        true
    }
}

} // verus!
