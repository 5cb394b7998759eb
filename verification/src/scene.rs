//! The scene: a sequence of drawing commands, their context and their
//! resources, held as an encoding.

use vstd::prelude::*;
use crate::draw::BlendMode;
use crate::encoding::{patches_shiftable, Brush, Encoding, EncodingView};
use crate::draw::DrawTag;
use crate::path::{f32_bits_clamp_unit, f32_clamp_unit, Fill, PathTag, Style, Transform};
use crate::resolve::Patch;
use crate::sums::lemma_sum_empty;

verus! {

/// The main datatype for rendering graphics.
///
/// A `Scene` stores a sequence of drawing commands, their context, and the
/// associated resources, which can later be rendered.
///
/// Rendering from a `Scene` will *not* clear it, which should be done in a
/// separate step, by calling [`Scene::reset`].
#[derive(Clone)]
pub struct Scene {
    encoding: Encoding,
}

/// The encoding after the end of a draw whose shape was encoded when
/// `encoded` holds: nothing changes when no shape was encoded; otherwise the
/// brush transform, when given and new, is encoded and its tag put before the
/// last tag of the shape, and then the brush.
pub open spec fn finished_draw(
    e: EncodingView,
    encoded: bool,
    brush_transform: Option<Transform>,
    brush: Brush,
) -> EncodingView {
    if !encoded {
        e
    } else {
        let moved = match brush_transform {
            Some(bt) => if e.transform_is_new(bt) {
                e.with_transform(bt).with_last_path_tags_swapped()
            } else {
                e
            },
            None => e,
        };
        moved.with_brush(brush)
    }
}

/// Whether the end of a draw can swap the tag of a new brush transform with
/// the tag before it: there is one when a brush transform is to be encoded.
pub open spec fn can_finish_draw(
    e: EncodingView,
    encoded: bool,
    brush_transform: Option<Transform>,
) -> bool {
    encoded && brush_transform is Some && e.transform_is_new(brush_transform->0)
        ==> e.path_tags.len() >= 1
}

/// A consistent encoding with an open clip has a draw object.
proof fn lemma_open_clip_has_draw(e: EncodingView)
    requires
        e.is_consistent(),
        e.n_open_clips > 0,
    ensures
        e.draw_tags.len() > 0,
{
    if e.draw_tags.len() == 0 {
        lemma_sum_empty(e.draw_tags, crate::encoding::draw_tag_counter(crate::draw::DrawTag::BEGIN_CLIP));
    }
}

/// A draw whose shape was encoded always ends with its brush, whatever the
/// brush transform: a solid brush adds its color tag and color word, an image
/// brush its image tag, three words and a patch at the old end of the draw
/// data, and a gradient nothing. The brush transform is encoded exactly when
/// it is given and new, its tag going before the last tag of the shape; the
/// styles stay. A draw whose shape had no segment changes nothing.
pub proof fn lemma_finished_draw_brush(
    e: EncodingView,
    encoded: bool,
    brush_transform: Option<Transform>,
    brush: Brush,
)
    requires
        can_finish_draw(e, encoded, brush_transform),
    ensures
        !encoded ==> finished_draw(e, encoded, brush_transform, brush) == e,
        encoded ==> ({
            let f = finished_draw(e, encoded, brush_transform, brush);
            let moved = brush_transform matches Some(t) && e.transform_is_new(t);
            &&& f.styles == e.styles
            &&& (match brush {
                Brush::Solid(c) => f.draw_tags == e.draw_tags.push(DrawTag(DrawTag::COLOR))
                    && f.draw_data == e.draw_data.push(c.rgba) && f.patches == e.patches,
                Brush::Gradient => f.draw_tags == e.draw_tags && f.draw_data == e.draw_data
                    && f.patches == e.patches,
                Brush::Image(image, alpha) => f.draw_tags == e.draw_tags.push(DrawTag(DrawTag::IMAGE))
                    && f.draw_data == e.draw_data + seq![
                    0u32,
                    image.packed_size(),
                    image.packed_sampling(alpha),
                ] && f.patches == e.patches.push(
                    Patch { draw_data_offset: e.draw_data.len() as usize, image: image.image },
                ),
            })
            &&& !moved ==> f.transforms == e.transforms && f.path_tags == e.path_tags
            &&& moved ==> f.transforms == e.transforms.push(brush_transform->0)
                && f.path_tags == e.path_tags.drop_last().push(PathTag(PathTag::TRANSFORM)).push(
                e.path_tags.last(),
            )
        }),
{
    if encoded {
        let f = finished_draw(e, encoded, brush_transform, brush);
        match brush_transform {
            Some(t) => {
                if e.transform_is_new(t) {
                    let n = e.path_tags.len() as int;
                    let g = e.with_transform(t).with_last_path_tags_swapped();
                    assert(g.path_tags =~= e.path_tags.drop_last().push(PathTag(PathTag::TRANSFORM)).push(
                        e.path_tags.last(),
                    ));
                }
            },
            None => {},
        }
        match brush {
            Brush::Solid(c) => {
                assert(f.draw_data =~= e.draw_data.push(c.rgba));
            },
            _ => {},
        }
    }
}

impl View for Scene {
    type V = EncodingView;

    closed spec fn view(&self) -> EncodingView {
        self.encoding@
    }
}

impl Scene {
    /// Creates a new scene.
    pub fn new() -> (r: Self)
        ensures
            r@ == EncodingView::empty(),
    {
        Scene { encoding: Encoding::new() }
    }

    /// Removes all content from the scene.
    pub fn reset(&mut self)
        ensures
            final(self)@ == EncodingView::empty(),
    {
        self.encoding.reset();
    }

    /// Returns the underlying raw encoding.
    pub fn encoding(&self) -> (r: &Encoding)
        ensures
            r@ == self@,
    {
        &self.encoding
    }

    /// Returns a mutable reference to the underlying raw encoding.
    ///
    /// This can be used to more easily create invalid scenes, and so should be used with care.
    pub fn encoding_mut(&mut self) -> (r: &mut Encoding)
        ensures
            r@ == old(self)@,
            final(self)@ == final(r)@,
    {
        &mut self.encoding
    }

    /// Begins a draw: encodes its transform and its style, which the shape
    /// of the draw, encoded next, is drawn with.
    pub fn begin_draw(&mut self, transform: Transform, style: Style)
        ensures
            final(self)@ == old(self)@.with_transform(transform).with_style(style),
            final(self)@.transforms.len() > 0 && final(self)@.styles.len() > 0,
            old(self)@.is_framed() ==> final(self)@.is_framed(),
            old(self)@.is_consistent() ==> final(self)@.is_consistent(),
    {
        self.encoding.encode_transform(transform);
        self.encoding.encode_style(style);
    }

    /// Ends a draw whose shape has been encoded since [`Scene::begin_draw`],
    /// `encoded` telling whether the shape had any segment. When it had none,
    /// nothing is encoded. Otherwise the brush transform, already combined
    /// with the draw's transform, is encoded when given and new, its tag put
    /// before the last tag of the shape, and then the brush is encoded.
    pub fn finish_draw(&mut self, encoded: bool, brush_transform: Option<Transform>, brush: &Brush)
        requires
            can_finish_draw(old(self)@, encoded, brush_transform),
        ensures
            final(self)@ == finished_draw(old(self)@, encoded, brush_transform, *brush),
            old(self)@.transforms.len() > 0 && old(self)@.styles.len() > 0 ==> final(self)@.transforms.len() > 0
                && final(self)@.styles.len() > 0 && (old(self)@.is_framed() ==> final(self)@.is_framed()),
            old(self)@.is_consistent() ==> final(self)@.is_consistent(),
    {
        if encoded {
            match brush_transform {
                Some(bt) => {
                    if self.encoding.encode_transform(bt) {
                        self.encoding.swap_last_path_tags();
                    }
                },
                None => {},
            }
            self.encoding.encode_brush(brush);
        }
    }

    /// Begins pushing a layer: encodes the layer's transform and the non-zero
    /// fill style of its clip shape, which is encoded next (an empty path when
    /// the shape is invalid, which suppresses all drawing until the layer is
    /// popped).
    ///
    /// **However, the transforms are *not* saved or modified by the layer stack.**
    pub fn begin_layer(&mut self, transform: Transform)
        ensures
            final(self)@ == old(self)@.with_transform(transform).with_style(
                Style::spec_from_fill(Fill::NonZero),
            ),
            final(self)@.transforms.len() > 0 && final(self)@.styles.len() > 0,
            old(self)@.is_framed() ==> final(self)@.is_framed(),
            old(self)@.is_consistent() ==> final(self)@.is_consistent(),
    {
        self.encoding.encode_transform(transform);
        self.encoding.encode_fill_style(Fill::NonZero);
    }

    /// Ends pushing a layer after its clip shape: encodes a begin clip with
    /// the blend mode and the alpha (the bit pattern of a 32-bit float)
    /// clamped to `[0, 1]`. Every drawing command after this call is clipped
    /// by the shape until the layer is popped.
    ///
    /// Clip layers (the clip mix) should have an alpha of 1.0; for an opacity
    /// group with non-unity alpha, use the normal mix.
    pub fn push_layer_clip(&mut self, blend: BlendMode, alpha: u32)
        requires
            old(self)@.n_clips < u32::MAX,
            old(self)@.n_open_clips < u32::MAX,
        ensures
            final(self)@ == old(self)@.with_begin_clip(blend, f32_clamp_unit(alpha)),
            old(self)@.transforms.len() > 0 && old(self)@.styles.len() > 0 ==> final(self)@.transforms.len() > 0
                && final(self)@.styles.len() > 0 && (old(self)@.is_framed() ==> final(self)@.is_framed()),
            old(self)@.is_consistent() ==> final(self)@.is_consistent(),
    {
        let clamped = f32_bits_clamp_unit(alpha);
        self.encoding.encode_begin_clip(blend, clamped);
    }

    /// Pops the current layer.
    pub fn pop_layer(&mut self)
        requires
            old(self)@.n_open_clips > 0 ==> old(self)@.n_paths < u32::MAX && old(self)@.n_clips
                < u32::MAX,
        ensures
            final(self)@ == old(self)@.with_end_clip(),
            old(self)@.is_consistent() ==> final(self)@.is_consistent(),
            old(self)@.is_consistent() && old(self)@.is_framed() ==> final(self)@.is_framed(),
    {
        proof {
            if self@.is_consistent() && self@.n_open_clips > 0 {
                lemma_open_clip_has_draw(self@);
            }
        }
        self.encoding.encode_end_clip();
    }

    /// Appends a child scene.
    ///
    /// When the child is drawn under a transform, `transformed` holds the
    /// child's transforms, each already combined with that transform.
    /// This is an O(N) operation.
    pub fn append(&mut self, other: &Self, transformed: &Option<Vec<Transform>>)
        requires
            old(self)@.n_paths + other@.n_paths <= u32::MAX,
            old(self)@.n_path_segments + other@.n_path_segments <= u32::MAX,
            old(self)@.n_clips + other@.n_clips <= u32::MAX,
            old(self)@.n_open_clips + other@.n_open_clips <= u32::MAX,
            patches_shiftable(other@.patches, old(self)@.draw_data.len()),
        ensures
            final(self)@ == old(self)@.appended(
                other@,
                match transformed {
                    Some(t) => Some(t@),
                    None => None,
                },
            ),
            old(self)@.is_consistent() && other@.is_consistent() ==> final(self)@.is_consistent(),
            old(self)@.is_framed() && other@.is_framed() && (transformed matches Some(t)
                ==> t@.len() == other@.transforms.len()) ==> final(self)@.is_framed(),
    {
        self.encoding.append(&other.encoding, transformed);
    }

}

impl Default for Scene {
    fn default() -> (r: Self)
        ensures
            r@ == EncodingView::empty(),
    {
        Scene::new()
    }
}

impl From<Encoding> for Scene {
    fn from(encoding: Encoding) -> (r: Self) {
        Scene { encoding }
    }
}

impl vstd::std_specs::convert::FromSpecImpl<Encoding> for Scene {
    open spec fn obeys_from_spec() -> bool {
        true
    }

    closed spec fn from_spec(encoding: Encoding) -> Scene {
        Scene { encoding }
    }
}

/// A scene made from an encoding holds that encoding.
pub proof fn lemma_scene_from_encoding(encoding: Encoding)
    ensures
        <Scene as vstd::std_specs::convert::FromSpec<Encoding>>::from_spec(encoding)@ == encoding@,
{
}

} // verus!
