//! The encoded data streams of a scene and the operations that append to them.

use vstd::prelude::*;
use crate::draw::{BlendMode, DrawBeginClip, DrawColor, DrawTag, Extend, ImageQuality};
use crate::path::{f32_eq, Fill, PathTag, Style, Transform};
use crate::resolve::{clone_image, Patch};
use crate::sums::{sum_of, lemma_sum_concat, lemma_sum_push};
use peniko::Image;

verus! {

/// Counts the draw tags equal to `tag`.
pub open spec fn draw_tag_counter(tag: u32) -> spec_fn(DrawTag) -> nat {
    |t: DrawTag|
        if t.0 == tag {
            1nat
        } else {
            0nat
        }
}

/// Counts the path tags equal to `tag`.
pub open spec fn path_tag_counter(tag: u8) -> spec_fn(PathTag) -> nat {
    |t: PathTag|
        if t.0 == tag {
            1nat
        } else {
            0nat
        }
}

/// The number of draw data words that follow a draw tag.
pub open spec fn scene_words() -> spec_fn(DrawTag) -> nat {
    |t: DrawTag| t.scene_size()
}

/// An image brush: the image, carried through to the resolver, and the
/// parameters that its draw data packs.
pub struct ImageBrush {
    /// The image resource.
    pub image: Image,
    /// Width of the image.
    pub width: u32,
    /// Height of the image.
    pub height: u32,
    /// Hint for desired rendering quality.
    pub quality: ImageQuality,
    /// Extend mode in the horizontal direction.
    pub x_extend: Extend,
    /// Extend mode in the vertical direction.
    pub y_extend: Extend,
}

impl ImageBrush {
    /// The packed image dimensions: the low 16 bits of the width above the
    /// low 16 bits of the height.
    pub open spec fn packed_size(self) -> u32 {
        ((self.width % 0x1_0000) * 0x1_0000 + self.height % 0x1_0000) as u32
    }

    /// The packed quality, extend modes and alpha (bits `qqxxyyaaaaaaaa`).
    pub open spec fn packed_sampling(self, alpha: u8) -> u32 {
        (self.quality.value() * 0x1000 + self.x_extend.value() * 0x400 + self.y_extend.value()
            * 0x100 + alpha) as u32
    }
}

/// A brush ready to encode: a solid color, a gradient (which encodes nothing),
/// or an image with its 8-bit alpha.
pub enum Brush {
    /// Solid color brush.
    Solid(DrawColor),
    /// Gradient brush.
    Gradient,
    /// Image brush with its alpha.
    Image(ImageBrush, u8),
}

/// The abstract content of an encoding: its streams as sequences, and its counters.
#[verifier::ext_equal]
pub struct EncodingView {
    /// The path tag stream.
    pub path_tags: Seq<PathTag>,
    /// The path data stream.
    pub path_data: Seq<u32>,
    /// The draw tag stream.
    pub draw_tags: Seq<DrawTag>,
    /// The draw data stream.
    pub draw_data: Seq<u32>,
    /// The transform stream.
    pub transforms: Seq<Transform>,
    /// The style stream.
    pub styles: Seq<Style>,
    /// The patches of late bound resources.
    pub patches: Seq<Patch>,
    /// Number of encoded paths.
    pub n_paths: u32,
    /// Number of encoded path segments.
    pub n_path_segments: u32,
    /// Number of encoded clips/layers.
    pub n_clips: u32,
    /// Number of unclosed clips/layers.
    pub n_open_clips: u32,
    /// Flags that capture the current state of the encoding.
    pub flags: u32,
}

/// The number of draw data words that the first `j` draw tags are followed by.
pub open spec fn data_offset(tags: Seq<DrawTag>, j: int) -> nat {
    sum_of(tags.take(j), scene_words())
}

/// Whether the draw data word at `offset` is the first word of the payload of
/// an image draw tag.
pub open spec fn starts_image_payload(tags: Seq<DrawTag>, offset: int) -> bool {
    exists|j: int|
        0 <= j < tags.len() && tags[j].0 == DrawTag::IMAGE && #[trigger] data_offset(tags, j)
            == offset
}

/// The patches with their offsets moved `by` words further into the draw data.
pub open spec fn shifted_patches(patches: Seq<Patch>, by: nat) -> Seq<Patch> {
    patches.map_values(
        |p: Patch| Patch { draw_data_offset: (p.draw_data_offset + by) as usize, image: p.image },
    )
}

/// Whether every patch offset stays within `usize` when moved `by` words.
pub open spec fn patches_shiftable(patches: Seq<Patch>, by: nat) -> bool {
    forall|k: int| 0 <= k < patches.len() ==> #[trigger] patches[k].draw_data_offset + by <= usize::MAX
}

/// Whether the patch offsets increase by at least `gap` from one patch to the
/// next, and each lies at least `gap` words before the end of `len` words.
pub open spec fn patches_spaced(patches: Seq<Patch>, len: nat, gap: nat) -> bool {
    &&& forall|k: int|
        0 <= k < patches.len() ==> #[trigger] patches[k].draw_data_offset + gap <= len
    &&& forall|k: int|
        0 <= k < patches.len() - 1 ==> #[trigger] patches[k].draw_data_offset + gap
            <= patches[k + 1].draw_data_offset
}

impl EncodingView {
    /// The empty encoding.
    pub open spec fn empty() -> EncodingView {
        EncodingView {
            path_tags: Seq::empty(),
            path_data: Seq::empty(),
            draw_tags: Seq::empty(),
            draw_data: Seq::empty(),
            transforms: Seq::empty(),
            styles: Seq::empty(),
            patches: Seq::empty(),
            n_paths: 0,
            n_path_segments: 0,
            n_clips: 0,
            n_open_clips: 0,
            flags: 0,
        }
    }

    /// Whether a style is encoded: when forced, when there is no style yet, or
    /// when it differs from the current one.
    pub open spec fn style_is_new(self, style: Style) -> bool {
        self.flags & Encoding::FORCE_NEXT_STYLE != 0 || self.styles.len() == 0
            || !self.styles.last().spec_eq(style)
    }

    /// The encoding after a style is encoded.
    pub open spec fn with_style(self, style: Style) -> EncodingView {
        if self.style_is_new(style) {
            EncodingView {
                path_tags: self.path_tags.push(PathTag(PathTag::STYLE)),
                styles: self.styles.push(style),
                flags: self.flags & !Encoding::FORCE_NEXT_STYLE,
                ..self
            }
        } else {
            self
        }
    }

    /// Whether a transform is encoded: when forced, when there is no transform
    /// yet, or when it differs from the current one.
    pub open spec fn transform_is_new(self, transform: Transform) -> bool {
        self.flags & Encoding::FORCE_NEXT_TRANSFORM != 0 || self.transforms.len() == 0
            || !self.transforms.last().spec_eq(transform)
    }

    /// The encoding after a transform is encoded.
    pub open spec fn with_transform(self, transform: Transform) -> EncodingView {
        if self.transform_is_new(transform) {
            EncodingView {
                path_tags: self.path_tags.push(PathTag(PathTag::TRANSFORM)),
                transforms: self.transforms.push(transform),
                flags: self.flags & !Encoding::FORCE_NEXT_TRANSFORM,
                ..self
            }
        } else {
            self
        }
    }

    /// The encoding after a draw tag and its payload are appended.
    pub open spec fn with_draw(self, tag: u32, payload: Seq<u32>) -> EncodingView {
        EncodingView {
            draw_tags: self.draw_tags.push(DrawTag(tag)),
            draw_data: self.draw_data + payload,
            ..self
        }
    }

    /// The encoding after a begin clip command.
    pub open spec fn with_begin_clip(self, blend_mode: BlendMode, alpha: u32) -> EncodingView {
        EncodingView {
            n_clips: (self.n_clips + 1) as u32,
            n_open_clips: (self.n_open_clips + 1) as u32,
            ..self.with_draw(DrawTag::BEGIN_CLIP, seq![blend_mode.packed(), alpha])
        }
    }

    /// The encoding after an end clip command: nothing changes when no clip is open.
    pub open spec fn with_end_clip(self) -> EncodingView {
        if self.n_open_clips > 0 {
            EncodingView {
                path_tags: self.path_tags.push(PathTag(PathTag::PATH)),
                n_paths: (self.n_paths + 1) as u32,
                n_clips: (self.n_clips + 1) as u32,
                n_open_clips: (self.n_open_clips - 1) as u32,
                ..self.with_draw(DrawTag::END_CLIP, Seq::empty())
            }
        } else {
            self
        }
    }

    /// The encoding after an image brush with an 8-bit alpha is encoded.
    pub open spec fn with_image(self, image: ImageBrush, alpha: u8) -> EncodingView {
        EncodingView {
            patches: self.patches.push(
                Patch { draw_data_offset: self.draw_data.len() as usize, image: image.image },
            ),
            ..self.with_draw(
                DrawTag::IMAGE,
                seq![0u32, image.packed_size(), image.packed_sampling(alpha)],
            )
        }
    }

    /// The encoding after a brush is encoded.
    pub open spec fn with_brush(self, brush: Brush) -> EncodingView {
        match brush {
            Brush::Solid(color) => self.with_draw(DrawTag::COLOR, seq![color.rgba]),
            Brush::Gradient => self,
            Brush::Image(image, alpha) => self.with_image(image, alpha),
        }
    }

    /// The encoding with the next transform and style forced.
    pub open spec fn with_forced(self) -> EncodingView {
        EncodingView {
            flags: self.flags | (Encoding::FORCE_NEXT_TRANSFORM | Encoding::FORCE_NEXT_STYLE),
            ..self
        }
    }

    /// The encoding with its last two path tags swapped.
    pub open spec fn with_last_path_tags_swapped(self) -> EncodingView {
        let n = self.path_tags.len() as int;
        EncodingView {
            path_tags: self.path_tags.update(n - 1, self.path_tags[n - 2]).update(
                n - 2,
                self.path_tags[n - 1],
            ),
            ..self
        }
    }

    /// The encoding with `other` appended; its transforms are replaced by
    /// `transforms` when given, and its patches move with its draw data, past
    /// the draw data of this encoding.
    pub open spec fn appended(
        self,
        other: EncodingView,
        transforms: Option<Seq<Transform>>,
    ) -> EncodingView {
        EncodingView {
            path_tags: self.path_tags + other.path_tags,
            path_data: self.path_data + other.path_data,
            draw_tags: self.draw_tags + other.draw_tags,
            draw_data: self.draw_data + other.draw_data,
            transforms: self.transforms + match transforms {
                Some(t) => t,
                None => other.transforms,
            },
            styles: self.styles + other.styles,
            patches: self.patches + shifted_patches(other.patches, self.draw_data.len()),
            n_paths: (self.n_paths + other.n_paths) as u32,
            n_path_segments: (self.n_path_segments + other.n_path_segments) as u32,
            n_clips: (self.n_clips + other.n_clips) as u32,
            n_open_clips: (self.n_open_clips + other.n_open_clips) as u32,
            flags: other.flags,
        }
    }

    /// The draw data, patch and witness parts of consistency.
    pub open spec fn draw_data_consistent(self) -> bool {
        &&& self.draw_data.len() == sum_of(self.draw_tags, scene_words())
        &&& patches_spaced(self.patches, self.draw_data.len(), 3)
        &&& forall|k: int|
            0 <= k < self.patches.len() ==> starts_image_payload(
                self.draw_tags,
                #[trigger] self.patches[k].draw_data_offset as int,
            )
    }

    /// The number of begin clip draw tags.
    pub open spec fn n_begin_clips(self) -> nat {
        sum_of(self.draw_tags, draw_tag_counter(DrawTag::BEGIN_CLIP))
    }

    /// The number of end clip draw tags.
    pub open spec fn n_end_clips(self) -> nat {
        sum_of(self.draw_tags, draw_tag_counter(DrawTag::END_CLIP))
    }

    /// The number of path markers in the path tag stream.
    pub open spec fn n_path_markers(self) -> nat {
        sum_of(self.path_tags, path_tag_counter(PathTag::PATH))
    }

    /// Whether a transform and a style are encoded before any path data or
    /// draw object, as an encoding requires: when there is path data or a
    /// draw object, there is a transform and a style.
    pub open spec fn is_framed(self) -> bool {
        self.path_data.len() > 0 || self.draw_tags.len() > 0 ==> self.transforms.len() > 0
            && self.styles.len() > 0
    }

    /// What every encoding built by the encoding operations satisfies: each
    /// draw tag is followed by exactly its payload in the draw data stream,
    /// every patch points at the payload of an image and the patches come in
    /// stream order, the path counter counts the path markers, and the clip
    /// counters count the begin and end clip tags.
    pub open spec fn is_consistent(self) -> bool {
        &&& self.draw_data_consistent()
        &&& self.n_paths == self.n_path_markers()
        &&& self.n_clips == self.n_begin_clips() + self.n_end_clips()
        &&& self.n_open_clips + self.n_end_clips() == self.n_begin_clips()
    }
}

/// Appending a draw tag with its payload keeps the draw data consistent, and
/// counts the tag among the begin or end clips when it is one.
proof fn lemma_with_draw(e: EncodingView, tag: u32, payload: Seq<u32>)
    requires
        e.draw_data_consistent(),
        payload.len() == DrawTag(tag).scene_size(),
    ensures
        e.with_draw(tag, payload).draw_data_consistent(),
        e.with_draw(tag, payload).n_begin_clips() == e.n_begin_clips() + if tag
            == DrawTag::BEGIN_CLIP {
            1nat
        } else {
            0nat
        },
        e.with_draw(tag, payload).n_end_clips() == e.n_end_clips() + if tag == DrawTag::END_CLIP {
            1nat
        } else {
            0nat
        },
{
    let f = e.with_draw(tag, payload);
    lemma_sum_push(e.draw_tags, DrawTag(tag), scene_words());
    lemma_sum_push(e.draw_tags, DrawTag(tag), draw_tag_counter(DrawTag::BEGIN_CLIP));
    lemma_sum_push(e.draw_tags, DrawTag(tag), draw_tag_counter(DrawTag::END_CLIP));
    assert forall|k: int| 0 <= k < f.patches.len() implies starts_image_payload(
        f.draw_tags,
        #[trigger] f.patches[k].draw_data_offset as int,
    ) by {
        let off = f.patches[k].draw_data_offset as int;
        assert(starts_image_payload(e.draw_tags, off));
        lemma_payload_start_concat(e.draw_tags, seq![DrawTag(tag)], off);
        assert(e.draw_tags + seq![DrawTag(tag)] =~= f.draw_tags);
    }
}

/// Encoding an image keeps an encoding consistent.
proof fn lemma_with_image(e: EncodingView, image: ImageBrush, alpha: u8)
    requires
        e.is_consistent(),
        e.draw_data.len() <= usize::MAX,
    ensures
        e.with_image(image, alpha).is_consistent(),
{
    let f = e.with_image(image, alpha);
    lemma_image_draw_data(e, image, alpha);
    assert(f.draw_tags == e.draw_tags.push(DrawTag(DrawTag::IMAGE)));
    lemma_sum_push(e.draw_tags, DrawTag(DrawTag::IMAGE), draw_tag_counter(DrawTag::BEGIN_CLIP));
    lemma_sum_push(e.draw_tags, DrawTag(DrawTag::IMAGE), draw_tag_counter(DrawTag::END_CLIP));
    assert(f.n_begin_clips() == e.n_begin_clips());
    assert(f.n_end_clips() == e.n_end_clips());
    assert(f.path_tags == e.path_tags);
    assert(f.n_path_markers() == e.n_path_markers());
}

/// Encoding an image keeps the draw data of an encoding consistent.
#[verifier::spinoff_prover]
proof fn lemma_image_draw_data(e: EncodingView, image: ImageBrush, alpha: u8)
    requires
        e.draw_data_consistent(),
        e.draw_data.len() <= usize::MAX,
    ensures
        e.with_image(image, alpha).draw_data_consistent(),
{
    let payload = seq![0u32, image.packed_size(), image.packed_sampling(alpha)];
    let f = e.with_image(image, alpha);
    let tags = e.draw_tags;
    let n = e.patches.len() as int;
    let offset = e.draw_data.len();
    let new_patch = Patch { draw_data_offset: offset as usize, image: image.image };
    assert(f.patches == e.patches.push(new_patch));
    assert(f.draw_tags == tags.push(DrawTag(DrawTag::IMAGE)));
    assert(f.draw_data == e.draw_data + payload);
    lemma_sum_push(tags, DrawTag(DrawTag::IMAGE), scene_words());
    assert(f.draw_data.len() == sum_of(f.draw_tags, scene_words()));
    assert(starts_image_payload(f.draw_tags, offset as int)) by {
        assert(f.draw_tags.take(tags.len() as int) =~= tags);
        assert(data_offset(f.draw_tags, tags.len() as int) == offset);
    }
    assert forall|k: int| 0 <= k < f.patches.len() implies starts_image_payload(
        f.draw_tags,
        #[trigger] f.patches[k].draw_data_offset as int,
    ) by {
        if k < n {
            assert(f.patches[k] == e.patches[k]);
            lemma_payload_start_concat(
                tags,
                seq![DrawTag(DrawTag::IMAGE)],
                e.patches[k].draw_data_offset as int,
            );
            assert(tags + seq![DrawTag(DrawTag::IMAGE)] =~= f.draw_tags);
        }
    }
    assert(n > 0 ==> e.patches[n - 1].draw_data_offset + 3 <= offset);
    assert forall|k: int| 0 <= k < f.patches.len() implies #[trigger] f.patches[k].draw_data_offset
        + 3 <= f.draw_data.len() by {
        if k < n {
            assert(f.patches[k] == e.patches[k]);
        }
    }
    assert forall|k: int|
        0 <= k < f.patches.len() - 1 implies #[trigger] f.patches[k].draw_data_offset + 3
        <= f.patches[k + 1].draw_data_offset by {
        assert(f.patches[k] == e.patches[k]);
        if k + 1 < n {
            assert(f.patches[k + 1] == e.patches[k + 1]);
        }
    }
}

/// Encoding an end clip keeps an encoding consistent.
proof fn lemma_with_end_clip(e: EncodingView)
    requires
        e.is_consistent(),
        e.n_open_clips > 0 ==> e.n_paths < u32::MAX && e.n_clips < u32::MAX,
    ensures
        e.with_end_clip().is_consistent(),
{
    if e.n_open_clips > 0 {
        let w = e.with_draw(DrawTag::END_CLIP, Seq::empty());
        let f = e.with_end_clip();
        lemma_with_draw(e, DrawTag::END_CLIP, Seq::empty());
        lemma_sum_push(e.path_tags, PathTag(PathTag::PATH), path_tag_counter(PathTag::PATH));
        assert(f.draw_tags == w.draw_tags && f.draw_data == w.draw_data && f.patches
            == w.patches);
        assert(f.draw_data_consistent());
        assert(f.n_end_clips() == e.n_end_clips() + 1);
        assert(f.n_begin_clips() == e.n_begin_clips());
        assert(f.n_path_markers() == e.n_path_markers() + 1);
    }
}

/// An image payload start stays one when more draw tags follow.
proof fn lemma_payload_start_concat(tags: Seq<DrawTag>, more: Seq<DrawTag>, offset: int)
    requires
        starts_image_payload(tags, offset),
    ensures
        starts_image_payload(tags + more, offset),
{
    let j = choose|j: int|
        0 <= j < tags.len() && tags[j].0 == DrawTag::IMAGE && #[trigger] data_offset(tags, j)
            == offset;
    assert((tags + more).take(j) =~= tags.take(j));
    assert(data_offset(tags + more, j) == offset);
}

/// An image payload start moves by the draw data of the tags put before it.
proof fn lemma_payload_start_shift(before: Seq<DrawTag>, tags: Seq<DrawTag>, offset: int)
    requires
        starts_image_payload(tags, offset),
    ensures
        starts_image_payload(before + tags, sum_of(before, scene_words()) + offset),
{
    let j = choose|j: int|
        0 <= j < tags.len() && tags[j].0 == DrawTag::IMAGE && #[trigger] data_offset(tags, j)
            == offset;
    let i = before.len() + j;
    assert((before + tags).take(i) =~= before + tags.take(j));
    lemma_sum_concat(before, tags.take(j), scene_words());
    assert(data_offset(before + tags, i) == sum_of(before, scene_words()) + offset);
    assert((before + tags)[i] == tags[j]);
}

/// Appending one consistent encoding to another gives a consistent encoding,
/// when the counters do not overflow and the moved patch offsets fit in
/// `usize`.
#[verifier::spinoff_prover]
proof fn lemma_appended_consistent(
    a: EncodingView,
    b: EncodingView,
    transforms: Option<Seq<Transform>>,
)
    requires
        a.is_consistent(),
        b.is_consistent(),
        patches_shiftable(b.patches, a.draw_data.len()),
        a.n_paths + b.n_paths <= u32::MAX,
        a.n_clips + b.n_clips <= u32::MAX,
        a.n_open_clips + b.n_open_clips <= u32::MAX,
    ensures
        a.appended(b, transforms).is_consistent(),
{
    let f = a.appended(b, transforms);
    let base = a.draw_data.len();
    let moved = shifted_patches(b.patches, base);
    let na = a.patches.len() as int;
    lemma_sum_concat(a.draw_tags, b.draw_tags, scene_words());
    lemma_sum_concat(a.draw_tags, b.draw_tags, draw_tag_counter(DrawTag::BEGIN_CLIP));
    lemma_sum_concat(a.draw_tags, b.draw_tags, draw_tag_counter(DrawTag::END_CLIP));
    lemma_sum_concat(a.path_tags, b.path_tags, path_tag_counter(PathTag::PATH));
    assert(f.draw_data.len() == sum_of(f.draw_tags, scene_words()));
    assert(f.patches == a.patches + moved);
    assert forall|k: int| 0 <= k < moved.len() implies (#[trigger] moved[k]).draw_data_offset
        == b.patches[k].draw_data_offset + base by {
        assert(b.patches[k].draw_data_offset + base <= usize::MAX);
    }
    assert forall|k: int| 0 <= k < f.patches.len() implies starts_image_payload(
        f.draw_tags,
        #[trigger] f.patches[k].draw_data_offset as int,
    ) by {
        if k < na {
            assert(f.patches[k] == a.patches[k]);
            lemma_payload_start_concat(
                a.draw_tags,
                b.draw_tags,
                a.patches[k].draw_data_offset as int,
            );
        } else {
            assert(f.patches[k] == moved[k - na]);
            lemma_payload_start_shift(
                a.draw_tags,
                b.draw_tags,
                b.patches[k - na].draw_data_offset as int,
            );
        }
    }
    assert forall|k: int| 0 <= k < f.patches.len() implies #[trigger] f.patches[k].draw_data_offset
        + 3 <= f.draw_data.len() by {
        if k < na {
            assert(f.patches[k] == a.patches[k]);
            assert(a.patches[k].draw_data_offset + 3 <= a.draw_data.len());
        } else {
            assert(f.patches[k] == moved[k - na]);
            assert(b.patches[k - na].draw_data_offset + 3 <= b.draw_data.len());
        }
    }
    assert forall|k: int| 0 <= k < f.patches.len() - 1 implies #[trigger] f.patches[k].draw_data_offset
        + 3 <= f.patches[k + 1].draw_data_offset by {
        if k + 1 < na {
            assert(f.patches[k] == a.patches[k]);
            assert(f.patches[k + 1] == a.patches[k + 1]);
        } else if k + 1 == na {
            assert(f.patches[k] == a.patches[k]);
            assert(f.patches[k + 1] == moved[0]);
            assert(a.patches[k].draw_data_offset + 3 <= a.draw_data.len());
        } else {
            assert(f.patches[k] == moved[k - na]);
            assert(f.patches[k + 1] == moved[k - na + 1]);
            assert(b.patches[k - na].draw_data_offset + 3 <= b.patches[k - na + 1].draw_data_offset);
        }
    }
    assert(f.draw_data_consistent());
}

/// Appends the elements of `src` to `dst`.
fn extend_from<T: Copy>(dst: &mut Vec<T>, src: &Vec<T>)
    ensures
        final(dst)@ == old(dst)@ + src@,
{
    let mut i: usize = 0;
    while i < src.len()
        invariant
            0 <= i <= src@.len(),
            dst@ == old(dst)@ + src@.take(i as int),
        decreases src@.len() - i,
    {
        dst.push(src[i]);
        i = i + 1;
        assert(src@.take(i as int) =~= src@.take(i - 1).push(src@[i - 1]));
    }
    assert(src@.take(src@.len() as int) =~= src@);
}

/// Encoded data streams for a scene.
///
/// # Invariants
///
/// * At least one transform and style must be encoded before any path data
///   or draw object.
#[derive(Clone)]
pub struct Encoding {
    /// The path tag stream.
    pub path_tags: Vec<PathTag>,
    /// The path data stream.
    /// Stores all coordinates on paths.
    /// Stored as `u32` as all comparisons are performed bitwise.
    pub path_data: Vec<u32>,
    /// The draw tag stream.
    pub draw_tags: Vec<DrawTag>,
    /// The draw data stream.
    pub draw_data: Vec<u32>,
    /// The transform stream.
    pub transforms: Vec<Transform>,
    /// The style stream
    pub styles: Vec<Style>,
    /// Late bound resource data.
    pub resources: Resources,
    /// Number of encoded paths.
    pub n_paths: u32,
    /// Number of encoded path segments.
    pub n_path_segments: u32,
    /// Number of encoded clips/layers.
    pub n_clips: u32,
    /// Number of unclosed clips/layers.
    pub n_open_clips: u32,
    /// Flags that capture the current state of the encoding.
    pub flags: u32,
}

/// Encoded data for late bound resources.
#[derive(Clone)]
pub struct Resources {
    /// Draw data patches for late bound resources.
    pub patches: Vec<Patch>,
}

impl View for Encoding {
    type V = EncodingView;

    open spec fn view(&self) -> EncodingView {
        EncodingView {
            path_tags: self.path_tags@,
            path_data: self.path_data@,
            draw_tags: self.draw_tags@,
            draw_data: self.draw_data@,
            transforms: self.transforms@,
            styles: self.styles@,
            patches: self.resources.patches@,
            n_paths: self.n_paths,
            n_path_segments: self.n_path_segments,
            n_clips: self.n_clips,
            n_open_clips: self.n_open_clips,
            flags: self.flags,
        }
    }
}

impl Default for Encoding {
    fn default() -> (r: Self)
        ensures
            r@ == EncodingView::empty(),
    {
        Encoding::new()
    }
}

impl Default for Resources {
    fn default() -> (r: Self)
        ensures
            r.patches@ == Seq::<Patch>::empty(),
    {
        Resources { patches: Vec::new() }
    }
}

impl Resources {
    // This is not called "clear" because "clear" has other implications
    // in graphics contexts.
    fn reset(&mut self)
        ensures
            final(self).patches@ == Seq::<Patch>::empty(),
    {
        self.patches.clear();
    }
}

impl Encoding {
    /// Forces encoding of the next transform even if it matches
    /// the current transform in the stream.
    pub const FORCE_NEXT_TRANSFORM: u32 = 1;

    /// Forces encoding of the next style even if it matches
    /// the current style in the stream.
    pub const FORCE_NEXT_STYLE: u32 = 2;

    /// Creates a new encoding.
    pub fn new() -> (r: Self)
        ensures
            r@ == EncodingView::empty(),
    {
        Encoding {
            path_tags: Vec::new(),
            path_data: Vec::new(),
            draw_tags: Vec::new(),
            draw_data: Vec::new(),
            transforms: Vec::new(),
            styles: Vec::new(),
            resources: Resources { patches: Vec::new() },
            n_paths: 0,
            n_path_segments: 0,
            n_clips: 0,
            n_open_clips: 0,
            flags: 0,
        }
    }

    /// Returns `true` if the encoding is empty.
    pub fn is_empty(&self) -> (r: bool)
        ensures
            r == (self.path_tags@.len() == 0),
    {
        self.path_tags.len() == 0
    }

    // This is not called "clear" because "clear" has other implications
    // in graphics contexts.
    /// Clears the encoding.
    pub fn reset(&mut self)
        ensures
            final(self)@ == EncodingView::empty(),
    {
        self.transforms.clear();
        self.path_tags.clear();
        self.path_data.clear();
        self.styles.clear();
        self.draw_data.clear();
        self.draw_tags.clear();
        self.n_paths = 0;
        self.n_path_segments = 0;
        self.n_clips = 0;
        self.n_open_clips = 0;
        self.flags = 0;
        self.resources.reset();
    }
}

impl Encoding {
    /// Encodes a fill style.
    pub fn encode_fill_style(&mut self, fill: Fill)
        ensures
            final(self)@ == old(self)@.with_style(Style::spec_from_fill(fill)),
            old(self)@.is_consistent() ==> final(self)@.is_consistent(),
    {
        self.encode_style(Style::from_fill(fill));
    }

    /// Encodes a stroke style, given as the style word pair of the stroke.
    pub fn encode_stroke_style(&mut self, style: Style)
        ensures
            final(self)@ == old(self)@.with_style(style),
            old(self)@.is_consistent() ==> final(self)@.is_consistent(),
    {
        self.encode_style(style);
    }

    pub(crate) fn encode_style(&mut self, style: Style)
        ensures
            final(self)@ == old(self)@.with_style(style),
            old(self)@.is_consistent() ==> final(self)@.is_consistent(),
    {
        let n = self.styles.len();
        if self.flags & Self::FORCE_NEXT_STYLE != 0 || n == 0 || !self.styles[n - 1].style_eq(
            &style,
        ) {
            proof {
                lemma_sum_push(
                    self.path_tags@,
                    PathTag(PathTag::STYLE),
                    path_tag_counter(PathTag::PATH),
                );
            }
            self.path_tags.push(PathTag(PathTag::STYLE));
            self.styles.push(style);
            self.flags = self.flags & !Self::FORCE_NEXT_STYLE;
        }
    }

    /// Encodes a transform.
    ///
    /// If the given transform is different from the current one, encodes it and
    /// returns true. Otherwise, encodes nothing and returns false.
    pub fn encode_transform(&mut self, transform: Transform) -> (r: bool)
        ensures
            r == old(self)@.transform_is_new(transform),
            final(self)@ == old(self)@.with_transform(transform),
            old(self)@.is_consistent() ==> final(self)@.is_consistent(),
    {
        let n = self.transforms.len();
        if self.flags & Self::FORCE_NEXT_TRANSFORM != 0 || n == 0
            || !self.transforms[n - 1].transform_eq(&transform) {
            proof {
                lemma_sum_push(
                    self.path_tags@,
                    PathTag(PathTag::TRANSFORM),
                    path_tag_counter(PathTag::PATH),
                );
            }
            self.path_tags.push(PathTag(PathTag::TRANSFORM));
            self.transforms.push(transform);
            self.flags = self.flags & !Self::FORCE_NEXT_TRANSFORM;
            true
        } else {
            false
        }
    }

    /// Encodes a brush: a solid color or an image (whose alpha has already been
    /// multiplied in); a gradient encodes nothing.
    pub fn encode_brush(&mut self, brush: &Brush)
        ensures
            final(self)@ == old(self)@.with_brush(*brush),
            old(self)@.is_consistent() ==> final(self)@.is_consistent(),
    {
        match brush {
            Brush::Solid(color) => {
                self.encode_color(*color);
            },
            Brush::Gradient => {},
            Brush::Image(image, alpha) => {
                self.encode_image(image, *alpha);
            },
        }
    }

    /// Encodes a solid color brush.
    pub fn encode_color(&mut self, color: DrawColor)
        ensures
            final(self)@ == old(self)@.with_draw(DrawTag::COLOR, seq![color.rgba]),
            old(self)@.is_consistent() ==> final(self)@.is_consistent(),
    {
        proof {
            if self@.is_consistent() {
                lemma_with_draw(self@, DrawTag::COLOR, seq![color.rgba]);
            }
        }
        self.draw_tags.push(DrawTag(DrawTag::COLOR));
        let DrawColor { rgba } = color;
        self.draw_data.push(rgba);
        assert(self.draw_data@ =~= old(self).draw_data@ + seq![color.rgba]);
    }

    /// Encodes an image brush with an 8-bit alpha.
    pub fn encode_image(&mut self, image: &ImageBrush, alpha: u8)
        ensures
            final(self)@ == old(self)@.with_image(*image, alpha),
            old(self)@.is_consistent() ==> final(self)@.is_consistent(),
    {
        let width = image.width;
        let height = image.height;
        let q = image.quality.to_u32();
        let x = image.x_extend.to_u32();
        let y = image.y_extend.to_u32();
        let a = alpha as u32;
        assert(((width << 16u32) | (height & 0xffffu32)) == (width % 0x1_0000) * 0x1_0000 + height
            % 0x1_0000) by (bit_vector);
        assert(q <= 2 && x <= 2 && y <= 2 && a < 256 ==> ((q << 12u32) | (x << 10u32) | (y
            << 8u32) | a) == q * 0x1000 + x * 0x400 + y * 0x100 + a) by (bit_vector);
        let width_height = (width << 16) | (height & 0xFFFF);
        let sample_alpha = (q << 12) | (x << 10) | (y << 8) | a;
        let ghost payload = seq![0u32, width_height, sample_alpha];
        let ghost before = self@;
        let offset = self.draw_data.len();
        proof {
            if before.is_consistent() {
                lemma_with_image(before, *image, alpha);
            }
        }
        self.resources.patches.push(
            Patch { image: clone_image(&image.image), draw_data_offset: offset },
        );
        self.draw_tags.push(DrawTag(DrawTag::IMAGE));
        self.draw_data.push(0);
        self.draw_data.push(width_height);
        self.draw_data.push(sample_alpha);
        assert(self.draw_data@ =~= before.draw_data + payload);
        assert(self@ =~= before.with_image(*image, alpha));
    }

    /// Encodes a begin clip command, with the group alpha given by the bit
    /// pattern of its 32-bit float.
    pub fn encode_begin_clip(&mut self, blend_mode: BlendMode, alpha: u32)
        requires
            old(self).n_clips < u32::MAX,
            old(self).n_open_clips < u32::MAX,
        ensures
            final(self)@ == old(self)@.with_begin_clip(blend_mode, alpha),
            old(self)@.is_consistent() ==> final(self)@.is_consistent(),
    {
        let clip = DrawBeginClip::new(blend_mode, alpha);
        proof {
            if self@.is_consistent() {
                lemma_with_draw(self@, DrawTag::BEGIN_CLIP, seq![clip.blend_mode, clip.alpha]);
            }
        }
        self.draw_tags.push(DrawTag(DrawTag::BEGIN_CLIP));
        self.draw_data.push(clip.blend_mode);
        self.draw_data.push(clip.alpha);
        assert(self.draw_data@ =~= old(self).draw_data@ + seq![clip.blend_mode, clip.alpha]);
        self.n_clips = self.n_clips + 1;
        self.n_open_clips = self.n_open_clips + 1;
    }

    /// Encodes an end clip command; does nothing when no clip is open.
    pub fn encode_end_clip(&mut self)
        requires
            old(self).n_open_clips > 0 ==> old(self).n_paths < u32::MAX && old(self).n_clips
                < u32::MAX,
        ensures
            final(self)@ == old(self)@.with_end_clip(),
            old(self)@.is_consistent() ==> final(self)@.is_consistent(),
    {
        if self.n_open_clips > 0 {
            proof {
                if self@.is_consistent() {
                    lemma_with_end_clip(self@);
                }
            }
            self.draw_tags.push(DrawTag(DrawTag::END_CLIP));
            // This is a dummy path, and will go away with the new clip impl.
            self.path_tags.push(PathTag(PathTag::PATH));
            self.n_paths = self.n_paths + 1;
            self.n_clips = self.n_clips + 1;
            self.n_open_clips = self.n_open_clips - 1;
            assert(self.draw_data@ =~= old(self).draw_data@ + Seq::<u32>::empty());
        }
    }

    /// Forces the next transform and style to be encoded even if they match
    /// the current state.
    pub fn force_next_transform_and_style(&mut self)
        ensures
            final(self)@ == old(self)@.with_forced(),
            old(self)@.is_consistent() ==> final(self)@.is_consistent(),
    {
        self.flags = self.flags | (Self::FORCE_NEXT_TRANSFORM | Self::FORCE_NEXT_STYLE);
    }

    /// Swaps the last two tags in the path tag stream; used for transformed
    /// gradients.
    pub fn swap_last_path_tags(&mut self)
        requires
            old(self).path_tags@.len() >= 2,
        ensures
            final(self)@ == old(self)@.with_last_path_tags_swapped(),
            old(self)@.is_consistent() ==> final(self)@.is_consistent(),
    {
        let len = self.path_tags.len();
        proof {
            crate::sums::lemma_sum_swap_last(self.path_tags@, path_tag_counter(PathTag::PATH));
        }
        let last = self.path_tags[len - 1];
        let before_last = self.path_tags[len - 2];
        self.path_tags.set(len - 1, before_last);
        self.path_tags.set(len - 2, last);
    }
}

impl Encoding {
    /// Appends another encoding to this one. When the other encoding is drawn
    /// under a transform, `transformed` holds its transforms, each already
    /// combined with that transform; otherwise they are appended as they are.
    ///
    /// The patches of `other` move with its draw data: each offset grows by
    /// the length of the draw data already in this encoding, so that it still
    /// points at the atlas coordinates of its image.
    pub fn append(&mut self, other: &Self, transformed: &Option<Vec<Transform>>)
        requires
            old(self).n_paths + other.n_paths <= u32::MAX,
            old(self).n_path_segments + other.n_path_segments <= u32::MAX,
            old(self).n_clips + other.n_clips <= u32::MAX,
            old(self).n_open_clips + other.n_open_clips <= u32::MAX,
            patches_shiftable(other@.patches, old(self)@.draw_data.len()),
        ensures
            final(self)@ == old(self)@.appended(
                other@,
                match transformed {
                    Some(t) => Some(t@),
                    None => None,
                },
            ),
            old(self)@.is_consistent() && other@.is_consistent() ==> final(self)@.is_consistent(),
            final(self).n_paths == old(self).n_paths + other.n_paths,
            final(self).n_path_segments == old(self).n_path_segments + other.n_path_segments,
            final(self).n_clips == old(self).n_clips + other.n_clips,
            final(self).n_open_clips == old(self).n_open_clips + other.n_open_clips,
            final(self).flags == other.flags,
    {
        let ghost before = self@;
        let base = self.draw_data.len();
        let ghost moved = shifted_patches(other@.patches, base as nat);
        let mut i: usize = 0;
        while i < other.resources.patches.len()
            invariant
                0 <= i <= other.resources.patches@.len(),
                base == before.draw_data.len(),
                moved == shifted_patches(other@.patches, base as nat),
                patches_shiftable(other@.patches, base as nat),
                self.resources.patches@ == before.patches + moved.take(i as int),
                self@ == (EncodingView { patches: self.resources.patches@, ..before }),
            decreases other.resources.patches@.len() - i,
        {
            let patch = &other.resources.patches[i];
            assert(patch.draw_data_offset + base <= usize::MAX);
            let moved_patch = Patch {
                draw_data_offset: patch.draw_data_offset + base,
                image: clone_image(&patch.image),
            };
            self.resources.patches.push(moved_patch);
            i = i + 1;
            assert(moved.take(i as int) =~= moved.take(i - 1).push(moved[i - 1]));
        }
        assert(moved.take(moved.len() as int) =~= moved);
        extend_from(&mut self.path_tags, &other.path_tags);
        extend_from(&mut self.path_data, &other.path_data);
        extend_from(&mut self.draw_tags, &other.draw_tags);
        extend_from(&mut self.draw_data, &other.draw_data);
        self.n_paths = self.n_paths + other.n_paths;
        self.n_path_segments = self.n_path_segments + other.n_path_segments;
        self.n_clips = self.n_clips + other.n_clips;
        self.n_open_clips = self.n_open_clips + other.n_open_clips;
        self.flags = other.flags;
        match transformed {
            Some(t) => extend_from(&mut self.transforms, t),
            None => extend_from(&mut self.transforms, &other.transforms),
        }
        extend_from(&mut self.styles, &other.styles);
        proof {
            let t = match transformed {
                Some(t) => Some(t@),
                None => None,
            };
            assert(self@ =~= before.appended(other@, t));
            if before.is_consistent() && other@.is_consistent() {
                lemma_appended_consistent(before, other@, t);
            }
        }
    }
}

proof fn lemma_flag_bits(flags: u32)
    by (bit_vector)
    ensures
        (flags & !1u32) & 1u32 == 0u32,
        (flags & !2u32) & 2u32 == 0u32,
        (flags | (1u32 | 2u32)) & 1u32 != 0u32,
        (flags | (1u32 | 2u32)) & 2u32 != 0u32,
        ((flags | (1u32 | 2u32)) & !1u32) & 2u32 != 0u32,
        ((flags | (1u32 | 2u32)) & !2u32) & 1u32 != 0u32,
{
}

/// Encoding the same transform twice in a row encodes it once: the second
/// time nothing is encoded, unless the transform holds a NaN, which equals
/// nothing.
pub proof fn lemma_transform_dedup(e: EncodingView, t: Transform)
    requires
        t.spec_eq(t),
    ensures
        !e.with_transform(t).transform_is_new(t),
        e.with_transform(t).with_transform(t) == e.with_transform(t),
{
    lemma_flag_bits(e.flags);
}

/// Encoding the same style twice in a row encodes it once, unless its width
/// is a NaN.
pub proof fn lemma_style_dedup(e: EncodingView, style: Style)
    requires
        style.spec_eq(style),
    ensures
        !e.with_style(style).style_is_new(style),
        e.with_style(style).with_style(style) == e.with_style(style),
{
    lemma_flag_bits(e.flags);
}

/// After the next transform and style are forced, both are encoded whatever
/// they are, in either order.
pub proof fn lemma_forced_encodes(e: EncodingView, t: Transform, style: Style)
    ensures
        e.with_forced().transform_is_new(t),
        e.with_forced().style_is_new(style),
        e.with_forced().with_transform(t).style_is_new(style),
        e.with_forced().with_style(style).transform_is_new(t),
{
    lemma_flag_bits(e.flags);
}

/// A transform that differs from the one encoded before it, in the bits of an
/// entry that are not both zeros, is encoded: the transform stream grows by it
/// and the path tags by a transform tag. So `encode_transform` reports `true`
/// for a translation by -10 after one by +10.
pub proof fn lemma_changed_transform_encoded(e: EncodingView, t: Transform, u: Transform, i: int)
    requires
        0 <= i < 6,
        t.words()[i] != u.words()[i],
        !(t.words()[i] % 0x8000_0000 == 0 && u.words()[i] % 0x8000_0000 == 0),
    ensures
        e.with_transform(t).transform_is_new(u),
        e.with_transform(t).with_transform(u).transforms == e.with_transform(t).transforms.push(u),
        e.with_transform(t).with_transform(u).path_tags == e.with_transform(t).path_tags.push(
            PathTag(PathTag::TRANSFORM),
        ),
{
    let f = e.with_transform(t);
    let last = f.transforms.last();
    crate::path::lemma_f32_eq_semantics(t.words()[i], u.words()[i]);
    if f.transforms.len() > 0 && f.flags & Encoding::FORCE_NEXT_TRANSFORM == 0 && last.spec_eq(u) {
        assert(f32_eq(last.words()[i], u.words()[i]));
        if e.transform_is_new(t) {
            assert(last == t);
        } else {
            assert(last.spec_eq(t));
            assert(f32_eq(last.words()[i], t.words()[i]));
            crate::path::lemma_f32_eq_semantics(last.words()[i], t.words()[i]);
            crate::path::lemma_f32_eq_transitive(t.words()[i], last.words()[i], u.words()[i]);
        }
        assert(false);
    }
}

/// A style that differs from the one encoded before it, in its flags or in
/// the bits of its width when they are not both zeros, is encoded: the style
/// stream grows by it and the path tags by a style tag. So a stroke of width
/// 4 after one of width 1 is drawn 4 wide.
pub proof fn lemma_changed_style_encoded(e: EncodingView, s: Style, t: Style)
    requires
        s.flags_and_miter_limit != t.flags_and_miter_limit || (s.line_width != t.line_width && !(
        s.line_width % 0x8000_0000 == 0 && t.line_width % 0x8000_0000 == 0)),
    ensures
        e.with_style(s).style_is_new(t),
        e.with_style(s).with_style(t).styles == e.with_style(s).styles.push(t),
        e.with_style(s).with_style(t).path_tags == e.with_style(s).path_tags.push(
            PathTag(PathTag::STYLE),
        ),
{
    let f = e.with_style(s);
    let last = f.styles.last();
    crate::path::lemma_f32_eq_semantics(s.line_width, t.line_width);
    if f.styles.len() > 0 && f.flags & Encoding::FORCE_NEXT_STYLE == 0 && last.spec_eq(t) {
        if e.style_is_new(s) {
            assert(last == s);
        } else {
            assert(last.spec_eq(s));
            crate::path::lemma_f32_eq_semantics(last.line_width, s.line_width);
            crate::path::lemma_f32_eq_transitive(s.line_width, last.line_width, t.line_width);
        }
        assert(false);
    }
}

/// A begin clip followed by an end clip leaves the number of open clips as it
/// was, counts two clips and adds one path.
pub proof fn lemma_clip_pair(e: EncodingView, blend_mode: BlendMode, alpha: u32)
    requires
        e.n_clips + 2 <= u32::MAX,
        e.n_open_clips < u32::MAX,
        e.n_paths < u32::MAX,
    ensures
        e.with_begin_clip(blend_mode, alpha).with_end_clip().n_open_clips == e.n_open_clips,
        e.with_begin_clip(blend_mode, alpha).with_end_clip().n_clips == e.n_clips + 2,
        e.with_begin_clip(blend_mode, alpha).with_end_clip().n_paths == e.n_paths + 1,
{
}

/// Ending a clip when none is open changes nothing.
pub proof fn lemma_unopened_end_clip(e: EncodingView)
    requires
        e.n_open_clips == 0,
    ensures
        e.with_end_clip() == e,
{
}

/// Swapping the last two path tags twice gives back the encoding it started from.
pub proof fn lemma_swap_twice(e: EncodingView)
    requires
        e.path_tags.len() >= 2,
    ensures
        e.with_last_path_tags_swapped().with_last_path_tags_swapped() == e,
{
    let n = e.path_tags.len() as int;
    assert(e.with_last_path_tags_swapped().with_last_path_tags_swapped().path_tags
        =~= e.path_tags);
}

/// Appending an empty encoding leaves the streams and counters as they were
/// and clears the flags.
pub proof fn lemma_append_empty(e: EncodingView)
    ensures
        e.appended(EncodingView::empty(), None) == (EncodingView { flags: 0, ..e }),
{
    assert(shifted_patches(Seq::<Patch>::empty(), e.draw_data.len()) =~= Seq::<Patch>::empty());
    assert(e.appended(EncodingView::empty(), None) =~= (EncodingView { flags: 0, ..e }));
}

/// Appending to an empty encoding gives the appended encoding.
pub proof fn lemma_append_to_empty(e: EncodingView)
    ensures
        EncodingView::empty().appended(e, None) == e,
{
    assert(shifted_patches(e.patches, 0) =~= e.patches);
    assert(EncodingView::empty().appended(e, None) =~= e);
}

/// Appending sums the counters of the two encodings (when the sums fit in
/// `u32`), takes the flags of the appended one, and lays the streams of the
/// appended encoding after those of the first, its patches moved past the
/// first encoding's draw data; its transforms are replaced by the given ones.
pub proof fn lemma_append_sums(a: EncodingView, b: EncodingView, transforms: Option<Seq<Transform>>)
    requires
        a.n_paths + b.n_paths <= u32::MAX,
        a.n_path_segments + b.n_path_segments <= u32::MAX,
        a.n_clips + b.n_clips <= u32::MAX,
        a.n_open_clips + b.n_open_clips <= u32::MAX,
        patches_shiftable(b.patches, a.draw_data.len()),
    ensures
        ({
            let f = a.appended(b, transforms);
            let bt = match transforms {
                Some(t) => t,
                None => b.transforms,
            };
            &&& f.n_paths == a.n_paths + b.n_paths
            &&& f.n_path_segments == a.n_path_segments + b.n_path_segments
            &&& f.n_clips == a.n_clips + b.n_clips
            &&& f.n_open_clips == a.n_open_clips + b.n_open_clips
            &&& f.flags == b.flags
            &&& f.path_tags.len() == a.path_tags.len() + b.path_tags.len()
            &&& f.path_data.len() == a.path_data.len() + b.path_data.len()
            &&& f.draw_tags.len() == a.draw_tags.len() + b.draw_tags.len()
            &&& f.draw_data.len() == a.draw_data.len() + b.draw_data.len()
            &&& f.transforms.len() == a.transforms.len() + bt.len()
            &&& f.styles.len() == a.styles.len() + b.styles.len()
            &&& f.patches.len() == a.patches.len() + b.patches.len()
            &&& forall|i: int| 0 <= i < a.path_tags.len() ==> #[trigger] f.path_tags[i] == a.path_tags[i]
            &&& forall|i: int|
                0 <= i < b.path_tags.len() ==> f.path_tags[a.path_tags.len() + i] == #[trigger] b.path_tags[i]
            &&& forall|i: int| 0 <= i < a.path_data.len() ==> #[trigger] f.path_data[i] == a.path_data[i]
            &&& forall|i: int|
                0 <= i < b.path_data.len() ==> f.path_data[a.path_data.len() + i] == #[trigger] b.path_data[i]
            &&& forall|i: int| 0 <= i < a.draw_tags.len() ==> #[trigger] f.draw_tags[i] == a.draw_tags[i]
            &&& forall|i: int|
                0 <= i < b.draw_tags.len() ==> f.draw_tags[a.draw_tags.len() + i] == #[trigger] b.draw_tags[i]
            &&& forall|i: int| 0 <= i < a.draw_data.len() ==> #[trigger] f.draw_data[i] == a.draw_data[i]
            &&& forall|i: int|
                0 <= i < b.draw_data.len() ==> f.draw_data[a.draw_data.len() + i] == #[trigger] b.draw_data[i]
            &&& forall|i: int| 0 <= i < a.transforms.len() ==> #[trigger] f.transforms[i] == a.transforms[i]
            &&& forall|i: int|
                0 <= i < bt.len() ==> f.transforms[a.transforms.len() + i] == #[trigger] bt[i]
            &&& forall|i: int| 0 <= i < a.styles.len() ==> #[trigger] f.styles[i] == a.styles[i]
            &&& forall|i: int|
                0 <= i < b.styles.len() ==> f.styles[a.styles.len() + i] == #[trigger] b.styles[i]
            &&& forall|i: int| 0 <= i < a.patches.len() ==> #[trigger] f.patches[i] == a.patches[i]
            &&& forall|i: int|
                0 <= i < b.patches.len() ==> f.patches[a.patches.len() + i].draw_data_offset
                    == (#[trigger] b.patches[i]).draw_data_offset + a.draw_data.len() && f.patches[a.patches.len()
                    + i].image == b.patches[i].image
        }),
{
    let f = a.appended(b, transforms);
    assert forall|i: int|
        0 <= i < b.patches.len() implies f.patches[a.patches.len() + i].draw_data_offset
            == (#[trigger] b.patches[i]).draw_data_offset + a.draw_data.len() && f.patches[a.patches.len()
            + i].image == b.patches[i].image by {
        assert(b.patches[i].draw_data_offset + a.draw_data.len() <= usize::MAX);
    }
}

/// Appending is associative: appending `b` then `c` gives what appending `b`
/// with `c` appended gives, when the counters do not overflow and the moved
/// patch offsets fit in `usize`.
pub proof fn lemma_append_associative(a: EncodingView, b: EncodingView, c: EncodingView)
    requires
        a.n_paths + b.n_paths + c.n_paths <= u32::MAX,
        a.n_path_segments + b.n_path_segments + c.n_path_segments <= u32::MAX,
        a.n_clips + b.n_clips + c.n_clips <= u32::MAX,
        a.n_open_clips + b.n_open_clips + c.n_open_clips <= u32::MAX,
        patches_shiftable(b.patches, a.draw_data.len()),
        patches_shiftable(c.patches, a.draw_data.len() + b.draw_data.len()),
    ensures
        a.appended(b, None).appended(c, None) == a.appended(b.appended(c, None), None),
{
    let ab = a.appended(b, None);
    let bc = b.appended(c, None);
    let la = a.draw_data.len();
    let lb = b.draw_data.len();
    assert(shifted_patches(b.patches + shifted_patches(c.patches, lb), la) =~= shifted_patches(
        b.patches,
        la,
    ) + shifted_patches(c.patches, la + lb));
    assert(ab.appended(c, None).patches =~= a.appended(bc, None).patches);
    assert(ab.appended(c, None) =~= a.appended(bc, None));
}

/// The empty encoding is consistent.
pub proof fn lemma_empty_consistent()
    ensures
        EncodingView::empty().is_consistent(),
{
    let e = EncodingView::empty();
    crate::sums::lemma_sum_empty(e.draw_tags, scene_words());
    crate::sums::lemma_sum_empty(e.draw_tags, draw_tag_counter(DrawTag::BEGIN_CLIP));
    crate::sums::lemma_sum_empty(e.draw_tags, draw_tag_counter(DrawTag::END_CLIP));
    crate::sums::lemma_sum_empty(e.path_tags, path_tag_counter(PathTag::PATH));
}

} // verus!
