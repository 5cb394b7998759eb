//! Resolution of late bound resources and packing of an encoding into the
//! single buffer that the GPU reads.

use vstd::prelude::*;
use vstd::arithmetic::power2::pow2;
use peniko::Image;
use crate::config::PATH_REDUCE_WG;
use crate::draw::DrawTag;
use crate::encoding::{Encoding, EncodingView};
use crate::path::{PathTag, Style, Transform};
use crate::sums::{sum_of, lemma_sum_concat, lemma_sum_take};
use crate::words::{
    bytes_words, extend_words, flat, lemma_flat_push, lemma_word_bytes_concat, ne_bytes, push_word,
    read_words, word_bytes,
};

verus! {

/// peniko's `Image`, declared so that patches can carry it; Verus sees nothing
/// inside it.
#[verifier::external_type_specification]
#[verifier::external_body]
pub struct ExImage(Image);

/// Clones an image with peniko's `Image::clone` (derived). The contract claims
/// that the clone is the same value: the derived clone copies every field and
/// clones the pixel blob, which shares the same reference-counted data and
/// keeps its id.
#[verifier::external_body]
pub(crate) fn clone_image(image: &Image) -> (r: Image)
    ensures
        r == *image,
{
    image.clone()
}

/// Patch for a late bound resource.
pub struct Patch {
    /// Offset to the atlas coordinates in the draw data stream.
    pub draw_data_offset: usize,
    /// Underlying image data.
    pub image: Image,
}

impl Clone for Patch {
    fn clone(&self) -> (r: Patch)
        ensures
            r == *self,
    {
        Patch { draw_data_offset: self.draw_data_offset, image: clone_image(&self.image) }
    }
}

/// `len` rounded up to the next multiple of `alignment`.
pub open spec fn round_up(len: nat, alignment: nat) -> nat {
    if len % alignment == 0 {
        len
    } else {
        (len + (alignment - len % alignment)) as nat
    }
}

/// Whether `alignment` is a power of two that fits in 32 bits.
pub open spec fn is_u32_power_of_two(alignment: u32) -> bool {
    exists|k: nat| k < 32 && pow2(k) == alignment
}

/// Rounds `len` up by adding the low bits of its two's-complement negation
/// selected by `alignment - 1`: for a power of two `alignment`, the next
/// multiple of `alignment`.
pub fn align_up(len: usize, alignment: u32) -> (r: usize)
    requires
        alignment > 0,
        len + (0usize.wrapping_sub(len) & ((alignment - 1) as usize)) <= usize::MAX,
    ensures
        r == len + (0usize.wrapping_sub(len) & ((alignment - 1) as usize)),
        is_u32_power_of_two(alignment) ==> r == round_up(len as nat, alignment as nat),
{
    let neg = 0usize.wrapping_sub(len);
    let r = len + (neg & (alignment as usize - 1));
    proof {
        if is_u32_power_of_two(alignment) {
            let k = choose|k: nat| k < 32 && pow2(k) == alignment;
            lemma_neg_mask_is_round_up(len, neg, k);
        }
    }
    r
}

proof fn lemma_neg_mask_is_round_up(len: usize, neg: usize, k: nat)
    requires
        k < 32,
        neg == 0usize.wrapping_sub(len),
    ensures
        len + (neg & ((pow2(k) - 1) as usize)) == round_up(len as nat, pow2(k)),
{
    let a = pow2(k);
    vstd::arithmetic::power2::lemma_pow2_pos(k);
    vstd::arithmetic::power2::lemma2_to64();
    assert(usize::BITS == 32 || usize::BITS == 64);
    let n: nat = if usize::BITS == 32 { 32 } else { 64 };
    assert(usize::MAX + 1 == pow2(n));
    vstd::arithmetic::power2::lemma_pow2_adds(k, (n - k) as nat);
    let b = pow2((n - k) as nat);
    assert(pow2(n) == a * b);
    vstd::bits::lemma_usize_low_bits_mask_is_mod(neg, k);
    vstd::bits::lemma_low_bits_mask_values();
    assert(vstd::bits::low_bits_mask(k) == a - 1);
    assert(k < usize::BITS);
    vstd::bits::lemma_usize_pow2_no_overflow(k);
    assert(neg & ((a - 1) as usize) == neg % (a as usize));
    if len == 0 {
        assert(neg == 0);
        assert(0usize % (a as usize) == 0);
    } else {
        assert(neg == pow2(n) - len);
        vstd::arithmetic::div_mod::lemma_fundamental_div_mod(len as int, a as int);
        let q = len as int / a as int;
        let rm = len as int % a as int;
        if rm == 0 {
            assert(neg as int == a * (b - q)) by (nonlinear_arith)
                requires
                    neg as int == a * b - len,
                    len as int == a * q,
            ;
            vstd::arithmetic::div_mod::lemma_mod_multiples_basic(b - q, a as int);
            assert((b - q) * a == a * (b - q)) by (nonlinear_arith);
        } else {
            assert(neg as int == a * (b - q - 1) + (a - rm)) by (nonlinear_arith)
                requires
                    neg as int == a * b - len,
                    len as int == a * q + rm,
            ;
            assert(b - q - 1 >= 0) by (nonlinear_arith)
                requires
                    neg as int == a * (b - q - 1) + (a - rm),
                    0 < rm < a,
                    neg >= 0,
                    a > 0,
            ;
            vstd::arithmetic::div_mod::lemma_fundamental_div_mod_converse(
                neg as int,
                a as int,
                b - q - 1,
                a - rm,
            );
        }
    }
}

/// Layout of a packed encoding.
#[derive(Clone, Copy, Debug, PartialEq, Eq, Structural)]
pub struct Layout {
    /// Number of draw objects.
    pub n_draw_objects: u32,
    /// Number of paths.
    pub n_paths: u32,
    /// Number of clips.
    pub n_clips: u32,
    /// Start of binning data.
    pub bin_data_start: u32,
    /// Start of path tag stream.
    pub path_tag_base: u32,
    /// Start of path data stream.
    pub path_data_base: u32,
    /// Start of draw tag stream.
    pub draw_tag_base: u32,
    /// Start of draw data stream.
    pub draw_data_base: u32,
    /// Start of transform stream.
    pub transform_base: u32,
    /// Start of style stream.
    pub style_base: u32,
}

impl Layout {
    /// The layout with every field zero.
    pub open spec fn zeroed() -> Layout {
        Layout {
            n_draw_objects: 0,
            n_paths: 0,
            n_clips: 0,
            bin_data_start: 0,
            path_tag_base: 0,
            path_data_base: 0,
            draw_tag_base: 0,
            draw_data_base: 0,
            transform_base: 0,
            style_base: 0,
        }
    }

    /// Creates a zeroed layout.
    pub fn new() -> (r: Self)
        ensures
            r == Layout::zeroed(),
    {
        Layout {
            n_draw_objects: 0,
            n_paths: 0,
            n_clips: 0,
            bin_data_start: 0,
            path_tag_base: 0,
            path_data_base: 0,
            draw_tag_base: 0,
            draw_data_base: 0,
            transform_base: 0,
            style_base: 0,
        }
    }

    /// Returns the size in bytes of the path tag stream.
    pub fn path_tags_size(&self) -> (r: u32)
        requires
            self.path_data_base * 4 <= u32::MAX,
            self.path_tag_base <= self.path_data_base,
        ensures
            r == (self.path_data_base - self.path_tag_base) * 4,
    {
        let start = self.path_tag_base * 4;
        let end = self.path_data_base * 4;
        end - start
    }
}

impl Default for Layout {
    fn default() -> (r: Self)
        ensures
            r == Layout::zeroed(),
    {
        Layout::new()
    }
}

/// The words of a style: its flags and miter limit, then its line width.
pub open spec fn style_words_of() -> spec_fn(Style) -> Seq<u32> {
    |s: Style| seq![s.flags_and_miter_limit, s.line_width]
}

/// The words of a transform.
pub open spec fn transform_words_of() -> spec_fn(Transform) -> Seq<u32> {
    |t: Transform| t.words()
}

/// The number of draw info words a draw tag needs.
pub open spec fn info_words() -> spec_fn(DrawTag) -> nat {
    |t: DrawTag| t.spec_info_size() as nat
}

/// The path tag bytes of a packed scene: the path tags, then a path marker for
/// each clip left open.
pub open spec fn packed_path_tags(e: EncodingView) -> Seq<u8> {
    e.path_tags.map_values(|t: PathTag| t.0) + Seq::new(
        e.n_open_clips as nat,
        |i: int| PathTag::PATH,
    )
}

/// The draw tag words of a packed scene: the draw tags, then an end clip tag
/// for each clip left open.
pub open spec fn packed_draw_tags(e: EncodingView) -> Seq<u32> {
    e.draw_tags.map_values(|t: DrawTag| t.0) + Seq::new(
        e.n_open_clips as nat,
        |i: int| DrawTag::END_CLIP,
    )
}

/// The length in bytes of the path tag stream, padded to a multiple of four
/// workgroups of tags.
pub open spec fn path_tags_padded(e: EncodingView) -> nat {
    round_up(e.path_tags.len() + e.n_open_clips as nat, 4 * PATH_REDUCE_WG as nat)
}

/// The size in bytes of each section of a packed scene and of the whole.
pub open spec fn path_data_end(e: EncodingView) -> nat {
    path_tags_padded(e) + 4 * e.path_data.len()
}

pub open spec fn draw_tags_end(e: EncodingView) -> nat {
    path_data_end(e) + 4 * (e.draw_tags.len() + e.n_open_clips as nat)
}

pub open spec fn draw_data_end(e: EncodingView) -> nat {
    draw_tags_end(e) + 4 * e.draw_data.len()
}

pub open spec fn transforms_end(e: EncodingView) -> nat {
    draw_data_end(e) + 24 * e.transforms.len()
}

/// The full size in bytes of the packed scene.
pub open spec fn scene_buffer_size(e: EncodingView) -> nat {
    transforms_end(e) + 8 * e.styles.len()
}

/// The packed scene of an encoding whose draw data stream is `draw_data`:
/// the padded path tags, then the words of the path data, the draw tags, the
/// draw data, the transforms and the styles.
pub open spec fn packed_scene(e: EncodingView, draw_data: Seq<u32>) -> Seq<u8> {
    packed_path_tags(e) + Seq::new(
        (path_tags_padded(e) - packed_path_tags(e).len()) as nat,
        |i: int| 0u8,
    ) + word_bytes(e.path_data) + word_bytes(packed_draw_tags(e)) + word_bytes(draw_data)
        + word_bytes(flat(e.transforms, 6, transform_words_of())) + word_bytes(
        flat(e.styles, 2, style_words_of()),
    )
}

/// The layout of the packed scene of an encoding.
pub open spec fn scene_layout(e: EncodingView) -> Layout {
    Layout {
        n_draw_objects: e.n_paths,
        n_paths: e.n_paths,
        n_clips: e.n_clips,
        bin_data_start: sum_of(e.draw_tags, info_words()) as u32,
        path_tag_base: 0,
        path_data_base: (path_tags_padded(e) / 4) as u32,
        draw_tag_base: (path_data_end(e) / 4) as u32,
        draw_data_base: (draw_tags_end(e) / 4) as u32,
        transform_base: (draw_data_end(e) / 4) as u32,
        style_base: (transforms_end(e) / 4) as u32,
    }
}

/// Whether an encoding can be packed: the packed scene fits in memory and the
/// draw info words fit in 32 bits.
pub open spec fn packable(e: EncodingView) -> bool {
    &&& scene_buffer_size(e) <= usize::MAX
    &&& sum_of(e.draw_tags, info_words()) <= u32::MAX
}

struct SceneBufferSizes {
    /// Full size of the scene buffer in bytes.
    buffer_size: usize,
    /// Padded length of the path tag stream in bytes.
    path_tag_padded: usize,
}

impl SceneBufferSizes {
    /// Computes common scene buffer sizes for the given encoding and patch
    /// stream sizes.
    fn new(encoding: &Encoding) -> (r: Self)
        requires
            scene_buffer_size(encoding@) <= usize::MAX,
        ensures
            r.buffer_size == scene_buffer_size(encoding@),
            r.path_tag_padded == path_tags_padded(encoding@),
    {
        let n_path_tags = encoding.path_tags.len() + encoding.n_open_clips as usize;
        let alignment = 4 * PATH_REDUCE_WG;
        proof {
            vstd::arithmetic::power2::lemma2_to64();
            assert(pow2(10) == 1024);
            assert(is_u32_power_of_two(alignment));
            lemma_neg_mask_is_round_up(n_path_tags, 0usize.wrapping_sub(n_path_tags), 10);
            assert(round_up(n_path_tags as nat, 1024) >= n_path_tags);
        }
        let path_tag_padded = align_up(n_path_tags, alignment);
        let buffer_size = path_tag_padded + slice_size_in_bytes(encoding.path_data.len(), 0, 4)
            + slice_size_in_bytes(encoding.draw_tags.len(), encoding.n_open_clips as usize, 4)
            + slice_size_in_bytes(encoding.draw_data.len(), 0, 4) + slice_size_in_bytes(
            encoding.transforms.len(),
            0,
            24,
        ) + slice_size_in_bytes(encoding.styles.len(), 0, 8);
        Self { buffer_size, path_tag_padded }
    }
}

/// The size in bytes of `len + extra` elements of `elem_size` bytes each.
fn slice_size_in_bytes(len: usize, extra: usize, elem_size: usize) -> (r: usize)
    requires
        len + extra <= usize::MAX,
        (len + extra) * elem_size <= usize::MAX,
    ensures
        r == (len + extra) * elem_size,
{
    (len + extra) * elem_size
}

/// The number of whole words in `byte_size` bytes, truncated to 32 bits.
fn size_to_words(byte_size: usize) -> (r: u32)
    ensures
        r == (byte_size / 4) as u32,
{
    (byte_size / 4) as u32
}

/// The number of draw info words of all the draw tags.
fn bin_data_start(tags: &Vec<DrawTag>) -> (r: u32)
    requires
        sum_of(tags@, info_words()) <= u32::MAX,
    ensures
        r == sum_of(tags@, info_words()),
{
    let mut total: u32 = 0;
    let mut i: usize = 0;
    proof {
        crate::sums::lemma_sum_empty(tags@.take(0), info_words());
    }
    while i < tags.len()
        invariant
            0 <= i <= tags@.len(),
            total == sum_of(tags@.take(i as int), info_words()),
            sum_of(tags@, info_words()) <= u32::MAX,
        decreases tags@.len() - i,
    {
        proof {
            lemma_sum_take(tags@, i as int, info_words());
            lemma_sum_concat(tags@.take(i + 1), tags@.skip(i + 1), info_words());
            assert(tags@.take(i + 1) + tags@.skip(i + 1) =~= tags@);
        }
        total = total + tags[i].info_size();
        i = i + 1;
    }
    assert(tags@.take(tags@.len() as int) =~= tags@);
    total
}

/// Writes the path tag section: the path tags, a path marker for each open
/// clip, and zeros up to the padded length.
fn write_path_tags(encoding: &Encoding, data: &mut Vec<u8>, path_tag_padded: usize)
    requires
        old(data)@.len() == 0,
        path_tag_padded == path_tags_padded(encoding@),
    ensures
        final(data)@ == packed_path_tags(encoding@) + Seq::new(
            (path_tags_padded(encoding@) - packed_path_tags(encoding@).len()) as nat,
            |i: int| 0u8,
        ),
{
    let ghost packed = packed_path_tags(encoding@);
    let ghost tags = encoding.path_tags@.map_values(|t: PathTag| t.0);
    let mut i: usize = 0;
    while i < encoding.path_tags.len()
        invariant
            0 <= i <= encoding.path_tags@.len(),
            tags == encoding.path_tags@.map_values(|t: PathTag| t.0),
            data@ =~= tags.take(i as int),
        decreases encoding.path_tags@.len() - i,
    {
        data.push(encoding.path_tags[i].0);
        i = i + 1;
        assert(tags.take(i as int) =~= tags.take(i - 1).push(tags[i - 1]));
    }
    assert(tags.take(tags.len() as int) =~= tags);
    let n_open = encoding.n_open_clips;
    let mut j: u32 = 0;
    while j < n_open
        invariant
            0 <= j <= n_open,
            n_open == encoding.n_open_clips,
            tags == encoding.path_tags@.map_values(|t: PathTag| t.0),
            data@ =~= tags + Seq::new(j as nat, |i: int| PathTag::PATH),
        decreases n_open - j,
    {
        data.push(PathTag::PATH);
        j = j + 1;
    }
    assert(data@ =~= packed);
    proof {
        vstd::arithmetic::div_mod::lemma_fundamental_div_mod(packed.len() as int, 1024);
    }
    data.resize(path_tag_padded, 0);
    assert(data@ =~= packed + Seq::new(
        (path_tags_padded(encoding@) - packed.len()) as nat,
        |i: int| 0u8,
    ));
}

/// Writes the draw tag section: the draw tags, then an end clip tag for each
/// open clip.
fn write_draw_tags(encoding: &Encoding, data: &mut Vec<u8>)
    requires
        encoding.draw_tags@.len() + encoding.n_open_clips <= usize::MAX,
    ensures
        final(data)@ == old(data)@ + word_bytes(packed_draw_tags(encoding@)),
{
    let ghost words = packed_draw_tags(encoding@);
    let n_tags = encoding.draw_tags.len();
    let total = n_tags + encoding.n_open_clips as usize;
    let mut i: usize = 0;
    while i < total
        invariant
            0 <= i <= total,
            n_tags == encoding.draw_tags@.len(),
            total == words.len(),
            words == packed_draw_tags(encoding@),
            data@ == old(data)@ + word_bytes(words.take(i as int)),
        decreases total - i,
    {
        let w = if i < n_tags {
            encoding.draw_tags[i].0
        } else {
            DrawTag::END_CLIP
        };
        assert(w == words[i as int]);
        proof {
            crate::words::lemma_flat_push(
                words.take(i as int),
                w,
                4,
                crate::words::ne_bytes_of(),
            );
            assert(words.take(i + 1) =~= words.take(i as int).push(w));
        }
        push_word(data, w);
        i = i + 1;
    }
    assert(words.take(total as int) =~= words);
}

/// Writes the words of every transform.
fn write_transforms(transforms: &Vec<Transform>, data: &mut Vec<u8>)
    ensures
        final(data)@ == old(data)@ + word_bytes(flat(transforms@, 6, transform_words_of())),
{
    let mut i: usize = 0;
    while i < transforms.len()
        invariant
            0 <= i <= transforms@.len(),
            data@ == old(data)@ + word_bytes(
                flat(transforms@.take(i as int), 6, transform_words_of()),
            ),
        decreases transforms@.len() - i,
    {
        let t = transforms[i];
        let words = vec![
            t.matrix[0],
            t.matrix[1],
            t.matrix[2],
            t.matrix[3],
            t.translation[0],
            t.translation[1],
        ];
        assert(words@ =~= t.words());
        proof {
            lemma_flat_push(transforms@.take(i as int), t, 6, transform_words_of());
            assert(transforms@.take(i + 1) =~= transforms@.take(i as int).push(t));
            lemma_word_bytes_concat(flat(transforms@.take(i as int), 6, transform_words_of()), t.words());
        }
        extend_words(data, words.as_slice());
        i = i + 1;
    }
    assert(transforms@.take(transforms@.len() as int) =~= transforms@);
}

/// Writes the words of every style.
fn write_styles(styles: &Vec<Style>, data: &mut Vec<u8>)
    ensures
        final(data)@ == old(data)@ + word_bytes(flat(styles@, 2, style_words_of())),
{
    let mut i: usize = 0;
    while i < styles.len()
        invariant
            0 <= i <= styles@.len(),
            data@ == old(data)@ + word_bytes(flat(styles@.take(i as int), 2, style_words_of())),
        decreases styles@.len() - i,
    {
        let st = styles[i];
        let words = vec![st.flags_and_miter_limit, st.line_width];
        assert(words@ =~= seq![st.flags_and_miter_limit, st.line_width]);
        proof {
            lemma_flat_push(styles@.take(i as int), st, 2, style_words_of());
            assert(styles@.take(i + 1) =~= styles@.take(i as int).push(st));
            lemma_word_bytes_concat(
                flat(styles@.take(i as int), 2, style_words_of()),
                seq![st.flags_and_miter_limit, st.line_width],
            );
        }
        extend_words(data, words.as_slice());
        i = i + 1;
    }
    assert(styles@.take(styles@.len() as int) =~= styles@);
}

/// The packed path tags, path data and draw tags of an encoding.
pub open spec fn packed_head(e: EncodingView) -> Seq<u8> {
    packed_path_tags(e) + Seq::new(
        (path_tags_padded(e) - packed_path_tags(e).len()) as nat,
        |i: int| 0u8,
    ) + word_bytes(e.path_data) + word_bytes(packed_draw_tags(e))
}

/// The packed transforms and styles of an encoding.
pub open spec fn packed_tail(e: EncodingView) -> Seq<u8> {
    word_bytes(flat(e.transforms, 6, transform_words_of())) + word_bytes(
        flat(e.styles, 2, style_words_of()),
    )
}

/// Clears `data` and writes the path tag, path data and draw tag sections;
/// returns the layout with its counts and the bases of those sections.
fn pack_head(encoding: &Encoding, data: &mut Vec<u8>) -> (r: Layout)
    requires
        packable(encoding@),
    ensures
        final(data)@ == packed_head(encoding@),
        final(data)@.len() == draw_tags_end(encoding@),
        r == (Layout {
            n_draw_objects: 0,
            transform_base: 0,
            style_base: 0,
            draw_data_base: 0,
            ..scene_layout(encoding@)
        }),
{
    data.clear();
    let mut layout = Layout::new();
    layout.n_paths = encoding.n_paths;
    layout.n_clips = encoding.n_clips;
    let sizes = SceneBufferSizes::new(encoding);
    data.reserve(sizes.buffer_size);
    // Path tag stream
    layout.path_tag_base = size_to_words(data.len());
    write_path_tags(encoding, data, sizes.path_tag_padded);
    assert(data@.len() == path_tags_padded(encoding@));
    // Path data stream
    layout.path_data_base = size_to_words(data.len());
    extend_words(data, encoding.path_data.as_slice());
    assert(data@.len() == path_data_end(encoding@));
    // Draw tag stream
    layout.draw_tag_base = size_to_words(data.len());
    // Bin data follows draw info
    layout.bin_data_start = bin_data_start(&encoding.draw_tags);
    write_draw_tags(encoding, data);
    assert(data@.len() == draw_tags_end(encoding@));
    layout
}

/// Writes the transform and style sections, and completes the layout.
fn pack_tail(encoding: &Encoding, data: &mut Vec<u8>, layout: &mut Layout)
    requires
        old(data)@.len() == draw_data_end(encoding@),
        packable(encoding@),
    ensures
        final(data)@ == old(data)@ + packed_tail(encoding@),
        final(data)@.len() == scene_buffer_size(encoding@),
        *final(layout) == (Layout {
            transform_base: (draw_data_end(encoding@) / 4) as u32,
            style_base: (transforms_end(encoding@) / 4) as u32,
            n_draw_objects: old(layout).n_paths,
            ..*old(layout)
        }),
{
    // Transform stream
    layout.transform_base = size_to_words(data.len());
    write_transforms(&encoding.transforms, data);
    assert(data@.len() == transforms_end(encoding@));
    // Style stream
    layout.style_base = size_to_words(data.len());
    write_styles(&encoding.styles, data);
    layout.n_draw_objects = layout.n_paths;
    assert(data@ =~= old(data)@ + packed_tail(encoding@));
}

/// Resolves and packs an encoding that contains only paths with solid color
/// fills: one without late bound resources (images).
pub fn resolve_solid_paths_only(encoding: &Encoding, packed: &mut Vec<u8>) -> (layout: Layout)
    requires
        encoding.resources.patches@.len() == 0,
        packable(encoding@),
    ensures
        layout == scene_layout(encoding@),
        final(packed)@ == packed_scene(encoding@, encoding@.draw_data),
        final(packed)@.len() == scene_buffer_size(encoding@),
{
    let mut layout = pack_head(encoding, packed);
    // Draw data stream
    layout.draw_data_base = size_to_words(packed.len());
    extend_words(packed, encoding.draw_data.as_slice());
    pack_tail(encoding, packed, &mut layout);
    assert(packed@ =~= packed_scene(encoding@, encoding@.draw_data));
    layout
}

/// The draw data word holding an atlas location: `x` in the high half, `y`
/// in the low half.
pub open spec fn location_word(xy: (u32, u32)) -> u32 {
    (xy.0 << 16u32) | xy.1
}

/// The draw data with one image patch applied at `offset`: the atlas location
/// written over the first word of the image's payload, or, when the image got
/// no place in the atlas, its first two words (location and size) zeroed so
/// that nothing is drawn.
pub open spec fn apply_patch(data: Seq<u32>, offset: int, location: Option<(u32, u32)>) -> Seq<
    u32,
> {
    match location {
        Some(xy) => data.update(offset, location_word(xy)),
        None => data.update(offset, 0).update(offset + 1, 0),
    }
}

/// The number of draw data words a patch writes: the location word, or the
/// location and size words zeroed.
pub open spec fn patch_len(location: Option<(u32, u32)>) -> nat {
    match location {
        Some(xy) => 1,
        None => 2,
    }
}

/// Whether the words each patch writes end at or before the next patch, and
/// those of the last patch at or before the end of the `len` draw data words.
pub open spec fn patches_fit(
    patches: Seq<Patch>,
    locations: Seq<Option<(u32, u32)>>,
    len: nat,
) -> bool {
    forall|k: int|
        0 <= k < patches.len() ==> patches[k].draw_data_offset + #[trigger] patch_len(
            locations[k],
        ) <= if k + 1 < patches.len() {
            patches[k + 1].draw_data_offset as nat
        } else {
            len
        }
}

/// The words of every fitting patch end within the draw data.
proof fn lemma_fit_within(
    patches: Seq<Patch>,
    locations: Seq<Option<(u32, u32)>>,
    len: nat,
    k: int,
)
    requires
        patches_fit(patches, locations, len),
        0 <= k < patches.len(),
    ensures
        patches[k].draw_data_offset + patch_len(locations[k]) <= len,
    decreases patches.len() - k,
{
    if k + 1 < patches.len() {
        lemma_fit_within(patches, locations, len, k + 1);
        assert(patches[k + 1].draw_data_offset + patch_len(locations[k + 1]) <= len);
    }
}

/// The draw data with the first `n` patches applied.
pub open spec fn patched_draw_data(
    data: Seq<u32>,
    patches: Seq<Patch>,
    locations: Seq<Option<(u32, u32)>>,
    n: nat,
) -> Seq<u32>
    decreases n,
{
    if n == 0 {
        data
    } else {
        apply_patch(
            patched_draw_data(data, patches, locations, (n - 1) as nat),
            patches[n - 1].draw_data_offset as int,
            locations[n - 1],
        )
    }
}

/// Whether draw data word `i` is one of the words that one of the first `n`
/// patches writes.
pub open spec fn written_by_patches(
    patches: Seq<Patch>,
    locations: Seq<Option<(u32, u32)>>,
    n: nat,
    i: int,
) -> bool {
    exists|k: int|
        0 <= k < n && #[trigger] patches[k].draw_data_offset <= i < patches[k].draw_data_offset
            + patch_len(locations[k])
}

/// Patch offsets of fitting patches increase along the patches.
#[verifier::spinoff_prover]
proof fn lemma_fit_offsets_increase(
    patches: Seq<Patch>,
    locations: Seq<Option<(u32, u32)>>,
    len: nat,
    j: int,
    m: int,
)
    requires
        patches_fit(patches, locations, len),
        0 <= j < m < patches.len(),
    ensures
        patches[j].draw_data_offset + patch_len(locations[j]) <= patches[m].draw_data_offset,
    decreases m - j,
{
    let t = m - 1;
    assert(patches[t].draw_data_offset + patch_len(locations[t]) <= if t + 1 < patches.len() {
        patches[t + 1].draw_data_offset as nat
    } else {
        len
    });
    if j < t {
        lemma_fit_offsets_increase(patches, locations, len, j, t);
    }
}

/// The first `n` patches write their words and leave every other word.
#[verifier::spinoff_prover]
proof fn lemma_patched_words_upto(
    data: Seq<u32>,
    patches: Seq<Patch>,
    locations: Seq<Option<(u32, u32)>>,
    n: nat,
)
    requires
        n <= patches.len(),
        patches_fit(patches, locations, data.len()),
    ensures
        ({
            let p = patched_draw_data(data, patches, locations, n);
            &&& p.len() == data.len()
            &&& forall|k: int|
                0 <= k < n ==> (#[trigger] locations[k] matches Some(xy) ==> p[patches[k].draw_data_offset as int]
                    == location_word(xy))
            &&& forall|k: int|
                0 <= k < n && #[trigger] locations[k] is None ==> p[patches[k].draw_data_offset as int]
                    == 0 && p[patches[k].draw_data_offset + 1] == 0
            &&& forall|i: int|
                0 <= i < data.len() && !written_by_patches(patches, locations, n, i) ==> #[trigger] p[i]
                    == data[i]
        }),
    decreases n,
{
    lemma_patched_len(data, patches, locations, n);
    if n > 0 {
        let m = (n - 1) as nat;
        lemma_patched_words_upto(data, patches, locations, m);
        lemma_fit_within(patches, locations, data.len(), m as int);
        let q = patched_draw_data(data, patches, locations, m);
        let p = patched_draw_data(data, patches, locations, n);
        let off = patches[m as int].draw_data_offset as int;
        assert(p == apply_patch(q, off, locations[m as int]));
        assert forall|k: int|
            0 <= k < n implies (#[trigger] locations[k] matches Some(xy) ==> p[patches[k].draw_data_offset as int]
                == location_word(xy)) by {
            if k < m {
                lemma_fit_offsets_increase(patches, locations, data.len(), k, m as int);
            }
        }
        assert forall|k: int|
            0 <= k < n && #[trigger] locations[k] is None implies p[patches[k].draw_data_offset as int]
                == 0 && p[patches[k].draw_data_offset + 1] == 0 by {
            if k < m {
                lemma_fit_offsets_increase(patches, locations, data.len(), k, m as int);
            }
        }
        assert forall|i: int|
            0 <= i < data.len() && !written_by_patches(patches, locations, n, i) implies #[trigger] p[i]
                == data[i] by {
            assert(!(patches[m as int].draw_data_offset <= i < patches[m as int].draw_data_offset
                + patch_len(locations[m as int])));
            if written_by_patches(patches, locations, m, i) {
                let k = choose|k: int|
                    0 <= k < m && #[trigger] patches[k].draw_data_offset <= i
                        < patches[k].draw_data_offset + patch_len(locations[k]);
                assert(written_by_patches(patches, locations, n, i));
            }
        }
    }
}

/// Resolving the images of an encoding changes its draw data only at the
/// patches: the atlas location of each placed image is written over the first
/// word of its payload, the location and size words of an image without a
/// place are zeroed, and every other word stays as the encoding holds it.
pub proof fn lemma_patched_words(
    data: Seq<u32>,
    patches: Seq<Patch>,
    locations: Seq<Option<(u32, u32)>>,
)
    requires
        patches_fit(patches, locations, data.len()),
    ensures
        ({
            let p = patched_draw_data(data, patches, locations, patches.len());
            &&& p.len() == data.len()
            &&& forall|k: int|
                0 <= k < patches.len() ==> (#[trigger] locations[k] matches Some(xy) ==> p[patches[k].draw_data_offset as int]
                    == location_word(xy))
            &&& forall|k: int|
                0 <= k < patches.len() && #[trigger] locations[k] is None ==> p[patches[k].draw_data_offset as int]
                    == 0 && p[patches[k].draw_data_offset + 1] == 0
            &&& forall|i: int|
                0 <= i < data.len() && !written_by_patches(patches, locations, patches.len(), i)
                    ==> #[trigger] p[i] == data[i]
        }),
{
    lemma_patched_words_upto(data, patches, locations, patches.len());
}

/// Without patches, resolving packs an encoding exactly as the packing of
/// solid paths does, whatever locations are given.
pub proof fn lemma_resolve_without_patches(e: EncodingView, locations: Seq<Option<(u32, u32)>>)
    requires
        e.patches.len() == 0,
    ensures
        packed_scene(e, patched_draw_data(e.draw_data, e.patches, locations, e.patches.len()))
            == packed_scene(e, e.draw_data),
{
}

/// Image to be allocated in the atlas.
struct PendingImage {
    image: Image,
    xy: Option<(u32, u32)>,
}

/// A patch of the draw data stream, with the pending image it takes its
/// location from.
pub(crate) struct ResolvedPatch {
    /// Index of pending image element.
    pub index: usize,
    /// Offset to the atlas location in the draw data stream.
    pub draw_data_offset: usize,
}

/// Resolver for late bound resources.
pub struct Resolver {
    pending_images: Vec<PendingImage>,
    patches: Vec<ResolvedPatch>,
}

impl Default for Resolver {
    fn default() -> (r: Self)
        ensures
            r.pending() == Seq::<(Image, Option<(u32, u32)>)>::empty(),
            r.resolved_patches() == Seq::<(usize, usize)>::empty(),
    {
        Resolver::new()
    }
}

impl Resolver {
    /// The pending images, each with its atlas location if it has one.
    pub closed spec fn pending(&self) -> Seq<(Image, Option<(u32, u32)>)> {
        self.pending_images@.map_values(|p: PendingImage| (p.image, p.xy))
    }

    /// The resolved patches: the index of the pending image and the draw data
    /// offset of each.
    pub closed spec fn resolved_patches(&self) -> Seq<(usize, usize)> {
        self.patches@.map_values(|p: ResolvedPatch| (p.index, p.draw_data_offset))
    }

    /// Creates a new resource cache.
    pub fn new() -> (r: Self)
        ensures
            r.pending() == Seq::<(Image, Option<(u32, u32)>)>::empty(),
            r.resolved_patches() == Seq::<(usize, usize)>::empty(),
    {
        let r = Resolver { pending_images: Vec::new(), patches: Vec::new() };
        assert(r.pending() =~= Seq::<(Image, Option<(u32, u32)>)>::empty());
        assert(r.resolved_patches() =~= Seq::<(usize, usize)>::empty());
        r
    }

    /// Starts resolving the patches of an encoding: one pending image, not yet
    /// placed, and one resolved patch for each patch, in order.
    fn resolve_patches(&mut self, encoding: &Encoding)
        ensures
            final(self).pending() == encoding.resources.patches@.map_values(
                |p: Patch| (p.image, None::<(u32, u32)>),
            ),
            final(self).resolved_patches() == Seq::new(
                encoding.resources.patches@.len(),
                |k: int| (k as usize, encoding.resources.patches@[k].draw_data_offset),
            ),
    {
        self.pending_images.clear();
        self.patches.clear();
        let patches = &encoding.resources.patches;
        let mut k: usize = 0;
        while k < patches.len()
            invariant
                0 <= k <= patches@.len(),
                self.pending_images@.len() == k,
                self.patches@.len() == k,
                forall|j: int|
                    0 <= j < k ==> (#[trigger] self.pending_images@[j]).image == patches@[j].image
                        && self.pending_images@[j].xy is None,
                forall|j: int|
                    0 <= j < k ==> (#[trigger] self.patches@[j]).index == j
                        && self.patches@[j].draw_data_offset == patches@[j].draw_data_offset,
            decreases patches@.len() - k,
        {
            let image = clone_image(&patches[k].image);
            let draw_data_offset = patches[k].draw_data_offset;
            let index = self.pending_images.len();
            self.pending_images.push(PendingImage { image, xy: None });
            self.patches.push(ResolvedPatch { index, draw_data_offset });
            k = k + 1;
        }
        assert(self.pending() =~= patches@.map_values(|p: Patch| (p.image, None::<(u32, u32)>)));
        assert(self.resolved_patches() =~= Seq::new(
            patches@.len(),
            |k: int| (k as usize, patches@[k].draw_data_offset),
        ));
    }

    /// Records the atlas location found for each pending image (`None` for an
    /// image that got no place in the atlas).
    fn resolve_pending_images(&mut self, locations: &Vec<Option<(u32, u32)>>)
        requires
            locations@.len() == old(self).pending_images@.len(),
        ensures
            final(self).pending() == Seq::new(
                old(self).pending().len(),
                |k: int| (old(self).pending()[k].0, locations@[k]),
            ),
            final(self).resolved_patches() == old(self).resolved_patches(),
    {
        let ghost old_pending = self.pending();
        let mut k: usize = 0;
        while k < self.pending_images.len()
            invariant
                0 <= k <= self.pending_images@.len(),
                self.pending_images@.len() == locations@.len(),
                self.pending_images@.len() == old_pending.len(),
                self.patches@ == old(self).patches@,
                forall|j: int|
                    0 <= j < self.pending_images@.len() ==> (#[trigger] self.pending_images@[j]).image
                        == old_pending[j].0,
                forall|j: int| 0 <= j < k ==> (#[trigger] self.pending_images@[j]).xy == locations@[j],
            decreases self.pending_images@.len() - k,
        {
            let xy = locations[k];
            let image = clone_image(&self.pending_images[k].image);
            self.pending_images.set(k, PendingImage { image, xy });
            k = k + 1;
        }
        assert(self.pending() =~= Seq::new(
            old_pending.len(),
            |k: int| (old_pending[k].0, locations@[k]),
        ));
    }
}

/// Appends the bytes of the words of `ws` from index `from` up to `to`.
fn extend_words_range(data: &mut Vec<u8>, ws: &Vec<u32>, from: usize, to: usize)
    requires
        from <= to <= ws@.len(),
    ensures
        final(data)@ == old(data)@ + word_bytes(ws@.subrange(from as int, to as int)),
{
    let mut i: usize = from;
    while i < to
        invariant
            from <= i <= to,
            to <= ws@.len(),
            data@ == old(data)@ + word_bytes(ws@.subrange(from as int, i as int)),
        decreases to - i,
    {
        proof {
            lemma_flat_push(
                ws@.subrange(from as int, i as int),
                ws@[i as int],
                4,
                crate::words::ne_bytes_of(),
            );
            assert(ws@.subrange(from as int, i + 1) =~= ws@.subrange(from as int, i as int).push(
                ws@[i as int],
            ));
        }
        push_word(data, ws[i]);
        i = i + 1;
    }
}

/// Applying patches keeps the length of the draw data.
proof fn lemma_patched_len(
    data: Seq<u32>,
    patches: Seq<Patch>,
    locations: Seq<Option<(u32, u32)>>,
    n: nat,
)
    requires
        n <= patches.len(),
        patches_fit(patches, locations, data.len()),
    ensures
        patched_draw_data(data, patches, locations, n).len() == data.len(),
    decreases n,
{
    if n > 0 {
        lemma_patched_len(data, patches, locations, (n - 1) as nat);
        lemma_fit_within(patches, locations, data.len(), n - 1);
    }
}

/// One step of the patching loop: applying patch `k` to draw data that still
/// agrees with the stream from `pos` on, where `pos` lies at or before the
/// patch, gives draw data whose prefix up to the end of the patch is the old
/// prefix up to `pos`, the stream up to the patch, and the patch words, and
/// which agrees with the stream after the patch.
proof fn lemma_patch_step(
    stream: Seq<u32>,
    patches: Seq<Patch>,
    locations: Seq<Option<(u32, u32)>>,
    k: nat,
    pos: int,
)
    requires
        k < patches.len(),
        patches_fit(patches, locations, stream.len()),
        0 <= pos <= patches[k as int].draw_data_offset,
        forall|i: int|
            pos <= i < stream.len() ==> #[trigger] patched_draw_data(
                stream,
                patches,
                locations,
                k,
            )[i] == stream[i],
    ensures
        ({
            let off = patches[k as int].draw_data_offset as int;
            let prev = patched_draw_data(stream, patches, locations, k);
            let next = patched_draw_data(stream, patches, locations, k + 1);
            let end = match locations[k as int] {
                Some(xy) => off + 1,
                None => off + 2,
            };
            let words = match locations[k as int] {
                Some(xy) => seq![location_word(xy)],
                None => seq![0u32, 0u32],
            };
            &&& next.len() == stream.len()
            &&& end <= stream.len()
            &&& next.take(end) == prev.take(pos) + stream.subrange(pos, off) + words
            &&& forall|i: int| end <= i < stream.len() ==> #[trigger] next[i] == stream[i]
        }),
{
    let off = patches[k as int].draw_data_offset as int;
    let prev = patched_draw_data(stream, patches, locations, k);
    let next = patched_draw_data(stream, patches, locations, k + 1);
    lemma_patched_len(stream, patches, locations, k);
    lemma_patched_len(stream, patches, locations, k + 1);
    lemma_fit_within(patches, locations, stream.len(), k as int);
    match locations[k as int] {
        Some(xy) => {
            assert(next.take(off + 1) =~= prev.take(pos) + stream.subrange(pos, off) + seq![
                location_word(xy),
            ]);
        },
        None => {
            assert(next.take(off + 2) =~= prev.take(pos) + stream.subrange(pos, off) + seq![
                0u32,
                0u32,
            ]);
        },
    }
}

/// The words that a patch writes: the location word, or two zero words.
pub open spec fn patch_words(location: Option<(u32, u32)>) -> Seq<u32> {
    match location {
        Some(xy) => seq![location_word(xy)],
        None => seq![0u32, 0u32],
    }
}

/// Writes the stream from `pos` up to the patch at `offset`, then the words of
/// the patch; returns the position after the patched words.
fn write_patch(
    data: &mut Vec<u8>,
    stream: &Vec<u32>,
    pos: usize,
    offset: usize,
    location: Option<(u32, u32)>,
) -> (end: usize)
    requires
        pos <= offset,
        offset + patch_len(location) <= stream@.len() <= usize::MAX,
    ensures
        final(data)@ == old(data)@ + word_bytes(
            stream@.subrange(pos as int, offset as int) + patch_words(location),
        ),
        end == offset + patch_words(location).len(),
{
    let ghost copied = stream@.subrange(pos as int, offset as int);
    if pos < offset {
        extend_words_range(data, stream, pos, offset);
    } else {
        assert(copied =~= Seq::<u32>::empty());
        assert(word_bytes(copied) =~= Seq::<u8>::empty());
    }
    proof {
        lemma_word_bytes_concat(copied, patch_words(location));
    }
    if let Some((x, y)) = location {
        let xy = (x << 16) | y;
        proof {
            lemma_flat_push(Seq::<u32>::empty(), xy, 4, crate::words::ne_bytes_of());
            assert(Seq::<u32>::empty().push(xy) =~= seq![xy]);
        }
        push_word(data, xy);
        offset + 1
    } else {
        proof {
            lemma_flat_push(Seq::<u32>::empty(), 0u32, 4, crate::words::ne_bytes_of());
            lemma_flat_push(seq![0u32], 0u32, 4, crate::words::ne_bytes_of());
            assert(Seq::<u32>::empty().push(0u32) =~= seq![0u32]);
            assert(seq![0u32].push(0u32) =~= seq![0u32, 0u32]);
            assert(word_bytes(seq![0u32, 0u32]) =~= ne_bytes(0) + ne_bytes(0));
        }
        push_word(data, 0);
        push_word(data, 0);
        offset + 2
    }
}

impl Resolver {
    /// Writes the draw data stream with each patch applied, in order.
    #[verifier::spinoff_prover]
    #[verifier::rlimit(30)]
    fn write_patched_draw_data(&self, encoding: &Encoding, data: &mut Vec<u8>)
        requires
            self.resolved_patches() == Seq::new(
                encoding.resources.patches@.len(),
                |k: int| (k as usize, encoding.resources.patches@[k].draw_data_offset),
            ),
            self.pending().len() == encoding.resources.patches@.len(),
            patches_fit(
                encoding.resources.patches@,
                self.pending().map_values(|p: (Image, Option<(u32, u32)>)| p.1),
                encoding.draw_data@.len(),
            ),
        ensures
            final(data)@ == old(data)@ + word_bytes(
                patched_draw_data(
                    encoding.draw_data@,
                    encoding.resources.patches@,
                    self.pending().map_values(|p: (Image, Option<(u32, u32)>)| p.1),
                    encoding.resources.patches@.len(),
                ),
            ),
    {
        let ghost patches = encoding.resources.patches@;
        let ghost locations = self.pending().map_values(|p: (Image, Option<(u32, u32)>)| p.1);
        let ghost n = patches.len();
        let stream = &encoding.draw_data;
        let mut pos: usize = 0;
        let mut k: usize = 0;
        let n_patches = self.patches.len();
        let stream_len = stream.len();
        assert(self.resolved_patches().len() == n);
        assert(self.pending().len() == n);
        assert forall|j: int| 0 <= j < n implies (#[trigger] self.patches@[j]).index as int == j
            && self.patches@[j].draw_data_offset == patches[j].draw_data_offset by {
            assert(self.resolved_patches()[j] == (j as usize, patches[j].draw_data_offset));
            assert(j as usize as int == j);
        }
        assert forall|j: int| 0 <= j < n implies #[trigger] locations[j]
            == self.pending_images@[j].xy by {
            assert(self.pending()[j].1 == self.pending_images@[j].xy);
        }
        while k < n_patches
            invariant
                0 <= k <= n,
                n == n_patches,
                stream_len == stream@.len(),
                n == self.patches@.len(),
                n == self.pending_images@.len(),
                n == patches.len(),
                patches == encoding.resources.patches@,
                forall|j: int|
                    0 <= j < n ==> (#[trigger] self.patches@[j]).index as int == j
                        && self.patches@[j].draw_data_offset == patches[j].draw_data_offset,
                forall|j: int| 0 <= j < n ==> #[trigger] locations[j] == self.pending_images@[j].xy,
                patches_fit(patches, locations, stream@.len()),
                locations.len() == n,
                pos <= stream@.len(),
                k < n ==> pos <= patches[k as int].draw_data_offset,
                forall|i: int|
                    pos <= i < stream@.len() ==> #[trigger] patched_draw_data(
                        stream@,
                        patches,
                        locations,
                        k as nat,
                    )[i] == stream@[i],
                data@ == old(data)@ + word_bytes(
                    patched_draw_data(stream@, patches, locations, k as nat).take(pos as int),
                ),
            decreases n - k,
        {
            let ghost prev = patched_draw_data(stream@, patches, locations, k as nat);
            let ghost next = patched_draw_data(stream@, patches, locations, (k + 1) as nat);
            let index = self.patches[k].index;
            let draw_data_offset = self.patches[k].draw_data_offset;
            let location = self.pending_images[index].xy;
            proof {
                lemma_patch_step(stream@, patches, locations, k as nat, pos as int);
                lemma_fit_within(patches, locations, stream@.len(), k as int);
                assert(location == locations[k as int]);
            }
            let ghost written = stream@.subrange(pos as int, draw_data_offset as int)
                + patch_words(location);
            let end = write_patch(data, stream, pos, draw_data_offset, location);
            proof {
                lemma_word_bytes_concat(prev.take(pos as int), written);
                assert(prev.take(pos as int) + written == next.take(end as int));
            }
            pos = end;
            k = k + 1;
            proof {
                if k < n {
                    assert(patches[k - 1].draw_data_offset + patch_len(locations[k - 1])
                        <= patches[k as int].draw_data_offset);
                }
            }
        }
        let ghost last = patched_draw_data(stream@, patches, locations, n);
        if pos < stream_len {
            proof {
                lemma_word_bytes_concat(
                    last.take(pos as int),
                    stream@.subrange(pos as int, stream@.len() as int),
                );
                lemma_patched_len(stream@, patches, locations, n);
                assert(last.take(pos as int) + stream@.subrange(pos as int, stream@.len() as int)
                    =~= last);
            }
            extend_words_range(data, stream, pos, stream_len);
        } else {
            proof {
                lemma_patched_len(stream@, patches, locations, n);
            }
            assert(last.take(pos as int) =~= last);
        }
    }
}

impl Resolver {
    /// Resolves late bound resources and packs an encoding. Returns the packed
    /// layout.
    ///
    /// `locations` holds the atlas location found for the image of each patch
    /// of the encoding, in order (`None` for an image that got no place in the
    /// atlas); it is read only when the encoding has patches. An encoding
    /// without patches is packed as [`resolve_solid_paths_only`] packs it.
    pub fn resolve(
        &mut self,
        encoding: &Encoding,
        packed: &mut Vec<u8>,
        locations: &Vec<Option<(u32, u32)>>,
    ) -> (layout: Layout)
        requires
            packable(encoding@),
            encoding.resources.patches@.len() > 0 ==> locations@.len()
                == encoding.resources.patches@.len(),
            encoding.resources.patches@.len() > 0 ==> patches_fit(
                encoding.resources.patches@,
                locations@,
                encoding.draw_data@.len(),
            ),
        ensures
            layout == scene_layout(encoding@),
            final(packed)@ == packed_scene(
                encoding@,
                patched_draw_data(
                    encoding.draw_data@,
                    encoding.resources.patches@,
                    locations@,
                    encoding.resources.patches@.len(),
                ),
            ),
            final(packed)@.len() == scene_buffer_size(encoding@),
            encoding.resources.patches@.len() == 0 ==> final(self).pending() == old(self).pending()
                && final(self).resolved_patches() == old(self).resolved_patches(),
            encoding.resources.patches@.len() > 0 ==> final(self).pending() == Seq::new(
                encoding.resources.patches@.len(),
                |k: int| (encoding.resources.patches@[k].image, locations@[k]),
            ) && final(self).resolved_patches() == Seq::new(
                encoding.resources.patches@.len(),
                |k: int| (k as usize, encoding.resources.patches@[k].draw_data_offset),
            ),
    {
        if encoding.resources.patches.len() == 0 {
            let layout = resolve_solid_paths_only(encoding, packed);
            return layout;
        }
        self.resolve_patches(encoding);
        assert(self.pending_images@.len() == self.pending().len());
        self.resolve_pending_images(locations);
        let ghost n = encoding.resources.patches@.len();
        assert(self.pending().map_values(|p: (Image, Option<(u32, u32)>)| p.1) =~= locations@);
        assert(self.pending() =~= Seq::new(
            n,
            |k: int| (encoding.resources.patches@[k].image, locations@[k]),
        ));
        let mut layout = pack_head(encoding, packed);
        // Draw data stream
        layout.draw_data_base = size_to_words(packed.len());
        self.write_patched_draw_data(encoding, packed);
        proof {
            lemma_patched_len(
                encoding.draw_data@,
                encoding.resources.patches@,
                locations@,
                n,
            );
        }
        pack_tail(encoding, packed, &mut layout);
        layout
    }
}

/// The bytes of `data` from word `start` up to word `end`.
pub open spec fn section(data: Seq<u8>, start: u32, end: u32) -> Seq<u8> {
    data.subrange(start * 4, end * 4)
}

/// Whether the words `start` up to `end` lie in `data`, with byte offsets
/// that fit in memory.
pub open spec fn section_in(data: Seq<u8>, start: u32, end: u32) -> bool {
    &&& start <= end
    &&& end * 4 <= data.len()
    &&& end * 4 <= usize::MAX
}

/// Decodes the transforms stored in `words`, six words each.
fn decode_transforms(words: &Vec<u32>) -> (r: Vec<Transform>)
    requires
        words@.len() % 6 == 0,
    ensures
        flat(r@, 6, transform_words_of()) == words@,
{
    let mut r: Vec<Transform> = Vec::new();
    let mut at: usize = 0;
    while at < words.len()
        invariant
            at <= words@.len(),
            at % 6 == 0,
            words@.len() % 6 == 0,
            flat(r@, 6, transform_words_of()) == words@.take(at as int),
        decreases words@.len() - at,
    {
        let t = Transform {
            matrix: [words[at], words[at + 1], words[at + 2], words[at + 3]],
            translation: [words[at + 4], words[at + 5]],
        };
        proof {
            lemma_flat_push(r@, t, 6, transform_words_of());
            assert(t.words() =~= words@.subrange(at as int, at + 6));
            assert(words@.take(at + 6) =~= words@.take(at as int) + words@.subrange(
                at as int,
                at + 6,
            ));
        }
        r.push(t);
        at = at + 6;
    }
    assert(words@.take(words@.len() as int) =~= words@);
    r
}

/// Decodes the styles stored in `words`, two words each.
fn decode_styles(words: &Vec<u32>) -> (r: Vec<Style>)
    requires
        words@.len() % 2 == 0,
    ensures
        flat(r@, 2, style_words_of()) == words@,
{
    let mut r: Vec<Style> = Vec::new();
    let mut at: usize = 0;
    while at < words.len()
        invariant
            at <= words@.len(),
            at % 2 == 0,
            words@.len() % 2 == 0,
            flat(r@, 2, style_words_of()) == words@.take(at as int),
        decreases words@.len() - at,
    {
        let st = Style { flags_and_miter_limit: words[at], line_width: words[at + 1] };
        proof {
            lemma_flat_push(r@, st, 2, style_words_of());
            assert(seq![st.flags_and_miter_limit, st.line_width] =~= words@.subrange(
                at as int,
                at + 2,
            ));
            assert(words@.take(at + 2) =~= words@.take(at as int) + words@.subrange(
                at as int,
                at + 2,
            ));
        }
        r.push(st);
        at = at + 2;
    }
    assert(words@.take(words@.len() as int) =~= words@);
    r
}

impl Layout {
    /// Returns the path tag stream.
    pub fn path_tags(&self, data: &[u8]) -> (r: Vec<PathTag>)
        requires
            section_in(data@, self.path_tag_base, self.path_data_base),
        ensures
            r@ == section(data@, self.path_tag_base, self.path_data_base).map_values(
                |b: u8| PathTag(b),
            ),
    {
        let start = self.path_tag_base as usize * 4;
        let end = self.path_data_base as usize * 4;
        let ghost bytes = section(data@, self.path_tag_base, self.path_data_base);
        let mut r: Vec<PathTag> = Vec::new();
        let mut i: usize = start;
        while i < end
            invariant
                start <= i <= end,
                end <= data@.len(),
                start == self.path_tag_base * 4,
                end == self.path_data_base * 4,
                bytes == data@.subrange(start as int, end as int),
                r@ =~= bytes.take(i - start).map_values(|b: u8| PathTag(b)),
            decreases end - i,
        {
            r.push(PathTag(data[i]));
            i = i + 1;
        }
        assert(bytes.take(end - start) =~= bytes);
        r
    }

    /// Returns the path tag stream in chunks of 4.
    pub fn path_tags_chunked(&self, data: &[u8]) -> (r: Vec<u32>)
        requires
            section_in(data@, self.path_tag_base, self.path_data_base),
        ensures
            r@ == bytes_words(section(data@, self.path_tag_base, self.path_data_base)),
    {
        let start = self.path_tag_base as usize * 4;
        let end = self.path_data_base as usize * 4;
        read_words(data, start, end)
    }

    /// Returns the path data stream.
    pub fn path_data(&self, data: &[u8]) -> (r: Vec<u8>)
        requires
            section_in(data@, self.path_data_base, self.draw_tag_base),
        ensures
            r@ == section(data@, self.path_data_base, self.draw_tag_base),
    {
        let start = self.path_data_base as usize * 4;
        let end = self.draw_tag_base as usize * 4;
        let mut r: Vec<u8> = Vec::new();
        let mut i: usize = start;
        while i < end
            invariant
                start <= i <= end,
                end <= data@.len(),
                r@ =~= data@.subrange(start as int, i as int),
            decreases end - i,
        {
            r.push(data[i]);
            i = i + 1;
        }
        r
    }

    /// Returns the draw tag stream.
    pub fn draw_tags(&self, data: &[u8]) -> (r: Vec<DrawTag>)
        requires
            section_in(data@, self.draw_tag_base, self.draw_data_base),
        ensures
            r@ == bytes_words(section(data@, self.draw_tag_base, self.draw_data_base)).map_values(
                |w: u32| DrawTag(w),
            ),
    {
        let start = self.draw_tag_base as usize * 4;
        let end = self.draw_data_base as usize * 4;
        let words = read_words(data, start, end);
        let mut r: Vec<DrawTag> = Vec::new();
        let mut i: usize = 0;
        while i < words.len()
            invariant
                0 <= i <= words@.len(),
                r@ =~= words@.take(i as int).map_values(|w: u32| DrawTag(w)),
            decreases words@.len() - i,
        {
            r.push(DrawTag(words[i]));
            i = i + 1;
        }
        assert(words@.take(words@.len() as int) =~= words@);
        r
    }

    /// Returns the draw data stream.
    pub fn draw_data(&self, data: &[u8]) -> (r: Vec<u32>)
        requires
            section_in(data@, self.draw_data_base, self.transform_base),
        ensures
            r@ == bytes_words(section(data@, self.draw_data_base, self.transform_base)),
    {
        let start = self.draw_data_base as usize * 4;
        let end = self.transform_base as usize * 4;
        read_words(data, start, end)
    }

    /// Returns the transform stream.
    pub fn transforms(&self, data: &[u8]) -> (r: Vec<Transform>)
        requires
            section_in(data@, self.transform_base, self.style_base),
            (self.style_base - self.transform_base) % 6 == 0,
        ensures
            flat(r@, 6, transform_words_of()) == bytes_words(
                section(data@, self.transform_base, self.style_base),
            ),
            ({
                let w = bytes_words(section(data@, self.transform_base, self.style_base));
                &&& w.len() == 6 * r@.len()
                &&& forall|k: int, j: int|
                    0 <= k < r@.len() && 0 <= j < 4 ==> #[trigger] r@[k].matrix@[j] == w[6 * k + j]
                &&& forall|k: int, j: int|
                    0 <= k < r@.len() && 0 <= j < 2 ==> #[trigger] r@[k].translation@[j] == w[6 * k
                        + 4 + j]
            }),
    {
        let start = self.transform_base as usize * 4;
        let end = self.style_base as usize * 4;
        let words = read_words(data, start, end);
        let r = decode_transforms(&words);
        proof {
            lemma_transform_words_in_order(r@);
        }
        r
    }

    /// Returns the style stream: the words from the style base to the end of
    /// the data.
    pub fn styles(&self, data: &[u8]) -> (r: Vec<Style>)
        requires
            self.style_base * 4 <= data@.len(),
            (data@.len() - self.style_base * 4) % 8 == 0,
        ensures
            flat(r@, 2, style_words_of()) == bytes_words(
                data@.subrange(self.style_base * 4, data@.len() as int),
            ),
            ({
                let w = bytes_words(data@.subrange(self.style_base * 4, data@.len() as int));
                &&& w.len() == 2 * r@.len()
                &&& forall|k: int|
                    0 <= k < r@.len() ==> (#[trigger] r@[k]).flags_and_miter_limit == w[2 * k]
                        && r@[k].line_width == w[2 * k + 1]
            }),
    {
        let len = data.len();
        let start = self.style_base as usize * 4;
        let words = read_words(data, start, len);
        let r = decode_styles(&words);
        proof {
            lemma_style_words_in_order(r@);
        }
        r
    }
}

/// Reading the sections of a packed scene through its layout gives back what
/// was packed: the padded path tags, the path data, the draw tags with the
/// end clips of the open clips, the draw data, the transforms and the styles;
/// each section lies in the packed bytes and holds whole elements. This holds

/// The words of a sequence of styles hold, for each style in order, its flags
/// and miter limit word and then its line width word.
proof fn lemma_style_words_in_order(styles: Seq<Style>)
    ensures
        ({
            let f = flat(styles, 2, style_words_of());
            &&& f.len() == 2 * styles.len()
            &&& forall|k: int|
                0 <= k < styles.len() ==> f[2 * k] == (#[trigger] styles[k]).flags_and_miter_limit
                    && f[2 * k + 1] == styles[k].line_width
        }),
{
    let f = flat(styles, 2, style_words_of());
    assert(f.len() == styles.len() * 2);
    assert forall|k: int| 0 <= k < styles.len() implies f[2 * k] == (#[trigger] styles[k]).flags_and_miter_limit
        && f[2 * k + 1] == styles[k].line_width by {
        crate::words::lemma_flat_index(styles, 2, style_words_of(), k, 0);
        crate::words::lemma_flat_index(styles, 2, style_words_of(), k, 1);
        assert(k * 2 == 2 * k);
    }
}

/// The style section of the packed scene holds, for each style in order, its
/// flags and miter limit word and then its line width word, as the fields of a
/// style lie in memory.
#[verifier::spinoff_prover]
pub proof fn lemma_packed_style_words(e: EncodingView, draw_data: Seq<u32>)
    requires
        packable(e),
        scene_buffer_size(e) <= 4 * u32::MAX,
        draw_data.len() == e.draw_data.len(),
    ensures
        ({
            let l = scene_layout(e);
            let p = packed_scene(e, draw_data);
            let w = bytes_words(p.subrange(l.style_base * 4, p.len() as int));
            &&& w.len() == 2 * e.styles.len()
            &&& forall|k: int|
                0 <= k < e.styles.len() ==> w[2 * k] == (#[trigger] e.styles[k]).flags_and_miter_limit
                    && w[2 * k + 1] == e.styles[k].line_width
        }),
{
    lemma_packed_sections(e, draw_data);
    lemma_style_words_in_order(e.styles);
}

/// The words of a sequence of transforms hold, for each transform in order,
/// its four matrix words and then its two translation words.
proof fn lemma_transform_words_in_order(ts: Seq<Transform>)
    ensures
        ({
            let f = flat(ts, 6, transform_words_of());
            &&& f.len() == 6 * ts.len()
            &&& forall|k: int, j: int|
                0 <= k < ts.len() && 0 <= j < 4 ==> f[6 * k + j] == #[trigger] ts[k].matrix@[j]
            &&& forall|k: int, j: int|
                0 <= k < ts.len() && 0 <= j < 2 ==> f[6 * k + 4 + j] == #[trigger] ts[k].translation@[j]
        }),
{
    let f = flat(ts, 6, transform_words_of());
    assert(f.len() == ts.len() * 6);
    assert forall|k: int, j: int| 0 <= k < ts.len() && 0 <= j < 4 implies f[6 * k + j]
        == #[trigger] ts[k].matrix@[j] by {
        crate::words::lemma_flat_index(ts, 6, transform_words_of(), k, j);
        assert(k * 6 == 6 * k);
    }
    assert forall|k: int, j: int| 0 <= k < ts.len() && 0 <= j < 2 implies f[6 * k + 4 + j]
        == #[trigger] ts[k].translation@[j] by {
        crate::words::lemma_flat_index(ts, 6, transform_words_of(), k, 4 + j);
        assert(k * 6 == 6 * k);
    }
}

/// The transform section of the packed scene holds, for each transform in
/// order, its four matrix words and then its two translation words.
#[verifier::spinoff_prover]
pub proof fn lemma_packed_transform_words(e: EncodingView, draw_data: Seq<u32>)
    requires
        packable(e),
        scene_buffer_size(e) <= 4 * u32::MAX,
        draw_data.len() == e.draw_data.len(),
    ensures
        ({
            let l = scene_layout(e);
            let p = packed_scene(e, draw_data);
            let w = bytes_words(section(p, l.transform_base, l.style_base));
            &&& w.len() == 6 * e.transforms.len()
            &&& forall|k: int, j: int|
                0 <= k < e.transforms.len() && 0 <= j < 4 ==> w[6 * k + j]
                    == #[trigger] e.transforms[k].matrix@[j]
            &&& forall|k: int, j: int|
                0 <= k < e.transforms.len() && 0 <= j < 2 ==> w[6 * k + 4 + j]
                    == #[trigger] e.transforms[k].translation@[j]
        }),
{
    lemma_packed_sections(e, draw_data);
    lemma_transform_words_in_order(e.transforms);
}

/// when the packed scene is small enough for its word offsets to fit in 32 bits.
pub proof fn lemma_packed_sections(e: EncodingView, draw_data: Seq<u32>)
    requires
        packable(e),
        scene_buffer_size(e) <= 4 * u32::MAX,
        draw_data.len() == e.draw_data.len(),
    ensures
        ({
            let l = scene_layout(e);
            let p = packed_scene(e, draw_data);
            &&& p.len() == scene_buffer_size(e)
            &&& section_in(p, l.path_tag_base, l.path_data_base)
            &&& section(p, l.path_tag_base, l.path_data_base) == packed_path_tags(e) + Seq::new(
                (path_tags_padded(e) - packed_path_tags(e).len()) as nat,
                |i: int| 0u8,
            )
            &&& section_in(p, l.path_data_base, l.draw_tag_base)
            &&& section(p, l.path_data_base, l.draw_tag_base) == word_bytes(e.path_data)
            &&& bytes_words(section(p, l.path_data_base, l.draw_tag_base)) == e.path_data
            &&& section_in(p, l.draw_tag_base, l.draw_data_base)
            &&& bytes_words(section(p, l.draw_tag_base, l.draw_data_base)) == packed_draw_tags(e)
            &&& section_in(p, l.draw_data_base, l.transform_base)
            &&& bytes_words(section(p, l.draw_data_base, l.transform_base)) == draw_data
            &&& section_in(p, l.transform_base, l.style_base)
            &&& (l.style_base - l.transform_base) % 6 == 0
            &&& bytes_words(section(p, l.transform_base, l.style_base)) == flat(
                e.transforms,
                6,
                transform_words_of(),
            )
            &&& l.style_base * 4 <= p.len()
            &&& (p.len() - l.style_base * 4) % 8 == 0
            &&& bytes_words(p.subrange(l.style_base * 4, p.len() as int)) == flat(
                e.styles,
                2,
                style_words_of(),
            )
        }),
{
    let l = scene_layout(e);
    let pt = packed_path_tags(e);
    let pad = Seq::new((path_tags_padded(e) - pt.len()) as nat, |i: int| 0u8);
    let a = pt + pad;
    let b = word_bytes(e.path_data);
    let c = word_bytes(packed_draw_tags(e));
    let d = word_bytes(draw_data);
    let tw = flat(e.transforms, 6, transform_words_of());
    let sw = flat(e.styles, 2, style_words_of());
    let t = word_bytes(tw);
    let st = word_bytes(sw);
    let p = packed_scene(e, draw_data);
    lemma_layout_offsets(e);
    assert(tw.len() == e.transforms.len() * 6);
    assert(sw.len() == e.styles.len() * 2);
    assert(a.len() == path_tags_padded(e));
    lemma_subrange_concat(Seq::empty(), a, b + c + d + t + st);
    assert(p =~= Seq::empty() + a + (b + c + d + t + st));
    lemma_subrange_concat(a, b, c + d + t + st);
    assert(p =~= a + b + (c + d + t + st));
    lemma_subrange_concat(a + b, c, d + t + st);
    assert(p =~= (a + b) + c + (d + t + st));
    lemma_subrange_concat(a + b + c, d, t + st);
    assert(p =~= (a + b + c) + d + (t + st));
    lemma_subrange_concat(a + b + c + d, t, st);
    assert(p =~= (a + b + c + d) + t + st);
    lemma_subrange_concat(a + b + c + d + t, st, Seq::empty());
    assert(p =~= (a + b + c + d + t) + st + Seq::empty());
    crate::words::lemma_bytes_words_round_trip(e.path_data);
    crate::words::lemma_bytes_words_round_trip(packed_draw_tags(e));
    crate::words::lemma_bytes_words_round_trip(draw_data);
    crate::words::lemma_bytes_words_round_trip(tw);
    crate::words::lemma_bytes_words_round_trip(sw);
}

/// A part of a concatenation, taken back out by its position.
proof fn lemma_subrange_concat<A>(x: Seq<A>, y: Seq<A>, z: Seq<A>)
    ensures
        (x + y + z).subrange(x.len() as int, (x.len() + y.len()) as int) == y,
{
    assert((x + y + z).subrange(x.len() as int, (x.len() + y.len()) as int) =~= y);
}

/// The word offsets of the layout of a packed scene are the byte offsets of
/// its sections divided by four, and the padded path tags fill whole words.
proof fn lemma_layout_offsets(e: EncodingView)
    requires
        scene_buffer_size(e) <= 4 * u32::MAX,
    ensures
        path_tags_padded(e) % 1024 == 0,
        path_tags_padded(e) >= e.path_tags.len() + e.n_open_clips,
        scene_layout(e).path_tag_base == 0,
        scene_layout(e).path_data_base * 4 == path_tags_padded(e),
        scene_layout(e).draw_tag_base * 4 == path_data_end(e),
        scene_layout(e).draw_data_base * 4 == draw_tags_end(e),
        scene_layout(e).transform_base * 4 == draw_data_end(e),
        scene_layout(e).style_base * 4 == transforms_end(e),
{
    let len = e.path_tags.len() + e.n_open_clips;
    let padded = path_tags_padded(e);
    lemma_round_up(len as nat, 1024);
    let q = padded / 1024;
    assert(padded == 4 * (256 * q));
    lemma_words_of_bytes(padded, (256 * q) as nat);
    let w1: nat = (256 * q + e.path_data.len()) as nat;
    assert(path_data_end(e) == 4 * w1);
    lemma_words_of_bytes(path_data_end(e), w1);
    let w2: nat = w1 + e.draw_tags.len() + e.n_open_clips as nat;
    assert(draw_tags_end(e) == 4 * w2);
    lemma_words_of_bytes(draw_tags_end(e), w2);
    let w3: nat = w2 + e.draw_data.len();
    assert(draw_data_end(e) == 4 * w3);
    lemma_words_of_bytes(draw_data_end(e), w3);
    let w4: nat = w3 + 6 * e.transforms.len();
    assert(transforms_end(e) == 4 * w4);
    lemma_words_of_bytes(transforms_end(e), w4);
}

/// A byte count of `4 * w` words, with `w` within 32 bits, is `w` words.
proof fn lemma_words_of_bytes(bytes: nat, w: nat)
    requires
        bytes == 4 * w,
        w <= u32::MAX,
    ensures
        (bytes / 4) as u32 * 4 == bytes,
{
}

/// Rounding up to a multiple of `a` gives the least multiple of `a` at or above `len`.
pub proof fn lemma_round_up(len: nat, a: nat)
    requires
        a > 0,
    ensures
        round_up(len, a) % a == 0,
        len <= round_up(len, a) < len + a,
{
    vstd::arithmetic::div_mod::lemma_fundamental_div_mod(len as int, a as int);
    let q = len as int / a as int;
    let r = len as int % a as int;
    if r != 0 {
        assert(round_up(len, a) == a * (q + 1)) by (nonlinear_arith)
            requires
                len == a * q + r,
                round_up(len, a) == len + (a - r),
        ;
        vstd::arithmetic::div_mod::lemma_mod_multiples_basic(q + 1, a as int);
        assert((q + 1) * a == a * (q + 1)) by (nonlinear_arith);
    }
}


/// The patches of every consistent encoding fit, whatever the atlas gives
/// their images.
pub proof fn lemma_consistent_resolvable(e: EncodingView, locations: Seq<Option<(u32, u32)>>)
    requires
        e.is_consistent(),
        locations.len() == e.patches.len(),
    ensures
        patches_fit(e.patches, locations, e.draw_data.len()),
{
    assert forall|k: int| 0 <= k < e.patches.len() implies #[trigger] e.patches[k].draw_data_offset
        + patch_len(locations[k]) <= if k + 1 < e.patches.len() {
        e.patches[k + 1].draw_data_offset as nat
    } else {
        e.draw_data.len()
    } by {
        assert(e.patches[k].draw_data_offset + 3 <= e.draw_data.len());
        if k + 1 < e.patches.len() {
            assert(e.patches[k].draw_data_offset + 3 <= e.patches[k + 1].draw_data_offset);
        }
    }
}

} // verus!
