use std::sync::Arc;

use peniko::{Blob, Image, ImageFormat};
use vello::draw::{BlendMode, DrawColor, DrawTag, Extend, ImageQuality};
use vello::encoding::{Encoding, ImageBrush};
use vello::path::{Fill, PathTag, Transform};
use vello::resolve::{align_up, resolve_solid_paths_only, Layout, Resolver};

fn transform(m: [f32; 4], t: [f32; 2]) -> Transform {
    Transform {
        matrix: [m[0].to_bits(), m[1].to_bits(), m[2].to_bits(), m[3].to_bits()],
        translation: [t[0].to_bits(), t[1].to_bits()],
    }
}

fn ne(words: &[u32]) -> Vec<u8> {
    words.iter().flat_map(|w| w.to_ne_bytes()).collect()
}

fn image_brush(width: u32, height: u32) -> ImageBrush {
    let pixels = vec![0u8; (width * height * 4) as usize];
    let image = Image::new(Blob::new(Arc::new(pixels)), ImageFormat::Rgba8, width, height);
    ImageBrush {
        image,
        width,
        height,
        quality: ImageQuality::Medium,
        x_extend: Extend::Pad,
        y_extend: Extend::Pad,
    }
}

/// A transform, a fill style, a path of two data words, a color and an open clip.
fn sample() -> Encoding {
    let mut e = Encoding::new();
    e.encode_transform(transform([1.0, 0.0, 0.0, 1.0], [3.0, 4.0]));
    e.encode_fill_style(Fill::NonZero);
    e.path_tags.push(PathTag(PathTag::PATH));
    e.path_data.extend_from_slice(&[11, 12]);
    e.n_paths = 1;
    e.encode_color(DrawColor { rgba: 0xff00_00ff });
    e.encode_begin_clip(BlendMode { mix: 128, compose: 3 }, 1.0f32.to_bits());
    e
}

#[test]
fn align_up_rounds_to_power_of_two() {
    assert_eq!(align_up(0, 1024), 0);
    assert_eq!(align_up(1, 1024), 1024);
    assert_eq!(align_up(1024, 1024), 1024);
    assert_eq!(align_up(1025, 1024), 2048);
    assert_eq!(align_up(7, 1), 7);
    assert_eq!(align_up(9, 8), 16);
}

#[test]
fn align_up_with_other_alignments_adds_masked_negation() {
    // -5 & 2 == 2
    assert_eq!(align_up(5, 3), 7);
    // -4 & 2 == 0
    assert_eq!(align_up(4, 3), 4);
}

#[test]
fn layout_new_and_path_tags_size() {
    let l = Layout::new();
    assert_eq!(l, Layout::new());
    assert_eq!(l.n_paths, 0);
    assert_eq!(l.style_base, 0);
    let mut l = Layout::new();
    l.path_tag_base = 3;
    l.path_data_base = 259;
    assert_eq!(l.path_tags_size(), 1024);
}

#[test]
fn solid_paths_are_packed_in_order() {
    let e = sample();
    let mut packed = vec![9u8; 5];
    let layout = resolve_solid_paths_only(&e, &mut packed);
    assert_eq!(layout.n_paths, 1);
    assert_eq!(layout.n_draw_objects, 1);
    assert_eq!(layout.n_clips, 1);
    assert_eq!(layout.bin_data_start, 1);
    assert_eq!(layout.path_tag_base, 0);
    assert_eq!(layout.path_data_base, 256);
    assert_eq!(layout.draw_tag_base, 258);
    assert_eq!(layout.draw_data_base, 261);
    assert_eq!(layout.transform_base, 264);
    assert_eq!(layout.style_base, 270);
    assert_eq!(packed.len(), 1088);
    // Path tags, a path marker for the open clip, then zero padding.
    assert_eq!(&packed[..4], &[PathTag::TRANSFORM, PathTag::STYLE, PathTag::PATH, PathTag::PATH]);
    assert!(packed[4..1024].iter().all(|b| *b == 0));
    assert_eq!(&packed[1024..1032], ne(&[11, 12]).as_slice());
    assert_eq!(
        &packed[1032..1044],
        ne(&[DrawTag::COLOR, DrawTag::BEGIN_CLIP, DrawTag::END_CLIP]).as_slice()
    );
    assert_eq!(&packed[1044..1056], ne(&[0xff00_00ff, 0x8003, 1.0f32.to_bits()]).as_slice());
    assert_eq!(
        &packed[1056..1080],
        ne(&[1.0f32.to_bits(), 0, 0, 1.0f32.to_bits(), 3.0f32.to_bits(), 4.0f32.to_bits()]).as_slice()
    );
    assert_eq!(&packed[1080..1088], ne(&[0, 0]).as_slice());
}

#[test]
fn layout_reads_back_the_packed_streams() {
    let e = sample();
    let mut packed = Vec::new();
    let layout = resolve_solid_paths_only(&e, &mut packed);
    let path_tags: Vec<u8> = layout.path_tags(&packed).iter().map(|t| t.0).collect();
    assert_eq!(path_tags.len(), 1024);
    assert_eq!(&path_tags[..4], &[0x20, 0x40, 0x10, 0x10]);
    let chunked = layout.path_tags_chunked(&packed);
    assert_eq!(chunked.len(), 256);
    assert_eq!(chunked[0], u32::from_ne_bytes([0x20, 0x40, 0x10, 0x10]));
    assert_eq!(layout.path_data(&packed), ne(&[11, 12]));
    assert_eq!(
        layout.draw_tags(&packed),
        vec![DrawTag(DrawTag::COLOR), DrawTag(DrawTag::BEGIN_CLIP), DrawTag(DrawTag::END_CLIP)]
    );
    assert_eq!(layout.draw_data(&packed), e.draw_data);
    let transforms = layout.transforms(&packed);
    assert_eq!(transforms.len(), 1);
    assert!(transforms[0].transform_eq(&e.transforms[0]));
    let styles = layout.styles(&packed);
    assert_eq!(styles.len(), 1);
    assert!(styles[0].style_eq(&e.styles[0]));
}

#[test]
fn resolver_without_patches_packs_as_solid() {
    let e = sample();
    let mut solid = Vec::new();
    let solid_layout = resolve_solid_paths_only(&e, &mut solid);
    let mut resolver = Resolver::new();
    let mut packed = Vec::new();
    let layout = resolver.resolve(&e, &mut packed, &Vec::new());
    assert_eq!(layout, solid_layout);
    assert_eq!(packed, solid);
}

#[test]
fn resolver_writes_image_locations() {
    let mut e = Encoding::new();
    e.encode_transform(transform([1.0, 0.0, 0.0, 1.0], [0.0, 0.0]));
    e.encode_color(DrawColor { rgba: 1 });
    e.encode_image(&image_brush(5, 6), 255);
    e.encode_color(DrawColor { rgba: 2 });
    e.encode_image(&image_brush(7, 8), 128);
    let mut resolver = Resolver::new();
    let mut packed = Vec::new();
    let layout = resolver.resolve(&e, &mut packed, &vec![Some((3, 5)), None]);
    let draw_data = layout.draw_data(&packed);
    assert_eq!(
        draw_data,
        vec![1, (3 << 16) | 5, (5 << 16) | 6, e.draw_data[3], 2, 0, 0, e.draw_data[7]]
    );
    assert_eq!(layout.draw_tags(&packed).len(), 4);
    assert_eq!(layout.bin_data_start, 1 + 10 + 1 + 10);
}

#[test]
fn location_word_keeps_x_above_y() {
    let mut e = Encoding::new();
    e.encode_image(&image_brush(1, 1), 0);
    let mut resolver = Resolver::new();
    let mut packed = Vec::new();
    let layout = resolver.resolve(&e, &mut packed, &vec![Some((0x1_0002, 0x3))]);
    // x is shifted into the high half; its bits above 16 are shifted out.
    assert_eq!(layout.draw_data(&packed)[0], 0x0002_0003);
}

#[test]
fn placed_images_may_patch_adjacent_words() {
    let mut e = Encoding::new();
    e.draw_data.extend_from_slice(&[10, 20, 30]);
    let brush = image_brush(1, 1);
    e.resources.patches.push(vello::resolve::Patch { draw_data_offset: 0, image: brush.image.clone() });
    e.resources.patches.push(vello::resolve::Patch { draw_data_offset: 1, image: brush.image.clone() });
    let mut resolver = Resolver::new();
    let mut packed = Vec::new();
    let layout = resolver.resolve(&e, &mut packed, &vec![Some((1, 2)), None]);
    assert_eq!(layout.draw_data(&packed), vec![(1 << 16) | 2, 0, 0]);
}

#[test]
fn resolving_changes_only_the_patched_words() {
    let mut e = sample();
    e.encode_image(&image_brush(2, 3), 200);
    e.encode_color(DrawColor { rgba: 5 });
    e.encode_image(&image_brush(4, 5), 100);
    let mut packed = Vec::new();
    let mut resolver = Resolver::new();
    let layout = resolver.resolve(&e, &mut packed, &vec![Some((7, 9)), None]);
    let data = layout.draw_data(&packed);
    let first = e.resources.patches[0].draw_data_offset;
    let second = e.resources.patches[1].draw_data_offset;
    for (i, w) in data.iter().enumerate() {
        if i == first {
            assert_eq!(*w, (7 << 16) | 9);
        } else if i == second || i == second + 1 {
            assert_eq!(*w, 0);
        } else {
            assert_eq!(*w, e.draw_data[i]);
        }
    }
}

#[test]
fn packed_words_are_in_the_hosts_byte_order() {
    let e = sample();
    let mut packed = Vec::new();
    let layout = resolve_solid_paths_only(&e, &mut packed);
    let start = layout.draw_data_base as usize * 4;
    let words: &[u32] = bytemuck::cast_slice(&e.draw_data);
    let bytes: &[u8] = bytemuck::cast_slice(words);
    assert_eq!(&packed[start..start + bytes.len()], bytes);
}
