use std::sync::Arc;

use peniko::{Blob, Image, ImageFormat};
use vello::draw::{BlendMode, DrawColor, DrawTag, Extend, ImageQuality};
use vello::encoding::{Brush, Encoding, ImageBrush};
use vello::path::{Fill, PathTag, Style, Transform};

fn transform(m: [f32; 4], t: [f32; 2]) -> Transform {
    Transform {
        matrix: [m[0].to_bits(), m[1].to_bits(), m[2].to_bits(), m[3].to_bits()],
        translation: [t[0].to_bits(), t[1].to_bits()],
    }
}

fn identity() -> Transform {
    transform([1.0, 0.0, 0.0, 1.0], [0.0, 0.0])
}

fn image(width: u32, height: u32) -> Image {
    let pixels = vec![0u8; (width * height * 4) as usize];
    Image::new(Blob::new(Arc::new(pixels)), ImageFormat::Rgba8, width, height)
}

fn brush(img: &Image) -> ImageBrush {
    ImageBrush {
        image: img.clone(),
        width: img.width,
        height: img.height,
        quality: ImageQuality::High,
        x_extend: Extend::Repeat,
        y_extend: Extend::Reflect,
    }
}

fn tags(e: &Encoding) -> Vec<u8> {
    e.path_tags.iter().map(|t| t.0).collect()
}

#[test]
fn new_encoding_is_empty() {
    let e = Encoding::new();
    assert!(e.is_empty());
    assert!(e.path_data.is_empty() && e.draw_tags.is_empty() && e.draw_data.is_empty());
    assert!(e.transforms.is_empty() && e.styles.is_empty() && e.resources.patches.is_empty());
    assert_eq!((e.n_paths, e.n_path_segments, e.n_clips, e.n_open_clips, e.flags), (0, 0, 0, 0, 0));
}

#[test]
fn transform_is_encoded_once() {
    let mut e = Encoding::new();
    assert!(e.encode_transform(identity()));
    assert!(!e.encode_transform(identity()));
    assert_eq!(tags(&e), vec![PathTag::TRANSFORM]);
    assert_eq!(e.transforms.len(), 1);
    assert!(e.encode_transform(transform([2.0, 0.0, 0.0, 2.0], [0.0, 0.0])));
    assert_eq!(e.transforms.len(), 2);
    assert!(!e.is_empty());
}

#[test]
fn nan_transform_is_encoded_every_time() {
    let mut e = Encoding::new();
    let t = transform([f32::NAN, 0.0, 0.0, 1.0], [0.0, 0.0]);
    assert!(e.encode_transform(t));
    assert!(e.encode_transform(t));
    assert_eq!(e.transforms.len(), 2);
}

#[test]
fn negative_zero_transform_matches_zero() {
    let mut e = Encoding::new();
    assert!(e.encode_transform(identity()));
    assert!(!e.encode_transform(transform([1.0, -0.0, -0.0, 1.0], [-0.0, 0.0])));
}

#[test]
fn forcing_encodes_the_same_transform_and_style_again() {
    let mut e = Encoding::new();
    e.encode_transform(identity());
    e.encode_fill_style(Fill::NonZero);
    e.force_next_transform_and_style();
    assert_eq!(e.flags, Encoding::FORCE_NEXT_TRANSFORM | Encoding::FORCE_NEXT_STYLE);
    assert!(e.encode_transform(identity()));
    assert_eq!(e.flags, Encoding::FORCE_NEXT_STYLE);
    e.encode_fill_style(Fill::NonZero);
    assert_eq!(e.flags, 0);
    assert_eq!(
        tags(&e),
        vec![PathTag::TRANSFORM, PathTag::STYLE, PathTag::TRANSFORM, PathTag::STYLE]
    );
    assert!(!e.encode_transform(identity()));
}

#[test]
fn fill_style_is_encoded_when_it_changes() {
    let mut e = Encoding::new();
    e.encode_fill_style(Fill::NonZero);
    e.encode_fill_style(Fill::NonZero);
    e.encode_fill_style(Fill::EvenOdd);
    assert_eq!(e.styles.len(), 2);
    assert_eq!(e.styles[1].flags_and_miter_limit, Style::FLAGS_FILL_BIT);
    assert_eq!(tags(&e), vec![PathTag::STYLE, PathTag::STYLE]);
    e.encode_stroke_style(Style { flags_and_miter_limit: Style::FLAGS_STYLE_BIT, line_width: 2.0f32.to_bits() });
    e.encode_stroke_style(Style { flags_and_miter_limit: Style::FLAGS_STYLE_BIT, line_width: 2.0f32.to_bits() });
    assert_eq!(e.styles.len(), 3);
}

#[test]
fn color_pushes_tag_and_word() {
    let mut e = Encoding::new();
    e.encode_color(DrawColor { rgba: 0x8040_20ff });
    assert_eq!(e.draw_tags, vec![DrawTag(DrawTag::COLOR)]);
    assert_eq!(e.draw_data, vec![0x8040_20ff]);
}

#[test]
fn image_pushes_patch_and_payload() {
    let mut e = Encoding::new();
    e.encode_color(DrawColor { rgba: 7 });
    let img = image(300, 70000);
    e.encode_image(&brush(&img), 200);
    assert_eq!(e.draw_tags, vec![DrawTag(DrawTag::COLOR), DrawTag(DrawTag::IMAGE)]);
    // The height keeps its low 16 bits only.
    let width_height = (300u32 << 16) | (70000u32 & 0xffff);
    let sample_alpha = (2u32 << 12) | (1 << 10) | (2 << 8) | 200;
    assert_eq!(e.draw_data, vec![7, 0, width_height, sample_alpha]);
    assert_eq!(e.resources.patches.len(), 1);
    assert_eq!(e.resources.patches[0].draw_data_offset, 1);
    assert!(e.resources.patches[0].image == img);
    assert_eq!(e.resources.patches[0].image.data.id(), img.data.id());
}

#[test]
fn brushes_dispatch() {
    let mut e = Encoding::new();
    e.encode_brush(&Brush::Gradient);
    assert!(e.draw_tags.is_empty());
    e.encode_brush(&Brush::Solid(DrawColor { rgba: 9 }));
    let img = image(2, 3);
    e.encode_brush(&Brush::Image(brush(&img), 255));
    assert_eq!(e.draw_tags, vec![DrawTag(DrawTag::COLOR), DrawTag(DrawTag::IMAGE)]);
    assert_eq!(e.draw_data.len(), 4);
    assert_eq!(e.draw_data[0], 9);
    assert_eq!(e.draw_data[2], (2 << 16) | 3);
}

#[test]
fn clips_open_and_close() {
    let mut e = Encoding::new();
    e.encode_begin_clip(BlendMode { mix: 128, compose: 3 }, 1.0f32.to_bits());
    assert_eq!((e.n_clips, e.n_open_clips), (1, 1));
    assert_eq!(e.draw_data, vec![0x8003, 1.0f32.to_bits()]);
    e.encode_end_clip();
    assert_eq!((e.n_clips, e.n_open_clips, e.n_paths), (2, 0, 1));
    assert_eq!(e.draw_tags, vec![DrawTag(DrawTag::BEGIN_CLIP), DrawTag(DrawTag::END_CLIP)]);
    assert_eq!(tags(&e), vec![PathTag::PATH]);
}

#[test]
fn ending_an_unopened_clip_does_nothing() {
    let mut e = Encoding::new();
    e.encode_end_clip();
    assert!(e.draw_tags.is_empty());
    assert!(e.path_tags.is_empty());
    assert_eq!((e.n_clips, e.n_open_clips, e.n_paths), (0, 0, 0));
}

#[test]
fn swapping_last_path_tags() {
    let mut e = Encoding::new();
    e.encode_fill_style(Fill::NonZero);
    e.encode_transform(identity());
    e.encode_transform(transform([3.0, 0.0, 0.0, 3.0], [1.0, 1.0]));
    e.swap_last_path_tags();
    assert_eq!(tags(&e), vec![PathTag::STYLE, PathTag::TRANSFORM, PathTag::TRANSFORM]);
    e.path_tags.push(PathTag(PathTag::PATH));
    e.swap_last_path_tags();
    assert_eq!(tags(&e), vec![PathTag::STYLE, PathTag::TRANSFORM, PathTag::PATH, PathTag::TRANSFORM]);
    e.swap_last_path_tags();
    assert_eq!(tags(&e), vec![PathTag::STYLE, PathTag::TRANSFORM, PathTag::TRANSFORM, PathTag::PATH]);
}

#[test]
fn reset_clears_everything() {
    let mut e = Encoding::new();
    e.encode_transform(identity());
    e.encode_fill_style(Fill::EvenOdd);
    e.encode_begin_clip(BlendMode { mix: 0, compose: 3 }, 0);
    e.encode_image(&brush(&image(1, 1)), 1);
    e.force_next_transform_and_style();
    e.reset();
    assert!(e.is_empty());
    assert!(e.draw_tags.is_empty() && e.draw_data.is_empty() && e.resources.patches.is_empty());
    assert!(e.transforms.is_empty() && e.styles.is_empty());
    assert_eq!((e.n_paths, e.n_clips, e.n_open_clips, e.flags), (0, 0, 0, 0));
}

#[test]
fn append_concatenates_streams() {
    let mut a = Encoding::new();
    a.encode_transform(identity());
    a.encode_color(DrawColor { rgba: 1 });
    a.n_paths = 2;
    let mut b = Encoding::new();
    b.encode_transform(transform([2.0, 0.0, 0.0, 2.0], [0.0, 0.0]));
    b.encode_begin_clip(BlendMode { mix: 0, compose: 3 }, 0);
    b.encode_image(&brush(&image(4, 4)), 9);
    b.n_paths = 3;
    b.force_next_transform_and_style();
    a.append(&b, &None);
    assert_eq!(tags(&a), vec![PathTag::TRANSFORM, PathTag::TRANSFORM]);
    assert_eq!(a.draw_tags.len(), 3);
    assert_eq!(a.draw_data.len(), 1 + 2 + 3);
    assert_eq!(a.n_paths, 5);
    assert_eq!((a.n_clips, a.n_open_clips), (1, 1));
    assert_eq!(a.flags, 3);
    assert_eq!(a.transforms.len(), 2);
    assert!(a.transforms[1].transform_eq(&b.transforms[0]));
    // The patch moves with its draw data: past the one word already in `a`,
    // it still points at the first word of the image payload.
    assert_eq!(a.resources.patches.len(), 1);
    assert_eq!(a.resources.patches[0].draw_data_offset, 3);
    assert_eq!(a.draw_data[3], 0);
    assert_eq!(a.draw_data[4], (4 << 16) | 4);
}

#[test]
fn append_with_transformed_transforms() {
    let mut a = Encoding::new();
    a.encode_transform(identity());
    let mut b = Encoding::new();
    b.encode_transform(identity());
    let moved = transform([1.0, 0.0, 0.0, 1.0], [10.0, 20.0]);
    a.append(&b, &Some(vec![moved]));
    assert_eq!(a.transforms.len(), 2);
    assert!(a.transforms[1].transform_eq(&moved));
}

#[test]
fn append_empty_keeps_streams_and_clears_flags() {
    let mut a = Encoding::new();
    a.encode_transform(identity());
    a.encode_color(DrawColor { rgba: 5 });
    a.force_next_transform_and_style();
    a.append(&Encoding::new(), &None);
    assert_eq!(tags(&a), vec![PathTag::TRANSFORM]);
    assert_eq!(a.draw_data, vec![5]);
    assert_eq!(a.flags, 0);
}
