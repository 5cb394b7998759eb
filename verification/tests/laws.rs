use std::sync::Arc;

use peniko::{Blob, Image, ImageFormat};
use vello::draw::{BlendMode, DrawColor, DrawTag, Extend, ImageQuality};
use vello::encoding::{Encoding, ImageBrush};
use vello::path::{Fill, PathTag, Transform};
use vello::resolve::{resolve_solid_paths_only, Resolver};

fn transform(tx: f32) -> Transform {
    Transform {
        matrix: [1.0f32.to_bits(), 0, 0, 1.0f32.to_bits()],
        translation: [tx.to_bits(), 0],
    }
}

fn image_brush() -> ImageBrush {
    let image = Image::new(Blob::new(Arc::new(vec![0u8; 16])), ImageFormat::Rgba8, 2, 2);
    ImageBrush {
        image,
        width: 2,
        height: 2,
        quality: ImageQuality::Low,
        x_extend: Extend::Pad,
        y_extend: Extend::Pad,
    }
}

fn scene_size(tag: &DrawTag) -> usize {
    ((tag.0 >> 2) & 7) as usize
}

fn assert_consistent(e: &Encoding) {
    let data: usize = e.draw_tags.iter().map(scene_size).sum();
    assert_eq!(e.draw_data.len(), data);
    let begins = e.draw_tags.iter().filter(|t| t.0 == DrawTag::BEGIN_CLIP).count() as u32;
    let ends = e.draw_tags.iter().filter(|t| t.0 == DrawTag::END_CLIP).count() as u32;
    assert_eq!(e.n_clips, begins + ends);
    assert_eq!(e.n_open_clips + ends, begins);
    let paths = e.path_tags.iter().filter(|t| t.0 == PathTag::PATH).count() as u32;
    assert_eq!(e.n_paths, paths);
    for (k, patch) in e.resources.patches.iter().enumerate() {
        assert!(patch.draw_data_offset + 3 <= e.draw_data.len());
        if k + 1 < e.resources.patches.len() {
            assert!(patch.draw_data_offset + 3 <= e.resources.patches[k + 1].draw_data_offset);
        }
    }
}

fn built() -> Encoding {
    let mut e = Encoding::new();
    e.encode_transform(transform(1.0));
    e.encode_fill_style(Fill::EvenOdd);
    e.encode_color(DrawColor { rgba: 1 });
    e.encode_begin_clip(BlendMode { mix: 0, compose: 3 }, 1.0f32.to_bits());
    e.encode_image(&image_brush(), 10);
    e.encode_begin_clip(BlendMode { mix: 128, compose: 3 }, 1.0f32.to_bits());
    e.encode_end_clip();
    e.encode_image(&image_brush(), 20);
    e
}

#[test]
fn encoding_operations_keep_the_encoding_consistent() {
    let mut e = built();
    assert_consistent(&e);
    e.encode_end_clip();
    e.encode_end_clip();
    assert_consistent(&e);
    let mut empty = Encoding::new();
    empty.append(&e, &None);
    assert_consistent(&empty);
    e.reset();
    assert_consistent(&e);
}

#[test]
fn appending_is_associative() {
    let a = built();
    let mut b = Encoding::new();
    b.encode_transform(transform(2.0));
    b.encode_color(DrawColor { rgba: 2 });
    let mut c = Encoding::new();
    c.encode_begin_clip(BlendMode { mix: 0, compose: 3 }, 0);
    c.force_next_transform_and_style();
    let mut left = Encoding::new();
    left.append(&a, &None);
    left.append(&b, &None);
    left.append(&c, &None);
    let mut bc = Encoding::new();
    bc.append(&b, &None);
    bc.append(&c, &None);
    let mut right = Encoding::new();
    right.append(&a, &None);
    right.append(&bc, &None);
    assert_eq!(left.draw_tags, right.draw_tags);
    assert_eq!(left.draw_data, right.draw_data);
    let tags = |e: &Encoding| e.path_tags.iter().map(|t| t.0).collect::<Vec<_>>();
    assert_eq!(tags(&left), tags(&right));
    assert_eq!(left.transforms.len(), right.transforms.len());
    assert_eq!(
        (left.n_paths, left.n_clips, left.n_open_clips, left.flags),
        (right.n_paths, right.n_clips, right.n_open_clips, right.flags)
    );
}

#[test]
fn a_begin_and_end_clip_pair_leaves_no_clip_open() {
    let mut e = built();
    let (open, clips, paths) = (e.n_open_clips, e.n_clips, e.n_paths);
    e.encode_begin_clip(BlendMode { mix: 3, compose: 3 }, 0);
    e.encode_end_clip();
    assert_eq!((e.n_open_clips, e.n_clips, e.n_paths), (open, clips + 2, paths + 1));
}

#[test]
fn packed_scene_reads_back_through_its_layout() {
    let e = built();
    let mut resolver = Resolver::new();
    let mut packed = Vec::new();
    let layout = resolver.resolve(&e, &mut packed, &vec![Some((1, 1)), Some((2, 2))]);
    let mut expected = e.draw_data.clone();
    expected[e.resources.patches[0].draw_data_offset] = (1 << 16) | 1;
    expected[e.resources.patches[1].draw_data_offset] = (2 << 16) | 2;
    assert_eq!(layout.draw_data(&packed), expected);
    let mut tags = e.draw_tags.clone();
    for _ in 0..e.n_open_clips {
        tags.push(DrawTag(DrawTag::END_CLIP));
    }
    assert_eq!(layout.draw_tags(&packed), tags);
    assert_eq!(layout.transforms(&packed).len(), e.transforms.len());
    assert_eq!(layout.styles(&packed).len(), e.styles.len());
}

#[test]
fn packing_without_images_is_the_same_either_way() {
    let mut e = Encoding::new();
    e.encode_transform(transform(0.0));
    e.encode_color(DrawColor { rgba: 77 });
    let mut a = Vec::new();
    let mut b = Vec::new();
    let la = resolve_solid_paths_only(&e, &mut a);
    let lb = Resolver::new().resolve(&e, &mut b, &Vec::new());
    assert_eq!(la, lb);
    assert_eq!(a, b);
}

#[test]
fn appending_encodings_with_images_keeps_both_consistent() {
    let a = built();
    let b = built();
    let mut joined = Encoding::new();
    joined.append(&a, &None);
    joined.append(&b, &None);
    assert_consistent(&joined);
    assert_eq!(joined.resources.patches.len(), 4);
    // Every patch still points at the first word of an image payload, whose
    // second word holds the packed width and height.
    for patch in &joined.resources.patches {
        assert_eq!(joined.draw_data[patch.draw_data_offset], 0);
        assert_eq!(joined.draw_data[patch.draw_data_offset + 1], (2 << 16) | 2);
    }
    let offsets: Vec<usize> = joined.resources.patches.iter().map(|p| p.draw_data_offset).collect();
    let base = a.draw_data.len();
    let first: Vec<usize> = a.resources.patches.iter().map(|p| p.draw_data_offset).collect();
    let second: Vec<usize> = b.resources.patches.iter().map(|p| p.draw_data_offset + base).collect();
    assert_eq!(offsets, [first, second].concat());
}

#[test]
fn size_classes_are_monotone_and_least_on_samples() {
    let mut last = 0;
    for x in 0u64..5000 {
        let c = vello::pool::size_class(x, 1);
        assert!(c >= last);
        last = c;
        // No number at or above x (and 2) with at most two significant bits
        // lies below the class.
        let mut v = x.max(2);
        while v < c {
            let shift = 63 - v.leading_zeros();
            assert!(shift >= 1 && v >> (shift - 1) << (shift - 1) != v);
            v += 1;
        }
    }
}
