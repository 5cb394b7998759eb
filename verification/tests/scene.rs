use vello::draw::{BlendMode, DrawColor};
use vello::encoding::Encoding;
use vello::encoding::Brush;
use vello::path::{f32_bits_clamp_unit, Fill, PathTag, Style, Transform};
use vello::scene::Scene;

fn identity() -> Transform {
    Transform {
        matrix: [1.0f32.to_bits(), 0, 0, 1.0f32.to_bits()],
        translation: [0, 0],
    }
}

#[test]
fn scene_holds_an_encoding() {
    let mut scene = Scene::new();
    assert!(scene.encoding().is_empty());
    scene.encoding_mut().encode_transform(identity());
    scene.encoding_mut().encode_begin_clip(BlendMode { mix: 128, compose: 3 }, 1.0f32.to_bits());
    assert_eq!(scene.encoding().n_open_clips, 1);
    scene.pop_layer();
    assert_eq!(scene.encoding().n_open_clips, 0);
    assert_eq!(scene.encoding().n_clips, 2);
    scene.pop_layer();
    assert_eq!(scene.encoding().n_clips, 2);
    scene.reset();
    assert!(scene.encoding().is_empty());
    assert!(scene.encoding().draw_tags.is_empty());
}

#[test]
fn scene_append_and_from() {
    let mut child = Encoding::new();
    child.encode_transform(identity());
    child.encode_color(DrawColor { rgba: 3 });
    let child = Scene::from(child);
    assert_eq!(child.encoding().draw_data, vec![3]);
    let mut parent = Scene::new();
    parent.append(&child, &None);
    parent.append(&child, &None);
    assert_eq!(parent.encoding().draw_data, vec![3, 3]);
    assert_eq!(parent.encoding().transforms.len(), 2);
}


fn translate(tx: f32) -> Transform {
    Transform { matrix: [1.0f32.to_bits(), 0, 0, 1.0f32.to_bits()], translation: [tx.to_bits(), 0] }
}

fn tags(scene: &Scene) -> Vec<u8> {
    scene.encoding().path_tags.iter().map(|t| t.0).collect()
}

#[test]
fn fill_encodes_transform_style_shape_and_brush() {
    let mut scene = Scene::new();
    scene.begin_draw(identity(), Style::from_fill(Fill::NonZero));
    assert_eq!(tags(&scene), vec![PathTag::TRANSFORM, PathTag::STYLE]);
    // The shape of the draw, encoded by the path encoder.
    scene.encoding_mut().path_tags.push(PathTag(1));
    scene.encoding_mut().path_tags.push(PathTag(PathTag::PATH));
    scene.finish_draw(true, Some(translate(3.0)), &Brush::Solid(DrawColor { rgba: 7 }));
    // The brush transform's tag goes before the last tag of the shape.
    assert_eq!(tags(&scene), vec![PathTag::TRANSFORM, PathTag::STYLE, 1, PathTag::TRANSFORM, PathTag::PATH]);
    assert_eq!(scene.encoding().transforms.len(), 2);
    assert_eq!(scene.encoding().draw_data, vec![7]);
    // A second fill with the same transform and style encodes neither again.
    scene.begin_draw(translate(3.0), Style::from_fill(Fill::NonZero));
    assert_eq!(scene.encoding().transforms.len(), 2);
    assert_eq!(scene.encoding().styles.len(), 1);
}

#[test]
fn draw_without_segments_encodes_no_brush() {
    let mut scene = Scene::new();
    scene.begin_draw(identity(), Style::from_fill(Fill::EvenOdd));
    scene.finish_draw(false, Some(translate(1.0)), &Brush::Solid(DrawColor { rgba: 1 }));
    assert!(scene.encoding().draw_tags.is_empty());
    assert_eq!(scene.encoding().transforms.len(), 1);
}

#[test]
fn brush_transform_equal_to_draw_transform_is_not_encoded() {
    let mut scene = Scene::new();
    scene.begin_draw(identity(), Style::from_fill(Fill::NonZero));
    scene.encoding_mut().path_tags.push(PathTag(PathTag::PATH));
    scene.finish_draw(true, Some(identity()), &Brush::Gradient);
    assert_eq!(tags(&scene), vec![PathTag::TRANSFORM, PathTag::STYLE, PathTag::PATH]);
    assert!(scene.encoding().draw_tags.is_empty());
}

#[test]
fn push_layer_clamps_its_alpha() {
    let mut scene = Scene::new();
    scene.begin_layer(identity());
    assert_eq!(tags(&scene), vec![PathTag::TRANSFORM, PathTag::STYLE]);
    scene.push_layer_clip(BlendMode { mix: 0, compose: 3 }, 2.5f32.to_bits());
    scene.push_layer_clip(BlendMode { mix: 0, compose: 3 }, (-0.5f32).to_bits());
    scene.push_layer_clip(BlendMode { mix: 0, compose: 3 }, 0.25f32.to_bits());
    let data = &scene.encoding().draw_data;
    assert_eq!(data[1], 1.0f32.to_bits());
    assert_eq!(data[3], 0.0f32.to_bits());
    assert_eq!(data[5], 0.25f32.to_bits());
    assert_eq!(scene.encoding().n_open_clips, 3);
    scene.pop_layer();
    assert_eq!(scene.encoding().n_open_clips, 2);
}

#[test]
fn float_bits_clamp_like_floats() {
    for x in [-3.0f32, -0.0, 0.0, 0.5, 1.0, 1.5, f32::INFINITY, f32::NEG_INFINITY, f32::MIN_POSITIVE] {
        assert_eq!(f32_bits_clamp_unit(x.to_bits()), x.clamp(0.0, 1.0).to_bits());
    }
    assert!(f32::from_bits(f32_bits_clamp_unit(f32::NAN.to_bits())).is_nan());
}
