use vello::draw::{BlendMode, DrawBeginClip, DrawTag, Extend, ImageQuality};
use vello::path::{f32_bits_eq, Fill, Style, Transform};

#[test]
fn info_sizes_of_draw_tags() {
    assert_eq!(DrawTag(DrawTag::NOP).info_size(), 0);
    assert_eq!(DrawTag(DrawTag::COLOR).info_size(), 1);
    assert_eq!(DrawTag(DrawTag::LINEAR_GRADIENT).info_size(), 4);
    assert_eq!(DrawTag(DrawTag::RADIAL_GRADIENT).info_size(), 10);
    assert_eq!(DrawTag(DrawTag::SWEEP_GRADIENT).info_size(), 9);
    assert_eq!(DrawTag(DrawTag::IMAGE).info_size(), 10);
    assert_eq!(DrawTag(DrawTag::BLUR_RECT).info_size(), 11);
    assert_eq!(DrawTag(DrawTag::BEGIN_CLIP).info_size(), 0);
    assert_eq!(DrawTag(DrawTag::END_CLIP).info_size(), 0);
}

#[test]
fn info_size_reads_bits_six_to_nine() {
    assert_eq!(DrawTag(0xffff_ffff).info_size(), 15);
    assert_eq!(DrawTag(0x3f).info_size(), 0);
    assert_eq!(DrawTag(0x40).info_size(), 1);
    assert_eq!(DrawTag(0x400).info_size(), 0);
}

#[test]
fn begin_clip_packs_mix_above_compose() {
    // A clip layer (mix 128) composed source-over (3).
    let clip = DrawBeginClip::new(BlendMode { mix: 128, compose: 3 }, 0.5f32.to_bits());
    assert_eq!(clip.blend_mode, 0x8003);
    assert_eq!(clip.alpha, 0.5f32.to_bits());
    let normal = DrawBeginClip::new(BlendMode { mix: 0, compose: 13 }, 0);
    assert_eq!(normal.blend_mode, 13);
    let top = DrawBeginClip::new(BlendMode { mix: 255, compose: 255 }, 1);
    assert_eq!(top.blend_mode, 0xffff);
}

#[test]
fn quality_and_extend_values() {
    assert_eq!(ImageQuality::Low.to_u32(), 0);
    assert_eq!(ImageQuality::Medium.to_u32(), 1);
    assert_eq!(ImageQuality::High.to_u32(), 2);
    assert_eq!(Extend::Pad.to_u32(), 0);
    assert_eq!(Extend::Repeat.to_u32(), 1);
    assert_eq!(Extend::Reflect.to_u32(), 2);
}

#[test]
fn float_bits_compare_as_floats() {
    assert!(f32_bits_eq(1.0f32.to_bits(), 1.0f32.to_bits()));
    assert!(!f32_bits_eq(1.0f32.to_bits(), 2.0f32.to_bits()));
    assert!(f32_bits_eq(0.0f32.to_bits(), (-0.0f32).to_bits()));
    assert!(!f32_bits_eq(f32::NAN.to_bits(), f32::NAN.to_bits()));
    assert!(!f32_bits_eq(f32::NAN.to_bits(), 1.0f32.to_bits()));
    assert!(f32_bits_eq(f32::INFINITY.to_bits(), f32::INFINITY.to_bits()));
    assert!(!f32_bits_eq(f32::INFINITY.to_bits(), f32::NEG_INFINITY.to_bits()));
}

#[test]
fn fill_styles() {
    let non_zero = Style::from_fill(Fill::NonZero);
    assert_eq!(non_zero.flags_and_miter_limit, 0);
    assert_eq!(non_zero.line_width, 0);
    let even_odd = Style::from_fill(Fill::EvenOdd);
    assert_eq!(even_odd.flags_and_miter_limit, Style::FLAGS_FILL_BIT);
    assert_eq!(even_odd.flags_and_miter_limit, 0x4000_0000);
    assert!(non_zero.style_eq(&Style::from_fill(Fill::NonZero)));
    assert!(!non_zero.style_eq(&even_odd));
}

fn transform(m: [f32; 4], t: [f32; 2]) -> Transform {
    Transform {
        matrix: [m[0].to_bits(), m[1].to_bits(), m[2].to_bits(), m[3].to_bits()],
        translation: [t[0].to_bits(), t[1].to_bits()],
    }
}

#[test]
fn transforms_compare_as_floats() {
    let a = transform([1.0, 0.0, 0.0, 1.0], [0.0, 0.0]);
    let b = transform([1.0, -0.0, 0.0, 1.0], [-0.0, 0.0]);
    let c = transform([1.0, 0.0, 0.0, 1.0], [0.0, 5.0]);
    let d = transform([f32::NAN, 0.0, 0.0, 1.0], [0.0, 0.0]);
    assert!(a.transform_eq(&b));
    assert!(!a.transform_eq(&c));
    assert!(!d.transform_eq(&d));
}

#[test]
fn draw_data_sizes_of_draw_tags() {
    let words = |t: u32| (t >> 2) & 7;
    assert_eq!(words(DrawTag::COLOR), 1);
    assert_eq!(words(DrawTag::IMAGE), 3);
    assert_eq!(words(DrawTag::BLUR_RECT), 5);
    assert_eq!(words(DrawTag::BEGIN_CLIP), 2);
    assert_eq!(words(DrawTag::END_CLIP), 0);
    assert_eq!(words(DrawTag::LINEAR_GRADIENT), 5);
    assert_eq!(words(DrawTag::RADIAL_GRADIENT), 7);
    assert_eq!(words(DrawTag::SWEEP_GRADIENT), 5);
}
