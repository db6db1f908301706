//! Translucent materials.

use nexacore_ui::material::{box_blur, render_material, render_vibrancy};
use nexacore_ui::tokens::Material;

/// A translucent near-white over a blurred backdrop.
const REGULAR: Material = Material {
    blur: 20,
    tint: 0xB3F4_EBD0,
};

/// Strong tint over a strong blur.
const THICK: Material = Material {
    blur: 30,
    tint: 0xD9F4_EBD0,
};

/// Weak tint over a weak blur.
const THIN: Material = Material {
    blur: 10,
    tint: 0x80F4_EBD0,
};

/// A dark veil without blur.
const SCRIM: Material = Material {
    blur: 0,
    tint: 0x8014_171A,
};

fn rgb(p: u32) -> (u32, u32, u32) {
    ((p >> 16) & 0xFF, (p >> 8) & 0xFF, p & 0xFF)
}

/// One channel of a colour in linear light.
fn linear(c: u32) -> f32 {
    let v = c as f32 / 255.0;
    if v <= 0.04045 {
        v / 12.92
    } else {
        ((v + 0.055) / 1.055).powf(2.4)
    }
}

fn encoded(v: f32) -> u32 {
    let s = if v <= 0.003_130_8 {
        v * 12.92
    } else {
        1.055 * v.powf(1.0 / 2.4) - 0.055
    };
    (s * 255.0 + 0.5) as u32
}

/// Source over destination, in linear light.
fn blend(src: u32, dst: u32) -> u32 {
    let a = (src >> 24) as f32 / 255.0;
    let mut out = 0xFFu32 << 24;
    for shift in [0, 8, 16] {
        let s = linear((src >> shift) & 0xFF);
        let d = linear((dst >> shift) & 0xFF);
        out |= encoded(s * a + d * (1.0 - a)) << shift;
    }
    out
}

#[test]
fn box_blur_zero_radius_is_identity() {
    let src = [
        0xFF_00_00_00u32,
        0xFF_FF_FF_FF,
        0xFF_FF_FF_FF,
        0xFF_00_00_00,
    ];
    assert_eq!(box_blur(&src, 2, 2, 0).unwrap(), src.to_vec());
}

#[test]
fn box_blur_averages_neighbors() {
    // 2x1: black | white, radius 1 ⇒ both pixels become the average grey.
    let src = [0xFF_00_00_00u32, 0xFF_FF_FF_FF];
    let out = box_blur(&src, 2, 1, 1).unwrap();
    let g0 = (out[0] >> 16) & 0xFF;
    let g1 = (out[1] >> 16) & 0xFF;
    assert_eq!(g0, g1, "uniform after blur");
    assert!((120..=135).contains(&g0), "grey ~127, got {g0}");
}

#[test]
fn box_blur_rejects_bad_length() {
    assert!(box_blur(&[0u32; 3], 2, 2, 1).is_none());
}

#[test]
fn render_material_blurs_and_tints() {
    let backdrop = [0xFF_00_00_00u32; 4];
    let out = render_material(&backdrop, 2, 2, REGULAR, &blend).unwrap();
    assert_eq!(out.len(), 4);
    // REGULAR tint is a translucent near-white over black ⇒ result lightens.
    let lit = rgb(out[0]);
    assert!(
        lit.0 > 0 && lit.1 > 0 && lit.2 > 0,
        "tint must lighten: {lit:?}"
    );
}

#[test]
fn render_material_scrim_has_no_blur_but_dims() {
    // SCRIM has blur 0 (identity backdrop) and a dark tint ⇒ dims a white
    // backdrop.
    let backdrop = [0xFF_FF_FF_FFu32; 4];
    let out = render_material(&backdrop, 2, 2, SCRIM, &blend).unwrap();
    let dimmed = rgb(out[0]);
    assert!(dimmed.0 < 0xFF, "scrim must dim: {dimmed:?}");
}

#[test]
fn render_vibrancy_picks_up_context_tint() {
    // A strong red context tint must push the vibrant surface redder than
    // the plain material over the same backdrop.
    let backdrop = [0xFF_40_40_40u32; 4];
    let plain = render_material(&backdrop, 2, 2, THICK, &blend).unwrap();
    let context = 0x80_FF_00_00u32; // 50% red
    let vibrant = render_vibrancy(&backdrop, 2, 2, THICK, context, &blend).unwrap();
    let p = rgb(plain[0]);
    let v = rgb(vibrant[0]);
    assert!(
        v.0 > p.0,
        "vibrancy should be redder: plain={p:?} vibrant={v:?}"
    );
}

#[test]
fn render_material_rejects_bad_length() {
    assert!(render_material(&[0u32; 3], 2, 2, THIN, &blend).is_none());
}

#[test]
fn blurring_a_flat_area_changes_nothing() {
    let src = vec![0xFF12_3456u32; 12];
    assert_eq!(box_blur(&src, 4, 3, 2), Some(src));
}

#[test]
fn the_blur_is_the_mean_along_both_axes() {
    // A row of three: each pixel becomes the mean of itself and its neighbours.
    let src = [0xFF00_0000u32, 0xFF00_0060, 0xFF00_0000];
    let out = box_blur(&src, 3, 1, 1).unwrap();
    assert_eq!(out, [0xFF00_0030, 0xFF00_0020, 0xFF00_0030]);
}
