//! Painting on a canvas.

use nexacore_ui::canvas::{composite, Canvas, CanvasError};
use nexacore_ui::geometry::Rect;
use nexacore_ui::theme::Shadow;

/// One channel of a colour in linear light.
fn linear(c: u32) -> f32 {
    let v = c as f32 / 255.0;
    if v <= 0.04045 {
        v / 12.92
    } else {
        ((v + 0.055) / 1.055).powf(2.4)
    }
}

fn encoded(v: f32) -> u32 {
    let s = if v <= 0.003_130_8 {
        v * 12.92
    } else {
        1.055 * v.powf(1.0 / 2.4) - 0.055
    };
    (s * 255.0 + 0.5) as u32
}

/// Source over destination, in linear light.
fn blend(src: u32, dst: u32) -> u32 {
    let a = (src >> 24) as f32 / 255.0;
    let mut out = 0xFFu32 << 24;
    for shift in [0, 8, 16] {
        let s = linear((src >> shift) & 0xFF);
        let d = linear((dst >> shift) & 0xFF);
        out |= encoded(s * a + d * (1.0 - a)) << shift;
    }
    out
}

/// How much of a pixel a rectangle with round corners covers.
fn coverage(r: Rect, radius: u32, x: i32, y: i32) -> u8 {
    let rad = radius as f32;
    let (px, py) = (x as f32 + 0.5, y as f32 + 0.5);
    let (x0, y0) = (r.x as f32, r.y as f32);
    let (x1, y1) = (x0 + r.w as f32, y0 + r.h as f32);
    let dx = (x0 + rad - px).max(px - (x1 - rad));
    let dy = (y0 + rad - py).max(py - (y1 - rad));
    let outside = (dx.max(0.0).powi(2) + dy.max(0.0).powi(2)).sqrt();
    let d = outside + dx.max(dy).min(0.0) - rad;
    ((0.5 - d).clamp(0.0, 1.0) * 255.0) as u8
}

/// The area that a shadow falls on.
fn bounds(r: Rect, s: Shadow) -> Rect {
    let m = (s.blur + s.spread) as i32;
    Rect {
        x: r.x - m,
        y: r.y - m + s.offset_y,
        w: r.w + 2 * m as u32,
        h: r.h + 2 * m as u32,
    }
}

/// The opacity of a shadow at a pixel: full inside, none beyond the blur.
fn alpha(r: Rect, s: Shadow, x: i32, y: i32) -> u8 {
    let cover = coverage(
        Rect {
            y: r.y + s.offset_y,
            ..r
        },
        0,
        x,
        y,
    );
    (cover as u32 * (s.color >> 24) / 255) as u8
}

const BLACK: u32 = 0xFF00_0000;
const WHITE: u32 = 0xFFFF_FFFF;

fn channel(argb: u32, shift: u32) -> u32 {
    (argb >> shift) & 0xFF
}

#[test]
fn composite_blends_toward_source() {
    // Half coverage of white over black, blended in LINEAR light: the
    // linear midpoint (0.5) maps back to sRGB ~188, not the naive 128 —
    // that brighter value is the whole point of gamma-correct blending.
    let mid = composite(BLACK, WHITE, 128, &blend);
    assert_eq!(channel(mid, 24), 0xFF, "result must stay opaque");
    for shift in [0, 8, 16] {
        let c = channel(mid, shift);
        assert!(
            (180..=195).contains(&c),
            "channel {shift} = {c}, want ~188 (linear)"
        );
    }
    // Extremes are exact.
    assert_eq!(composite(BLACK, WHITE, 0, &blend), BLACK);
    assert_eq!(composite(BLACK, WHITE, 255, &blend), WHITE);
}

#[test]
fn fill_rounded_rect_solid_center_clipped_corner() {
    let mut buf = vec![BLACK; 20 * 20];
    {
        let mut c = Canvas::new(&mut buf, 20, 20).unwrap();
        let r = Rect {
            x: 0,
            y: 0,
            w: 20,
            h: 20,
        };
        c.fill_rounded_rect(&r, &|x, y| coverage(r, 8, x, y), WHITE, &blend);
    }
    // Center is fully inside -> solid white.
    assert_eq!(buf[10 * 20 + 10], WHITE);
    // The extreme corner is outside the rounded corner -> untouched bg.
    assert_eq!(buf[0], BLACK);
}

#[test]
fn draw_shadow_darkens_core_leaves_far_pixels() {
    let mut buf = vec![WHITE; 30 * 30];
    let window = Rect {
        x: 10,
        y: 10,
        w: 10,
        h: 10,
    };
    {
        let mut c = Canvas::new(&mut buf, 30, 30).unwrap();
        let shadow = Shadow {
            offset_y: 0,
            blur: 4,
            spread: 0,
            color: 0x8000_0000,
        };
        c.draw_shadow(
            &bounds(window, shadow),
            &|x, y| alpha(window, shadow, x, y),
            shadow.color,
            &blend,
        );
    }
    // A pixel inside the shadow core is darkened below white.
    let core = buf[15 * 30 + 15];
    assert!(
        channel(core, 16) < 200,
        "core red {} not darkened",
        channel(core, 16)
    );
    // A far-corner pixel outside the shadow bounds is untouched.
    assert_eq!(buf[29 * 30 + 29], WHITE);
}

#[test]
fn blit_coverage_maps_alpha_to_ink() {
    let mut buf = vec![BLACK; 4];
    // Row of 4: full, none, full, mid.
    let cov = [255u8, 0, 255, 128];
    {
        let mut c = Canvas::new(&mut buf, 4, 1).unwrap();
        c.blit_coverage(0, 0, &cov, 4, 1, WHITE, &blend);
    }
    assert_eq!(buf[0], WHITE); // full coverage
    assert_eq!(buf[1], BLACK); // zero coverage keeps bg
    assert_eq!(buf[2], WHITE);
    assert!(
        (180..=195).contains(&channel(buf[3], 0)),
        "mid ~188 (linear)"
    );
}

#[test]
fn a_buffer_of_the_wrong_size_is_refused() {
    let mut buf = vec![0u32; 5];
    assert!(matches!(
        Canvas::new(&mut buf, 2, 3),
        Err(CanvasError::InvalidSize)
    ));
    let mut buf = vec![0u32; 6];
    let c = Canvas::new(&mut buf, 2, 3).unwrap();
    assert_eq!((c.width(), c.height()), (2, 3));
}

#[test]
fn painting_stays_inside() {
    let mut buf = vec![BLACK; 4 * 3];
    {
        let mut c = Canvas::new(&mut buf, 4, 3).unwrap();
        c.fill_rect(
            &Rect {
                x: -1,
                y: 1,
                w: 3,
                h: 9,
            },
            WHITE,
        );
        c.put_pixel(9, 9, WHITE);
        c.blend_pixel(-3, 0, WHITE, 255, &blend);
        c.blend_pixel(3, 0, WHITE, 255, &blend);
    }
    let white: Vec<usize> = (0..12).filter(|&i| buf[i] == WHITE).collect();
    assert_eq!(white, [3, 4, 5, 8, 9]);
}

#[test]
fn a_border_is_as_thick_as_asked() {
    let mut buf = vec![BLACK; 25];
    {
        let mut c = Canvas::new(&mut buf, 5, 5).unwrap();
        c.draw_rect_border(
            &Rect {
                x: 0,
                y: 0,
                w: 5,
                h: 5,
            },
            WHITE,
            1,
        );
    }
    assert_eq!(buf.iter().filter(|&&p| p == WHITE).count(), 16);
    assert_eq!(buf[12], BLACK);
}
