//! Window title bars.

use nexacore_ui::canvas::Canvas;
use nexacore_ui::chrome::WindowChrome;
use nexacore_ui::color::Palette;
use nexacore_ui::geometry::Rect;
use nexacore_ui::paint::Effects;
use nexacore_ui::theme::{Shadow, Theme};

/// One channel of a colour in linear light.
fn linear(c: u32) -> f32 {
    let v = c as f32 / 255.0;
    if v <= 0.04045 {
        v / 12.92
    } else {
        ((v + 0.055) / 1.055).powf(2.4)
    }
}

fn encoded(v: f32) -> u32 {
    let s = if v <= 0.003_130_8 {
        v * 12.92
    } else {
        1.055 * v.powf(1.0 / 2.4) - 0.055
    };
    (s * 255.0 + 0.5) as u32
}

/// Source over destination, in linear light.
fn blend(src: u32, dst: u32) -> u32 {
    let a = (src >> 24) as f32 / 255.0;
    let mut out = 0xFFu32 << 24;
    for shift in [0, 8, 16] {
        let s = linear((src >> shift) & 0xFF);
        let d = linear((dst >> shift) & 0xFF);
        out |= encoded(s * a + d * (1.0 - a)) << shift;
    }
    out
}

/// How much of a pixel a rectangle with round corners covers.
fn coverage(r: Rect, radius: u32, x: i32, y: i32) -> u8 {
    let rad = radius as f32;
    let (px, py) = (x as f32 + 0.5, y as f32 + 0.5);
    let (x0, y0) = (r.x as f32, r.y as f32);
    let (x1, y1) = (x0 + r.w as f32, y0 + r.h as f32);
    let dx = (x0 + rad - px).max(px - (x1 - rad));
    let dy = (y0 + rad - py).max(py - (y1 - rad));
    let outside = (dx.max(0.0).powi(2) + dy.max(0.0).powi(2)).sqrt();
    let d = outside + dx.max(dy).min(0.0) - rad;
    ((0.5 - d).clamp(0.0, 1.0) * 255.0) as u8
}

/// The area that a shadow falls on.
fn bounds(r: Rect, s: Shadow) -> Rect {
    let m = (s.blur + s.spread) as i32;
    Rect {
        x: r.x - m,
        y: r.y - m + s.offset_y,
        w: r.w + 2 * m as u32,
        h: r.h + 2 * m as u32,
    }
}

/// The opacity of a shadow at a pixel: full inside, none beyond the blur.
fn alpha(r: Rect, s: Shadow, x: i32, y: i32) -> u8 {
    let cover = coverage(
        Rect {
            y: r.y + s.offset_y,
            ..r
        },
        0,
        x,
        y,
    );
    (cover as u32 * (s.color >> 24) / 255) as u8
}

/// The primitives of the compositor.
fn fx() -> Effects<
    impl Fn(Rect, u32, i32, i32) -> u8,
    impl Fn(Rect, Shadow) -> Rect,
    impl Fn(Rect, Shadow, i32, i32) -> u8,
    impl Fn(u32, u32) -> u32,
> {
    Effects {
        coverage,
        bounds,
        alpha,
        blend,
    }
}

fn theme() -> Theme {
    Theme {
        bg_canvas: 0xFFF4_EBD0,
        bg_surface: 0xFF0F_4C5C,
        text: 0xFF1F_2421,
        accent: 0xFF5B_8A72,
        success: 0xFF5B_8A72,
        border: 0xFF1F_2421,
        text_scale: 1,
        padding: 8,
        spacing: 8,
        radius: 6,
        elevation: Shadow {
            offset_y: 2,
            blur: 4,
            spread: 0,
            color: 0x4000_0000,
        },
    }
}

fn palette() -> Palette {
    Palette {
        cream_50: 0xFFFB_F8EE,
        cream_300: 0xFFF4_EBD0,
        charcoal_900: 0xFF14_171A,
        charcoal_800: 0xFF1F_2421,
        charcoal_500: 0xFF5A_5F5C,
        petrol_300: 0xFF5D_95A3,
        petrol_500: 0xFF0F_4C5C,
        petrol_700: 0xFF0A_3541,
        sage_500: 0xFF5B_8A72,
        brick_500: 0xFF9A_3B2E,
        status_warning: 0xFFD9_A441,
        surface_dark: 0xFF20_2628,
        text_on_dark: 0xFFF0_F0EA,
        text_on_dark_secondary: 0xFFA8_ADA9,
        focus_ring: 0xFF2E_7F93,
    }
}

const BG: u32 = 0xFF14_171A;

fn render_bar(focused: bool) -> Vec<u32> {
    let chrome = WindowChrome::new("Files", focused);
    let mut buf = vec![BG; 240 * 32];
    {
        let mut c = Canvas::new(&mut buf, 240, 32).unwrap();
        chrome.render(
            &mut c,
            &theme(),
                &palette(),
            &Rect {
                x: 0,
                y: 0,
                w: 240,
                h: 32,
            },
            &fx(),
        );
    }
    buf
}

#[test]
fn draws_traffic_light_controls() {
    let buf = render_bar(true);
    assert!(buf.iter().any(|&p| p == palette().brick_500), "no close dot");
    assert!(
        buf.iter().any(|&p| p == palette().status_warning),
        "no minimize dot"
    );
    assert!(
        buf.iter().any(|&p| p == palette().sage_500),
        "no maximize dot"
    );
}

#[test]
fn focus_state_changes_the_chrome() {
    let focused = render_bar(true);
    let unfocused = render_bar(false);
    // The focus accent (brick band) appears only when focused, so the two
    // renders differ.
    assert_ne!(focused, unfocused, "focus state must change the chrome");
}
