//! The dock.

use nexacore_ui::canvas::Canvas;
use nexacore_ui::color::Palette;
use nexacore_ui::dock::Dock;
use nexacore_ui::geometry::Rect;
use nexacore_ui::paint::Effects;
use nexacore_ui::theme::{Shadow, Theme};

/// One channel of a colour in linear light.
fn linear(c: u32) -> f32 {
    let v = c as f32 / 255.0;
    if v <= 0.04045 {
        v / 12.92
    } else {
        ((v + 0.055) / 1.055).powf(2.4)
    }
}

fn encoded(v: f32) -> u32 {
    let s = if v <= 0.003_130_8 {
        v * 12.92
    } else {
        1.055 * v.powf(1.0 / 2.4) - 0.055
    };
    (s * 255.0 + 0.5) as u32
}

/// Source over destination, in linear light.
fn blend(src: u32, dst: u32) -> u32 {
    let a = (src >> 24) as f32 / 255.0;
    let mut out = 0xFFu32 << 24;
    for shift in [0, 8, 16] {
        let s = linear((src >> shift) & 0xFF);
        let d = linear((dst >> shift) & 0xFF);
        out |= encoded(s * a + d * (1.0 - a)) << shift;
    }
    out
}

/// How much of a pixel a rectangle with round corners covers.
fn coverage(r: Rect, radius: u32, x: i32, y: i32) -> u8 {
    let rad = radius as f32;
    let (px, py) = (x as f32 + 0.5, y as f32 + 0.5);
    let (x0, y0) = (r.x as f32, r.y as f32);
    let (x1, y1) = (x0 + r.w as f32, y0 + r.h as f32);
    let dx = (x0 + rad - px).max(px - (x1 - rad));
    let dy = (y0 + rad - py).max(py - (y1 - rad));
    let outside = (dx.max(0.0).powi(2) + dy.max(0.0).powi(2)).sqrt();
    let d = outside + dx.max(dy).min(0.0) - rad;
    ((0.5 - d).clamp(0.0, 1.0) * 255.0) as u8
}

/// The area that a shadow falls on.
fn bounds(r: Rect, s: Shadow) -> Rect {
    let m = (s.blur + s.spread) as i32;
    Rect {
        x: r.x - m,
        y: r.y - m + s.offset_y,
        w: r.w + 2 * m as u32,
        h: r.h + 2 * m as u32,
    }
}

/// The opacity of a shadow at a pixel: full inside, none beyond the blur.
fn alpha(r: Rect, s: Shadow, x: i32, y: i32) -> u8 {
    let cover = coverage(
        Rect {
            y: r.y + s.offset_y,
            ..r
        },
        0,
        x,
        y,
    );
    (cover as u32 * (s.color >> 24) / 255) as u8
}

/// The primitives of the compositor.
fn fx() -> Effects<
    impl Fn(Rect, u32, i32, i32) -> u8,
    impl Fn(Rect, Shadow) -> Rect,
    impl Fn(Rect, Shadow, i32, i32) -> u8,
    impl Fn(u32, u32) -> u32,
> {
    Effects {
        coverage,
        bounds,
        alpha,
        blend,
    }
}

fn theme() -> Theme {
    Theme {
        bg_canvas: 0xFFF4_EBD0,
        bg_surface: 0xFF0F_4C5C,
        text: 0xFF1F_2421,
        accent: 0xFF5B_8A72,
        success: 0xFF5B_8A72,
        border: 0xFF1F_2421,
        text_scale: 1,
        padding: 8,
        spacing: 8,
        radius: 6,
        elevation: Shadow {
            offset_y: 2,
            blur: 4,
            spread: 0,
            color: 0x4000_0000,
        },
    }
}

fn palette() -> Palette {
    Palette {
        cream_50: 0xFFFB_F8EE,
        cream_300: 0xFFF4_EBD0,
        charcoal_900: 0xFF14_171A,
        charcoal_800: 0xFF1F_2421,
        charcoal_500: 0xFF5A_5F5C,
        petrol_300: 0xFF5D_95A3,
        petrol_500: 0xFF0F_4C5C,
        petrol_700: 0xFF0A_3541,
        sage_500: 0xFF5B_8A72,
        brick_500: 0xFF9A_3B2E,
        status_warning: 0xFFD9_A441,
        surface_dark: 0xFF20_2628,
        text_on_dark: 0xFFF0_F0EA,
        text_on_dark_secondary: 0xFFA8_ADA9,
        focus_ring: 0xFF2E_7F93,
    }
}

const BG: u32 = 0xFF14_171A; // desktop canvas

#[test]
fn render_empty_dock_draws_nothing() {
    let dock = Dock::new();
    let mut buf = vec![BG; 200 * 80];
    {
        let mut c = Canvas::new(&mut buf, 200, 80).unwrap();
        dock.render(
            &mut c,
            &theme(),
                &palette(),
            &Rect {
                x: 0,
                y: 0,
                w: 200,
                h: 80,
            },
            &fx(),
        );
    }
    assert!(
        buf.iter().all(|&p| p == BG),
        "empty dock must paint nothing"
    );
}

#[test]
fn render_draws_panel_and_running_indicator() {
    let mut dock = Dock::new();
    dock.pin("org.nexacore.editor", "Text Editor");
    dock.mark_running("org.nexacore.editor", "Text Editor", 2);
    let mut buf = vec![BG; 200 * 80];
    {
        let mut c = Canvas::new(&mut buf, 200, 80).unwrap();
        dock.render(
            &mut c,
            &theme(),
                &palette(),
            &Rect {
                x: 0,
                y: 0,
                w: 200,
                h: 80,
            },
            &fx(),
        );
    }
    // The panel + tile paint over the background.
    assert!(buf.iter().any(|&p| p != BG), "dock rendered no pixels");
    // A petrol tile pixel exists (the app tile).
    assert!(
        buf.iter().any(|&p| p == palette().petrol_500),
        "no petrol tile drawn"
    );
    // The running indicator lays down a sage pixel.
    assert!(
        buf.iter().any(|&p| p == palette().sage_500),
        "no sage running indicator drawn"
    );
}

#[test]
fn pinned_apps_are_always_visible() {
    let mut dock = Dock::new();
    dock.pin("org.nexacore.editor", "Text Editor");
    assert_eq!(dock.visible().len(), 1);
    assert!(!dock.visible()[0].running);
    // Running toggles the indicator without changing visibility.
    dock.mark_running("org.nexacore.editor", "Text Editor", 2);
    assert_eq!(dock.visible()[0].windows, 2);
    assert!(dock.visible()[0].running);
    dock.mark_stopped("org.nexacore.editor");
    // Still visible (pinned), no longer running.
    assert_eq!(dock.visible().len(), 1);
    assert!(!dock.visible()[0].running);
}

#[test]
fn unpinned_running_app_appears_then_leaves_on_stop() {
    let mut dock = Dock::new();
    dock.mark_running("org.nexacore.calc", "Calculator", 1);
    assert_eq!(dock.visible().len(), 1);
    dock.mark_stopped("org.nexacore.calc");
    assert!(dock.visible().is_empty()); // not pinned → removed
}

#[test]
fn unpinning_a_running_app_keeps_it_until_stopped() {
    let mut dock = Dock::new();
    dock.pin("org.nexacore.term", "Terminal");
    dock.mark_running("org.nexacore.term", "Terminal", 1);
    dock.unpin("org.nexacore.term");
    // Still running → stays, now as an unpinned running item.
    let vis = dock.visible();
    assert_eq!(vis.len(), 1);
    assert!(vis[0].running && !vis[0].pinned);
    dock.mark_stopped("org.nexacore.term");
    assert!(dock.visible().is_empty());
}

#[test]
fn pinned_first_then_running_unpinned() {
    let mut dock = Dock::new();
    dock.mark_running("b.running", "B", 1); // unpinned running
    dock.pin("a.pinned", "A"); // pinned, added later
    let vis = dock.visible();
    assert_eq!(vis[0].id, "a.pinned"); // pinned first despite later insert
    assert_eq!(vis[1].id, "b.running");
}

#[test]
fn attention_flag_tracks() {
    let mut dock = Dock::new();
    dock.pin("x", "X");
    dock.set_attention("x", true);
    assert!(dock.visible()[0].attention);
    dock.set_attention("missing", true); // no-op, no panic
}

#[test]
fn pinned_apps_stand_in_pin_order_and_running_ones_in_launch_order() {
    let mut dock = Dock::new();
    dock.mark_running("r1", "R1", 1);
    dock.mark_running("p2", "P2", 1);
    dock.pin("p1", "P1");
    dock.mark_running("r2", "R2", 3);
    dock.pin("p2", "P2");
    let ids: Vec<&str> = dock.visible().iter().map(|a| a.id.as_str()).collect();
    assert_eq!(ids, ["p1", "p2", "r1", "r2"]);
    // Stopping and starting again goes to the end of the launch order.
    dock.mark_stopped("r1");
    dock.mark_running("r1", "R1", 1);
    let ids: Vec<&str> = dock.visible().iter().map(|a| a.id.as_str()).collect();
    assert_eq!(ids, ["p1", "p2", "r2", "r1"]);
}

#[test]
fn stop_undoes_run_and_unpin_undoes_pin() {
    let mut dock = Dock::new();
    dock.pin("a", "A");
    dock.mark_running("a", "A", 4);
    dock.mark_stopped("a");
    assert!(!dock.visible()[0].running);
    assert_eq!(dock.visible()[0].windows, 0);
    dock.unpin("a");
    assert!(dock.visible().is_empty());
}
