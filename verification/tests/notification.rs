//! The notification daemon.

use nexacore_ui::canvas::Canvas;
use nexacore_ui::color::Palette;
use nexacore_ui::geometry::Rect;
use nexacore_ui::notification::{
    Notification, NotificationAction, NotificationDaemon, NotificationEvent, NotificationRequest,
    Priority,
};
use nexacore_ui::paint::Effects;
use nexacore_ui::theme::{Shadow, Theme};

/// One channel of a colour in linear light.
fn linear(c: u32) -> f32 {
    let v = c as f32 / 255.0;
    if v <= 0.04045 {
        v / 12.92
    } else {
        ((v + 0.055) / 1.055).powf(2.4)
    }
}

fn encoded(v: f32) -> u32 {
    let s = if v <= 0.003_130_8 {
        v * 12.92
    } else {
        1.055 * v.powf(1.0 / 2.4) - 0.055
    };
    (s * 255.0 + 0.5) as u32
}

/// Source over destination, in linear light.
fn blend(src: u32, dst: u32) -> u32 {
    let a = (src >> 24) as f32 / 255.0;
    let mut out = 0xFFu32 << 24;
    for shift in [0, 8, 16] {
        let s = linear((src >> shift) & 0xFF);
        let d = linear((dst >> shift) & 0xFF);
        out |= encoded(s * a + d * (1.0 - a)) << shift;
    }
    out
}

/// How much of a pixel a rectangle with round corners covers.
fn coverage(r: Rect, radius: u32, x: i32, y: i32) -> u8 {
    let rad = radius as f32;
    let (px, py) = (x as f32 + 0.5, y as f32 + 0.5);
    let (x0, y0) = (r.x as f32, r.y as f32);
    let (x1, y1) = (x0 + r.w as f32, y0 + r.h as f32);
    let dx = (x0 + rad - px).max(px - (x1 - rad));
    let dy = (y0 + rad - py).max(py - (y1 - rad));
    let outside = (dx.max(0.0).powi(2) + dy.max(0.0).powi(2)).sqrt();
    let d = outside + dx.max(dy).min(0.0) - rad;
    ((0.5 - d).clamp(0.0, 1.0) * 255.0) as u8
}

/// The area that a shadow falls on.
fn bounds(r: Rect, s: Shadow) -> Rect {
    let m = (s.blur + s.spread) as i32;
    Rect {
        x: r.x - m,
        y: r.y - m + s.offset_y,
        w: r.w + 2 * m as u32,
        h: r.h + 2 * m as u32,
    }
}

/// The opacity of a shadow at a pixel: full inside, none beyond the blur.
fn alpha(r: Rect, s: Shadow, x: i32, y: i32) -> u8 {
    let cover = coverage(
        Rect {
            y: r.y + s.offset_y,
            ..r
        },
        0,
        x,
        y,
    );
    (cover as u32 * (s.color >> 24) / 255) as u8
}

/// The primitives of the compositor.
fn fx() -> Effects<
    impl Fn(Rect, u32, i32, i32) -> u8,
    impl Fn(Rect, Shadow) -> Rect,
    impl Fn(Rect, Shadow, i32, i32) -> u8,
    impl Fn(u32, u32) -> u32,
> {
    Effects {
        coverage,
        bounds,
        alpha,
        blend,
    }
}

fn theme() -> Theme {
    Theme {
        bg_canvas: 0xFFF4_EBD0,
        bg_surface: 0xFF0F_4C5C,
        text: 0xFF1F_2421,
        accent: 0xFF5B_8A72,
        success: 0xFF5B_8A72,
        border: 0xFF1F_2421,
        text_scale: 1,
        padding: 8,
        spacing: 8,
        radius: 6,
        elevation: Shadow {
            offset_y: 2,
            blur: 4,
            spread: 0,
            color: 0x4000_0000,
        },
    }
}

fn palette() -> Palette {
    Palette {
        cream_50: 0xFFFB_F8EE,
        cream_300: 0xFFF4_EBD0,
        charcoal_900: 0xFF14_171A,
        charcoal_800: 0xFF1F_2421,
        charcoal_500: 0xFF5A_5F5C,
        petrol_300: 0xFF5D_95A3,
        petrol_500: 0xFF0F_4C5C,
        petrol_700: 0xFF0A_3541,
        sage_500: 0xFF5B_8A72,
        brick_500: 0xFF9A_3B2E,
        status_warning: 0xFFD9_A441,
        surface_dark: 0xFF20_2628,
        text_on_dark: 0xFFF0_F0EA,
        text_on_dark_secondary: 0xFFA8_ADA9,
        focus_ring: 0xFF2E_7F93,
    }
}

fn note(id: u64, priority: Priority) -> Notification {
    Notification {
        id,
        app: String::from("test.app"),
        title: String::from("t"),
        body: String::from("b"),
        priority,
        actions: Vec::new(),
    }
}

#[test]
fn toast_render_draws_card_with_priority_accent() {
    const BG: u32 = 0xFF14_171A;
    let critical = note(1, Priority::Critical);
    let mut buf = vec![BG; 240 * 64];
    {
        let mut c = Canvas::new(&mut buf, 240, 64).unwrap();
        critical.render(
            &mut c,
            &theme(),
                &palette(),
            &Rect {
                x: 8,
                y: 8,
                w: 220,
                h: 48,
            },
            &fx(),
        );
    }
    // A cream card body and the brick critical-accent stripe are painted.
    assert!(buf.iter().any(|&p| p == palette().cream_50), "no card body");
    assert!(
        buf.iter().any(|&p| p == palette().brick_500),
        "no critical accent stripe"
    );
    // Priority drives the accent colour.
    assert_eq!(note(2, Priority::Low).accent(&palette()), palette().petrol_500);
    assert_eq!(note(3, Priority::High).accent(&palette()), palette().status_warning);
}

fn note_with_action(id: u64, action_key: &str) -> Notification {
    Notification {
        actions: vec![NotificationAction {
            key: String::from(action_key),
            label: String::from("Do it"),
        }],
        ..note(id, Priority::Normal)
    }
}

#[test]
fn post_orders_by_priority_then_fifo() {
    let mut d = NotificationDaemon::new(8);
    assert_eq!(
        d.handle(NotificationRequest::Post(note(1, Priority::Normal))),
        NotificationEvent::Posted(1)
    );
    assert_eq!(
        d.handle(NotificationRequest::Post(note(2, Priority::Low))),
        NotificationEvent::Posted(2)
    );
    assert_eq!(
        d.handle(NotificationRequest::Post(note(3, Priority::Critical))),
        NotificationEvent::Posted(3)
    );
    assert_eq!(
        d.handle(NotificationRequest::Post(note(4, Priority::Normal))),
        NotificationEvent::Posted(4)
    );
    // Critical first, then the two Normals in FIFO order, then Low.
    let ids: Vec<u64> = d.active().iter().map(|n| n.id).collect();
    assert_eq!(ids, vec![3, 1, 4, 2]);
    assert_eq!(d.next_toast().map(|n| n.id), Some(3));
}

#[test]
fn post_with_same_id_supersedes() {
    let mut d = NotificationDaemon::new(8);
    d.handle(NotificationRequest::Post(note(1, Priority::Low)));
    d.handle(NotificationRequest::Post(note(1, Priority::Critical)));
    assert_eq!(d.active().len(), 1);
    assert_eq!(d.active()[0].priority, Priority::Critical);
}

#[test]
fn replace_updates_in_place_or_reports_not_found() {
    let mut d = NotificationDaemon::new(8);
    d.handle(NotificationRequest::Post(note(1, Priority::Normal)));
    let mut updated = note(1, Priority::High);
    updated.title = String::from("updated");
    assert_eq!(
        d.handle(NotificationRequest::Replace(updated)),
        NotificationEvent::Replaced(1)
    );
    assert_eq!(d.active()[0].title, "updated");
    assert_eq!(d.active()[0].priority, Priority::High);
    assert_eq!(
        d.handle(NotificationRequest::Replace(note(99, Priority::Low))),
        NotificationEvent::NotFound(99)
    );
}

#[test]
fn dismiss_moves_to_history() {
    let mut d = NotificationDaemon::new(8);
    d.handle(NotificationRequest::Post(note(1, Priority::Normal)));
    assert_eq!(
        d.handle(NotificationRequest::Dismiss(1)),
        NotificationEvent::Dismissed(1)
    );
    assert!(d.active().is_empty());
    assert_eq!(d.history().len(), 1);
    assert_eq!(d.history()[0].notification.id, 1);
    assert_eq!(d.history()[0].resolved_action, None);
    assert_eq!(
        d.handle(NotificationRequest::Dismiss(1)),
        NotificationEvent::NotFound(1)
    );
}

#[test]
fn action_requires_known_key_and_records_it() {
    let mut d = NotificationDaemon::new(8);
    d.handle(NotificationRequest::Post(note_with_action(1, "open")));
    // Unknown key ⇒ NotFound, stays active.
    assert_eq!(
        d.handle(NotificationRequest::Action {
            id: 1,
            key: String::from("nope")
        }),
        NotificationEvent::NotFound(1)
    );
    assert_eq!(d.active().len(), 1);
    // Known key ⇒ invoked, moved to history with the action recorded.
    assert_eq!(
        d.handle(NotificationRequest::Action {
            id: 1,
            key: String::from("open")
        }),
        NotificationEvent::ActionInvoked {
            id: 1,
            key: String::from("open")
        }
    );
    assert!(d.active().is_empty());
    assert_eq!(d.history()[0].resolved_action.as_deref(), Some("open"));
}

#[test]
fn history_is_bounded() {
    let mut d = NotificationDaemon::new(2);
    for id in 1..=4 {
        d.handle(NotificationRequest::Post(note(id, Priority::Normal)));
        d.handle(NotificationRequest::Dismiss(id));
    }
    // Only the two most recent survive, oldest-first.
    let ids: Vec<u64> = d.history().iter().map(|h| h.notification.id).collect();
    assert_eq!(ids, vec![3, 4]);
}

#[test]
fn history_export_import_round_trips() {
    let mut d = NotificationDaemon::new(8);
    d.handle(NotificationRequest::Post(note(1, Priority::High)));
    d.handle(NotificationRequest::Dismiss(1));
    d.handle(NotificationRequest::Post(note_with_action(2, "open")));
    d.handle(NotificationRequest::Action {
        id: 2,
        key: String::from("open"),
    });
    let blob = d.export_history();

    let mut restored = NotificationDaemon::new(8);
    assert!(restored.import_history(&blob));
    assert_eq!(restored.history(), d.history());
    // The action key survived the round trip.
    assert_eq!(
        restored.history()[1].resolved_action.as_deref(),
        Some("open")
    );
}

#[test]
fn import_rejects_truncated_blob_and_keeps_history() {
    let mut d = NotificationDaemon::new(8);
    d.handle(NotificationRequest::Post(note(1, Priority::Normal)));
    d.handle(NotificationRequest::Dismiss(1));
    let blob = d.export_history();

    let mut other = NotificationDaemon::new(8);
    other.handle(NotificationRequest::Post(note(9, Priority::Low)));
    other.handle(NotificationRequest::Dismiss(9));
    // A truncated blob is rejected and the existing history is untouched.
    assert!(!other.import_history(&blob[..blob.len() - 1]));
    assert_eq!(other.history().len(), 1);
    assert_eq!(other.history()[0].notification.id, 9);
}

#[test]
fn import_reapplies_cap() {
    let mut src = NotificationDaemon::new(8);
    for id in 1..=4 {
        src.handle(NotificationRequest::Post(note(id, Priority::Normal)));
        src.handle(NotificationRequest::Dismiss(id));
    }
    let blob = src.export_history();
    // Importing into a cap-2 daemon keeps only the two newest.
    let mut small = NotificationDaemon::new(2);
    assert!(small.import_history(&blob));
    let ids: Vec<u64> = small.history().iter().map(|h| h.notification.id).collect();
    assert_eq!(ids, vec![3, 4]);
}

#[test]
fn a_replaced_notification_keeps_its_place() {
    let mut d = NotificationDaemon::new(8);
    for id in 1..=3 {
        d.handle(NotificationRequest::Post(note(id, Priority::Normal)));
    }
    d.handle(NotificationRequest::Replace(note(2, Priority::Normal)));
    let ids: Vec<u64> = d.active().iter().map(|n| n.id).collect();
    assert_eq!(ids, vec![1, 2, 3]);
    // A new priority moves it where the order by priority puts it.
    d.handle(NotificationRequest::Replace(note(2, Priority::Critical)));
    let ids: Vec<u64> = d.active().iter().map(|n| n.id).collect();
    assert_eq!(ids, vec![2, 1, 3]);
}

#[test]
fn history_bytes_are_exact() {
    let mut d = NotificationDaemon::new(8);
    d.handle(NotificationRequest::Post(note(1, Priority::Normal)));
    d.handle(NotificationRequest::Dismiss(1));
    let mut expected = vec![1, 0, 0, 0]; // one entry
    expected.extend([1, 0, 0, 0, 0, 0, 0, 0]); // id
    expected.push(1); // normal priority
    expected.extend([8, 0, 0, 0]);
    expected.extend(*b"test.app");
    expected.extend([1, 0, 0, 0, b't', 1, 0, 0, 0, b'b']);
    expected.extend([0, 0, 0, 0]); // no actions
    expected.push(0); // dismissed
    assert_eq!(d.export_history(), expected);
}

/// Every strict prefix of an export is refused.
#[test]
fn every_cut_of_an_export_is_refused() {
    let mut d = NotificationDaemon::new(8);
    for id in 1..3 {
        d.handle(NotificationRequest::Post(note(id, Priority::Normal)));
        d.handle(NotificationRequest::Dismiss(id));
    }
    let blob = d.export_history();
    let mut other = NotificationDaemon::new(8);
    for k in 0..blob.len() {
        assert!(!other.import_history(&blob[..k]));
        assert!(other.history().is_empty());
    }
    assert!(other.import_history(&blob));
    assert_eq!(other.history(), d.history());
}
