//! Cursor sprites and animations.

use nexacore_ui::cursor::{AnimatedCursor, Cursor, CursorFrame};

fn solid(w: u32, h: u32, hx: u32, hy: u32, color: u32) -> Cursor {
    Cursor::new(w, h, hx, hy, vec![color; (w * h) as usize]).unwrap()
}

#[test]
fn cursor_validates_length_and_hotspot() {
    assert!(Cursor::new(2, 2, 0, 0, vec![0; 4]).is_some());
    assert!(Cursor::new(2, 2, 0, 0, vec![0; 3]).is_none()); // wrong length
    assert!(Cursor::new(2, 2, 2, 0, vec![0; 4]).is_none()); // hotspot x oob
    assert!(Cursor::new(0, 2, 0, 0, vec![]).is_none()); // zero dim
}

#[test]
fn cursor_pixel_access() {
    let pixels = vec![
        0xFF_00_00_00u32,
        0xFF_11_11_11,
        0xFF_22_22_22,
        0xFF_33_33_33,
    ];
    let c = Cursor::new(2, 2, 1, 1, pixels).unwrap();
    assert_eq!(c.pixel(0, 0), Some(0xFF_00_00_00));
    assert_eq!(c.pixel(1, 1), Some(0xFF_33_33_33));
    assert_eq!(c.pixel(2, 0), None);
    assert_eq!(c.hotspot_x(), 1);
    assert_eq!(c.hotspot_y(), 1);
}

#[test]
fn animated_cursor_rejects_empty_and_zero_duration() {
    assert!(AnimatedCursor::new(vec![]).is_none());
    let bad = vec![CursorFrame {
        cursor: solid(1, 1, 0, 0, 0xFF_FF_FF_FF),
        duration_ms: 0,
    }];
    assert!(AnimatedCursor::new(bad).is_none());
}

#[test]
fn animated_cursor_frame_at_loops() {
    let a = solid(1, 1, 0, 0, 0xFF_AA_00_00);
    let b = solid(1, 1, 0, 0, 0xFF_00_BB_00);
    let anim = AnimatedCursor::new(vec![
        CursorFrame {
            cursor: a.clone(),
            duration_ms: 100,
        },
        CursorFrame {
            cursor: b.clone(),
            duration_ms: 200,
        },
    ])
    .unwrap();
    assert_eq!(anim.total_duration_ms(), 300);
    assert_eq!(anim.frame_count(), 2);
    // Within frame A.
    assert_eq!(anim.frame_at(0), &a);
    assert_eq!(anim.frame_at(99), &a);
    // Within frame B.
    assert_eq!(anim.frame_at(100), &b);
    assert_eq!(anim.frame_at(299), &b);
    // Loops back to A.
    assert_eq!(anim.frame_at(300), &a);
    assert_eq!(anim.frame_at(401), &b);
}

#[test]
fn an_animation_loops_for_ever() {
    let anim = AnimatedCursor::new(vec![
        CursorFrame {
            cursor: solid(1, 1, 0, 0, 1),
            duration_ms: 7,
        },
        CursorFrame {
            cursor: solid(1, 1, 0, 0, 2),
            duration_ms: 5,
        },
    ])
    .unwrap();
    for t in 0..40u32 {
        assert_eq!(anim.frame_at(t), anim.frame_at(t + 12));
    }
    assert_eq!(anim.frame_at(6).pixel(0, 0), Some(1));
    assert_eq!(anim.frame_at(7).pixel(0, 0), Some(2));
}
