//! The display messages and their encodings.

use nexacore_ui::display_channel::{keycode, DisplayInputEvent, MAX_EVENT_BYTES};
use nexacore_ui::display_protocol::{
    ClientRequest, CompositorEvent, Rect, MAX_CLIENT_REQUEST_BYTES, MAX_COMPOSITOR_EVENT_BYTES,
    MAX_DAMAGE_RECTS,
};
use nexacore_ui::wire::{decode_canonical, encode_canonical};

#[test]
fn key_event_round_trips() {
    let ev = DisplayInputEvent::Key {
        code: b'a',
        pressed: true,
    };
    let bytes = encode_canonical(&ev).expect("encode");
    assert!(bytes.len() <= MAX_EVENT_BYTES);
    let back: DisplayInputEvent = decode_canonical(&bytes).expect("decode");
    assert_eq!(back, ev);
}

#[test]
fn pointer_event_round_trips() {
    let ev = DisplayInputEvent::Pointer {
        x: 1024,
        y: 768,
        buttons: 0b101,
    };
    let bytes = encode_canonical(&ev).expect("encode");
    assert!(bytes.len() <= MAX_EVENT_BYTES);
    let back: DisplayInputEvent = decode_canonical(&bytes).expect("decode");
    assert_eq!(back, ev);
}

#[test]
fn max_event_bytes_bounds_worst_case() {
    // The widest variant: two u32 max values + full button mask.
    let ev = DisplayInputEvent::Pointer {
        x: u32::MAX,
        y: u32::MAX,
        buttons: 0xFF,
    };
    let bytes = encode_canonical(&ev).expect("encode");
    assert!(
        bytes.len() <= MAX_EVENT_BYTES,
        "worst-case event ({} B) must fit MAX_EVENT_BYTES ({})",
        bytes.len(),
        MAX_EVENT_BYTES
    );
}

#[test]
fn navigation_keycodes_are_distinct_from_printable_ascii() {
    // The private-range arrow codes must not collide with printable
    // ASCII (0x20..=0x7E).
    for code in [
        keycode::ARROW_UP,
        keycode::ARROW_DOWN,
        keycode::ARROW_LEFT,
        keycode::ARROW_RIGHT,
    ] {
        assert!(code >= 0x80, "navigation code {code:#x} must be >= 0x80");
    }
}

#[test]
fn rect_round_trip() {
    let r = Rect {
        x: -5,
        y: 10,
        w: 200,
        h: 150,
    };
    let bytes = encode_canonical(&r).expect("encode");
    let back: Rect = decode_canonical(&bytes).expect("decode");
    assert_eq!(back, r);
}

#[test]
fn client_request_create_surface_round_trip() {
    let req = ClientRequest::CreateSurface {
        width: 1920,
        height: 1080,
    };
    let bytes = encode_canonical(&req).expect("encode");
    assert!(bytes.len() <= MAX_CLIENT_REQUEST_BYTES);
    let back: ClientRequest = decode_canonical(&bytes).expect("decode");
    assert_eq!(back, req);
}

#[test]
fn client_request_commit_round_trip() {
    let req = ClientRequest::Commit {
        surface_id: 7,
        damage: vec![
            Rect {
                x: 0,
                y: 0,
                w: 100,
                h: 50
            },
            Rect {
                x: 50,
                y: 50,
                w: 200,
                h: 200
            },
        ],
    };
    let bytes = encode_canonical(&req).expect("encode");
    assert!(bytes.len() <= MAX_CLIENT_REQUEST_BYTES);
    let back: ClientRequest = decode_canonical(&bytes).expect("decode");
    assert_eq!(back, req);
}

#[test]
fn client_request_commit_max_damage_rects_fits_bound() {
    // Worst case: MAX_DAMAGE_RECTS rects with max values.
    let count = u32::try_from(MAX_DAMAGE_RECTS).expect("MAX_DAMAGE_RECTS fits u32");
    let rects: Vec<Rect> = (0..count)
        .map(|_| Rect {
            x: i32::MAX,
            y: i32::MIN,
            w: u32::MAX,
            h: u32::MAX,
        })
        .collect();
    let req = ClientRequest::Commit {
        surface_id: u32::MAX,
        damage: rects,
    };
    let bytes = encode_canonical(&req).expect("encode worst-case Commit");
    assert!(
        bytes.len() <= MAX_CLIENT_REQUEST_BYTES,
        "worst-case Commit ({} B) exceeds MAX_CLIENT_REQUEST_BYTES ({})",
        bytes.len(),
        MAX_CLIENT_REQUEST_BYTES
    );
}

#[test]
fn client_request_destroy_round_trip() {
    let req = ClientRequest::Destroy { surface_id: 3 };
    let bytes = encode_canonical(&req).expect("encode");
    let back: ClientRequest = decode_canonical(&bytes).expect("decode");
    assert_eq!(back, req);
}

#[test]
fn client_request_move_round_trip() {
    let req = ClientRequest::Move {
        surface_id: 1,
        x: -100,
        y: 200,
    };
    let bytes = encode_canonical(&req).expect("encode");
    let back: ClientRequest = decode_canonical(&bytes).expect("decode");
    assert_eq!(back, req);
}

#[test]
fn compositor_event_surface_created_round_trip() {
    let ev = CompositorEvent::SurfaceCreated { surface_id: 42 };
    let bytes = encode_canonical(&ev).expect("encode");
    assert!(bytes.len() <= MAX_COMPOSITOR_EVENT_BYTES);
    let back: CompositorEvent = decode_canonical(&bytes).expect("decode");
    assert_eq!(back, ev);
}

#[test]
fn compositor_event_input_key_round_trip() {
    let ev = CompositorEvent::Input(DisplayInputEvent::Key {
        code: b'\t',
        pressed: true,
    });
    let bytes = encode_canonical(&ev).expect("encode");
    assert!(bytes.len() <= MAX_COMPOSITOR_EVENT_BYTES);
    let back: CompositorEvent = decode_canonical(&bytes).expect("decode");
    assert_eq!(back, ev);
}

#[test]
fn compositor_event_input_pointer_round_trip() {
    let ev = CompositorEvent::Input(DisplayInputEvent::Pointer {
        x: u32::MAX,
        y: u32::MAX,
        buttons: 0xFF,
    });
    let bytes = encode_canonical(&ev).expect("encode");
    assert!(
        bytes.len() <= MAX_COMPOSITOR_EVENT_BYTES,
        "pointer event ({} B) exceeds MAX_COMPOSITOR_EVENT_BYTES ({})",
        bytes.len(),
        MAX_COMPOSITOR_EVENT_BYTES
    );
    let back: CompositorEvent = decode_canonical(&bytes).expect("decode");
    assert_eq!(back, ev);
}

#[test]
fn compositor_event_closed_round_trip() {
    let ev = CompositorEvent::Closed { surface_id: 99 };
    let bytes = encode_canonical(&ev).expect("encode");
    let back: CompositorEvent = decode_canonical(&bytes).expect("decode");
    assert_eq!(back, ev);
}

#[test]
fn compositor_event_configure_round_trip() {
    let ev = CompositorEvent::Configure {
        surface_id: 5,
        width: 1280,
        height: 720,
    };
    let bytes = encode_canonical(&ev).expect("encode");
    assert!(bytes.len() <= MAX_COMPOSITOR_EVENT_BYTES);
    let back: CompositorEvent = decode_canonical(&bytes).expect("decode");
    assert_eq!(back, ev);
}

#[test]
fn unknown_variants_are_rejected() {
    assert!(decode_canonical::<DisplayInputEvent>(&[2, 0, 0]).is_err());
    assert!(decode_canonical::<ClientRequest>(&[4, 0]).is_err());
    assert!(decode_canonical::<CompositorEvent>(&[4, 0]).is_err());
}

#[test]
fn event_bytes_are_exact() {
    let ev = CompositorEvent::Configure {
        surface_id: 5,
        width: 1280,
        height: 720,
    };
    assert_eq!(
        encode_canonical(&ev),
        Ok(vec![3, 5, 0x80, 0x0A, 0xD0, 0x05])
    );
    let req = ClientRequest::Move {
        surface_id: 1,
        x: -100,
        y: 200,
    };
    assert_eq!(
        encode_canonical(&req),
        Ok(vec![3, 1, 0xC7, 0x01, 0x90, 0x03])
    );
}
