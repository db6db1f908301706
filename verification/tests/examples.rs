//! Short uses of the library.

use nexacore_ui::ai::{AiSyscallNumber, BackendKind, BackendStatusEvent};
use nexacore_ui::canvas::Canvas;
use nexacore_ui::chat::{ChatRole, ChatState};
use nexacore_ui::color::{CHARCOAL, MUTED, PETROL};
use nexacore_ui::display_protocol::{ClientRequest, CompositorEvent, Rect as WireRect};
use nexacore_ui::geometry::Rect;
use nexacore_ui::layout::{Direction, Size};
use nexacore_ui::status_bar::{BackendState, StatusBar};
use nexacore_ui::text::{draw_text, glyph_for, measure_text};
use nexacore_ui::wire::{decode_canonical, encode_canonical};

const CREAM: u32 = 0xFFF4_EBD0;
const BRICK: u32 = 0xFF9A_3B2E;

#[test]
fn colours_are_opaque_argb() {
    assert_eq!(PETROL >> 24, 0xFF);
    assert_eq!(PETROL & 0x00FF_FFFF, 0x0F4C5C);
    assert_eq!(MUTED, 0xFF6B_6B6B);
}

#[test]
fn sizes_and_directions() {
    let s = Size { w: 120, h: 32 };
    assert_eq!(s.w, 120);
    let d = Direction::Vertical;
    assert!(matches!(d, Direction::Vertical));
}

#[test]
fn syscall_numbers_are_the_kernels() {
    assert_eq!(AiSyscallNumber::Invoke.as_u32(), 80);
    assert_eq!(AiSyscallNumber::Transcribe.as_u32(), 84);
    assert_eq!(AiSyscallNumber::from_u32(82), Some(AiSyscallNumber::Embed));
    assert_eq!(AiSyscallNumber::from_u32(0), None);
    assert_eq!(AiSyscallNumber::from_u32(85), None);
}

#[test]
fn messages_survive_the_wire() {
    let event = BackendStatusEvent {
        backend: BackendKind::RemoteGpu,
        healthy: false,
        degraded: false,
    };
    let bytes = encode_canonical(&event).expect("encode");
    assert_eq!(decode_canonical::<BackendStatusEvent>(&bytes), Ok(event));
    let r = WireRect {
        x: 10,
        y: 20,
        w: 100,
        h: 50,
    };
    let bytes = encode_canonical(&r).expect("encode");
    let back: WireRect = decode_canonical(&bytes).expect("decode");
    assert_eq!((back.x, back.w), (10, 100));
    let req = ClientRequest::CreateSurface {
        width: 800,
        height: 600,
    };
    let bytes = encode_canonical(&req).expect("encode");
    assert!(matches!(
        decode_canonical::<ClientRequest>(&bytes),
        Ok(ClientRequest::CreateSurface {
            width: 800,
            height: 600
        })
    ));
    let ev = CompositorEvent::SurfaceCreated { surface_id: 42 };
    let bytes = encode_canonical(&ev).expect("encode");
    assert!(matches!(
        decode_canonical::<CompositorEvent>(&bytes),
        Ok(CompositorEvent::SurfaceCreated { surface_id: 42 })
    ));
}

#[test]
fn a_canvas_fills_and_frames() {
    let mut buf = vec![0u32; 16 * 16];
    assert!(Canvas::new(&mut buf, 16, 16).is_ok());
    let mut short = vec![0u32; 10];
    assert!(Canvas::new(&mut short, 16, 16).is_err());

    let mut buf = vec![0u32; 4 * 4];
    {
        let mut c = Canvas::new(&mut buf, 4, 4).unwrap();
        c.fill(CREAM);
    }
    assert!(buf.iter().all(|&p| p == CREAM));
    {
        let mut c = Canvas::new(&mut buf, 4, 4).unwrap();
        c.put_pixel(1, 2, BRICK);
        c.put_pixel(100, 100, BRICK);
    }
    assert_eq!(buf[9], BRICK);

    let mut buf = vec![CREAM; 8 * 8];
    {
        let mut c = Canvas::new(&mut buf, 8, 8).unwrap();
        let r = Rect {
            x: 0,
            y: 0,
            w: 4,
            h: 4,
        };
        c.fill_rect(&r, PETROL);
    }
    assert_eq!(buf[0], PETROL);
    assert_eq!(buf[4], CREAM);
    assert_eq!(buf[8 * 4], CREAM);

    let mut buf = vec![CREAM; 20 * 20];
    {
        let mut c = Canvas::new(&mut buf, 20, 20).unwrap();
        let r = Rect {
            x: 2,
            y: 2,
            w: 16,
            h: 16,
        };
        c.draw_rect_border(&r, PETROL, 2);
    }
    assert_eq!(buf[2 * 20 + 2], PETROL);
    assert_eq!(buf[10 * 20 + 10], CREAM);
}

#[test]
fn text_is_measured_and_drawn() {
    assert_eq!(measure_text("café", 1), (32, 8));
    assert_eq!(measure_text("hello", 2), (80, 16));
    assert_eq!(measure_text("", 1).0, 0);
    assert_eq!(measure_text("x🦀", 1).0, 16);
    assert_ne!(glyph_for('A'), [0u8; 8]);
    assert_ne!(glyph_for('é'), [0u8; 8]);

    let mut buf = vec![0u32; 64 * 16];
    let w = {
        let mut c = Canvas::new(&mut buf, 64, 16).unwrap();
        draw_text(&mut c, 0, 0, "HI", CHARCOAL, 1)
    };
    assert_eq!(w, 16);
    assert!(buf.iter().any(|&p| p == CHARCOAL));

    let mut buf = vec![0u32; 16 * 16];
    {
        let mut c = Canvas::new(&mut buf, 16, 16).unwrap();
        c.blit_glyph(0, 0, glyph_for('A'), CHARCOAL, 1);
    }
    assert!(buf.iter().any(|&p| p == CHARCOAL));
}

#[test]
fn a_chat_turn() {
    let mut state = ChatState::default();
    assert!(state.is_empty());
    assert!(ChatState::with_capacity(4).is_empty());
    state.push_user("Hello!");
    assert_eq!(state.len(), 1);
    state.begin_assistant();
    assert_eq!(state.messages()[1].role, ChatRole::Assistant);
    assert_eq!(state.messages()[1].text, "");
    state.append_chunk("Hi there!");
    state.finish_assistant(BackendState::Gpu, 37);
    assert_eq!(state.len(), 2);
    assert_eq!(state.messages()[0].role, ChatRole::User);
    assert_eq!(state.messages()[0].text, "Hello!");
    assert_eq!(state.messages()[1].badge, Some(BackendState::Gpu));
    assert_eq!(state.messages()[1].latency_ms, Some(37));
}

#[test]
fn the_bar_follows_the_backend() {
    let event = |backend, healthy, degraded| BackendStatusEvent {
        backend,
        healthy,
        degraded,
    };
    let mut bar = StatusBar::default();
    assert_eq!(bar.state(), BackendState::Unknown);
    let strip = Rect {
        x: 0,
        y: 0,
        w: 640,
        h: 28,
    };
    bar.layout(strip);
    assert_eq!(bar.rect(), strip);
    bar.apply(event(BackendKind::RemoteGpu, true, false));
    assert_eq!(bar.state(), BackendState::Gpu);
    bar.apply(event(BackendKind::LocalCpu, true, true));
    assert_eq!(bar.state(), BackendState::CpuDegraded);
    bar.apply(event(BackendKind::RemoteGpu, false, false));
    assert_eq!(bar.state(), BackendState::Gpu);
    bar.apply(event(BackendKind::RemoteGpu, true, true));
    assert_eq!(bar.state(), BackendState::CpuDegraded);
}
