//! The decisions of the demo daemon.

use nexacore_ui::ai::{BackendKind, BackendStatusEvent};
use nexacore_ui::demo::{
    accept_mapping, accept_screen, after_lookup, after_poll, build_tree, bump, content_rect, copies, hex,
    mapped_len, DemoState, Lookup, Reaction, RowCopy, Screen, ScreenInfo, StatusWatch,
    AI_STATUS_LOOKUP_RETRIES, BAR_H, EMPTY_POLL_LOG_INTERVAL, EXIT_MAP_FAILED, EXIT_NO_SCREEN,
    MAX_INPUT_LEN, WIN_W,
};
use nexacore_ui::display_channel::{keycode, DisplayInputEvent};
use nexacore_ui::geometry::Rect;
use nexacore_ui::layout::Direction;
use nexacore_ui::status_bar::BackendState;
use nexacore_ui::widget::{Widget, WidgetId};
use nexacore_ui::wire::encode_canonical;

fn info() -> ScreenInfo {
    ScreenInfo {
        input_channel: 9,
        width: 1280,
        height: 800,
        stride: 1280,
        bytes_per_pixel: 4,
        len: 4_096_000,
    }
}

fn key(code: u8) -> Vec<u8> {
    encode_canonical(&DisplayInputEvent::Key {
        code,
        pressed: true,
    })
    .expect("encode")
}

#[test]
fn boot_checks_give_their_exit_codes() {
    assert_eq!(accept_screen(None), Err(EXIT_NO_SCREEN));
    assert_eq!(
        accept_screen(Some(ScreenInfo {
            bytes_per_pixel: 3,
            ..info()
        })),
        Err(EXIT_NO_SCREEN)
    );
    assert_eq!(accept_screen(Some(info())), Ok(info()));
    assert_eq!(accept_mapping(&info(), 0), Ok(()));
    assert_eq!(accept_mapping(&info(), 5), Err(EXIT_MAP_FAILED + 5));
    assert_eq!(accept_mapping(&info(), u32::MAX as u64), Err(u32::MAX));
    assert_eq!(
        accept_mapping(
            &ScreenInfo {
                stride: 0,
                ..info()
            },
            0
        ),
        Err(EXIT_NO_SCREEN)
    );
    assert_eq!(mapped_len(4096), 4096);
    assert_eq!(mapped_len(4097), 8192);
    assert_eq!(mapped_len(0), 0);
}

#[test]
fn lookup_gives_up_after_its_retries() {
    assert_eq!(after_lookup(0, 7, 0), Lookup::Found(7));
    let mut failures = 0;
    let mut tries = 0;
    loop {
        tries += 1;
        match after_lookup(failures, 0, 1) {
            Lookup::Retry(n) => failures = n,
            other => {
                assert_eq!(other, Lookup::GiveUp);
                break;
            }
        }
    }
    assert_eq!(tries, AI_STATUS_LOOKUP_RETRIES);
}

#[test]
fn polling_yields_only_when_idle() {
    assert_eq!(after_poll(5, true, false), (0, false, false));
    assert_eq!(after_poll(5, false, true), (0, false, false));
    assert_eq!(after_poll(5, false, false), (6, true, false));
    assert_eq!(
        after_poll(EMPTY_POLL_LOG_INTERVAL - 1, false, false),
        (0, true, true)
    );
}

#[test]
fn keys_edit_and_submit() {
    let mut s = DemoState::new();
    assert_eq!(s.input(), "");
    assert_eq!(s.status(), "type something, then Enter");
    assert_eq!(s.on_input(&key(b'h')), Reaction::Edited(1));
    assert_eq!(s.on_input(&key(b'i')), Reaction::Edited(2));
    assert_eq!(s.on_input(&key(keycode::ENTER)), Reaction::Submitted);
    assert_eq!(s.status(), "submitted: hi");
    assert_eq!(s.on_input(&key(keycode::BACKSPACE)), Reaction::Edited(1));
    assert_eq!(s.input(), "h");
    assert_eq!(s.on_input(&key(keycode::TAB)), Reaction::Idle(keycode::TAB));
    assert_eq!(s.on_input(&key(0x7F)), Reaction::Idle(0x7F));
    let release = encode_canonical(&DisplayInputEvent::Key {
        code: b'x',
        pressed: false,
    })
    .unwrap();
    assert_eq!(s.on_input(&release), Reaction::Released);
    let pointer = encode_canonical(&DisplayInputEvent::Pointer {
        x: 3,
        y: 4,
        buttons: 1,
    })
    .unwrap();
    assert_eq!(
        s.on_input(&pointer),
        Reaction::Pointer {
            x: 3,
            y: 4,
            buttons: 1
        }
    );
    assert_eq!(s.on_input(&[9, 9]), Reaction::Garbled(2));
    assert_eq!(s.input(), "h");
}

#[test]
fn the_field_is_bounded_and_backspace_on_nothing_is_harmless() {
    let mut s = DemoState::new();
    assert_eq!(s.press(keycode::BACKSPACE), Reaction::Edited(0));
    for _ in 0..40 {
        s.press(b'a');
    }
    assert_eq!(s.input().len(), MAX_INPUT_LEN);
    assert_eq!(s.press(b'b'), Reaction::Edited(MAX_INPUT_LEN));
}

#[test]
fn the_tree_shows_the_state() {
    let zero = Rect {
        x: 0,
        y: 0,
        w: 0,
        h: 0,
    };
    assert_eq!(
        build_tree("hé", "ok"),
        Widget::Container {
            direction: Direction::Vertical,
            children: vec![
                Widget::Label {
                    text: "NexaCore OS -- nexacore-ui demo".to_string(),
                    rect: zero,
                },
                Widget::TextInput {
                    id: WidgetId(1),
                    text: "hé".to_string(),
                    cursor: 2,
                    rect: zero,
                },
                Widget::Button {
                    id: WidgetId(2),
                    text: "Submit".to_string(),
                    rect: zero,
                },
                Widget::Label {
                    text: "ok".to_string(),
                    rect: zero,
                },
            ],
            rect: zero,
        }
    );
    let s = DemoState::new();
    assert_eq!(s.tree(), build_tree("", "type something, then Enter"));
}

#[test]
fn content_lies_below_the_bar() {
    assert_eq!(
        content_rect(700, 460, 8),
        Rect {
            x: 8,
            y: 42,
            w: 684,
            h: 410
        }
    );
    assert_eq!(content_rect(10, 20, 8).h, 0);
}

#[test]
fn status_messages_update_the_bar() {
    let mut w = StatusWatch::new();
    assert_eq!(
        w.bar().rect(),
        Rect {
            x: 0,
            y: 0,
            w: WIN_W,
            h: BAR_H
        }
    );
    let gpu = encode_canonical(&BackendStatusEvent {
        backend: BackendKind::RemoteGpu,
        healthy: true,
        degraded: false,
    })
    .unwrap();
    assert_eq!(w.on_status(&gpu), (true, Some(BackendState::Gpu)));
    assert_eq!(w.on_status(&gpu), (true, None));
    // A malformed message changes nothing.
    assert_eq!(w.on_status(&[7, 7, 7]), (false, None));
    assert_eq!(w.bar().state(), BackendState::Gpu);
}

#[test]
fn damage_is_copied_row_by_row_and_clipped() {
    let screen = Screen {
        width: 10,
        height: 4,
        stride: 16,
    };
    let d = Rect {
        x: 8,
        y: 2,
        w: 5,
        h: 9,
    };
    assert_eq!(
        copies(&d, &screen, 40),
        vec![
            RowCopy {
                back_start: 28,
                front_start: 40,
                count: 2
            },
            RowCopy {
                back_start: 38,
                front_start: 56,
                count: 2
            },
        ]
    );
    // Rows that the back buffer does not hold are left out.
    assert_eq!(copies(&d, &screen, 30).len(), 1);
    let off = Rect {
        x: 10,
        y: 0,
        w: 5,
        h: 5,
    };
    assert!(copies(&off, &screen, 40).is_empty());
}

#[test]
fn numbers_are_logged_in_hexadecimal() {
    assert_eq!(hex(0), "0x0000000000000000");
    assert_eq!(hex(0xDEAD_BEEF), "0x00000000deadbeef");
    assert_eq!(hex(u64::MAX), "0xffffffffffffffff");
}

#[test]
fn blocks_are_aligned_and_stay_in_the_heap() {
    assert_eq!(bump(0, 8, 10, 64), Some((0, 10)));
    assert_eq!(bump(10, 8, 10, 64), Some((16, 26)));
    assert_eq!(bump(26, 1, 38, 64), Some((26, 64)));
    assert_eq!(bump(26, 1, 39, 64), None);
    assert_eq!(bump(60, 16, 0, 64), Some((64, 64)));
    assert_eq!(bump(64, 16, usize::MAX, 64), None);
}
