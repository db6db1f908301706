//! Editing text with the clipboard.

use nexacore_ui::clipboard::{ClipboardContent, ClipboardService, Selection};
use nexacore_ui::edit::TextBuffer;

#[test]
fn from_text_places_caret_at_end() {
    let buf = TextBuffer::from_text("hello");
    assert_eq!(buf.text(), "hello");
    assert_eq!(buf.cursor(), 5);
    assert!(buf.selection().is_none());
}

#[test]
fn select_range_is_order_independent() {
    let mut buf = TextBuffer::from_text("hello world");
    buf.select_range(6, 11);
    assert_eq!(buf.selected_text().as_deref(), Some("world"));
    buf.select_range(11, 6); // reversed
    assert_eq!(buf.selected_text().as_deref(), Some("world"));
}

#[test]
fn copy_offers_selection_without_mutating_buffer() {
    let mut svc = ClipboardService::new();
    let mut buf = TextBuffer::from_text("hello world");
    buf.select_range(0, 5);
    assert!(buf.copy(&mut svc, Selection::Clipboard));
    assert_eq!(svc.request_text(Selection::Clipboard), Some("hello"));
    assert_eq!(buf.text(), "hello world", "copy does not change the buffer");
}

#[test]
fn copy_without_selection_is_noop() {
    let mut svc = ClipboardService::new();
    let buf = TextBuffer::from_text("hello");
    assert!(!buf.copy(&mut svc, Selection::Clipboard));
    assert!(!svc.has_content(Selection::Clipboard));
}

#[test]
fn cut_copies_then_removes_selection() {
    let mut svc = ClipboardService::new();
    let mut buf = TextBuffer::from_text("hello world");
    buf.select_range(5, 11); // " world"
    assert!(buf.cut(&mut svc, Selection::Clipboard));
    assert_eq!(svc.request_text(Selection::Clipboard), Some(" world"));
    assert_eq!(buf.text(), "hello");
    assert_eq!(buf.cursor(), 5);
    assert!(buf.selection().is_none());
}

#[test]
fn paste_inserts_at_caret() {
    let mut svc = ClipboardService::new();
    svc.offer(Selection::Clipboard, ClipboardContent::text("XYZ"));
    let mut buf = TextBuffer::from_text("hello");
    buf.set_cursor(2);
    assert!(buf.paste(&svc, Selection::Clipboard));
    assert_eq!(buf.text(), "heXYZllo");
    assert_eq!(buf.cursor(), 5);
}

#[test]
fn paste_replaces_active_selection() {
    let mut svc = ClipboardService::new();
    svc.offer(Selection::Clipboard, ClipboardContent::text("brave"));
    let mut buf = TextBuffer::from_text("hello world");
    buf.select_range(0, 5); // "hello"
    assert!(buf.paste(&svc, Selection::Clipboard));
    assert_eq!(buf.text(), "brave world");
}

#[test]
fn paste_empty_clipboard_is_noop() {
    let svc = ClipboardService::new();
    let mut buf = TextBuffer::from_text("hi");
    assert!(!buf.paste(&svc, Selection::Clipboard));
    assert_eq!(buf.text(), "hi");
}

#[test]
fn copy_paste_roundtrip_across_primary_and_clipboard() {
    let mut svc = ClipboardService::new();
    let mut source = TextBuffer::from_text("copy me");
    source.select_range(0, 4); // "copy"
    source.copy(&mut svc, Selection::Primary);

    let mut dest = TextBuffer::from_text("");
    assert!(dest.paste(&svc, Selection::Primary));
    assert_eq!(dest.text(), "copy");
    // The explicit clipboard was never touched.
    assert!(!dest.paste(&svc, Selection::Clipboard));
}

#[test]
fn multibyte_selection_uses_char_indices() {
    let mut svc = ClipboardService::new();
    let mut buf = TextBuffer::from_text("café☕end");
    // chars: c a f é ☕ e n d  → select "é☕" = indices 3..5
    buf.select_range(3, 5);
    assert_eq!(buf.selected_text().as_deref(), Some("é☕"));
    assert!(buf.cut(&mut svc, Selection::Clipboard));
    assert_eq!(buf.text(), "cafend");
    assert_eq!(svc.request_text(Selection::Clipboard), Some("é☕"));
}

#[test]
fn insert_str_replaces_selection() {
    let mut buf = TextBuffer::from_text("hello");
    buf.select_range(0, 5);
    buf.insert_str("bye");
    assert_eq!(buf.text(), "bye");
    assert_eq!(buf.cursor(), 3);
}

#[test]
fn cutting_and_pasting_back_restores_the_text() {
    let mut svc = ClipboardService::new();
    let mut buf = TextBuffer::from_text("abcdef");
    buf.select_range(2, 4);
    assert!(buf.cut(&mut svc, Selection::Clipboard));
    assert_eq!(buf.text(), "abef");
    assert!(buf.paste(&svc, Selection::Clipboard));
    assert_eq!(buf.text(), "abcdef");
    assert_eq!(buf.cursor(), 4);
}

#[test]
fn the_caret_stays_inside_the_text() {
    let mut buf = TextBuffer::from_text("abc");
    buf.set_cursor(99);
    assert_eq!(buf.cursor(), 3);
    buf.select_range(2, 99);
    assert_eq!(buf.selection(), Some((2, 3)));
    assert!(buf.delete_selection());
    assert!(!buf.delete_selection());
    assert_eq!(buf.text(), "ab");
    assert!(!buf.is_empty());
    assert_eq!(buf.len(), 2);
}
