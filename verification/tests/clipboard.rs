//! Clipboard contents and selections.

use nexacore_ui::clipboard::{ClipboardContent, ClipboardService, Selection, MIME_TEXT};

#[test]
fn requests_the_offered_mime_and_misses_others() {
    let mut svc = ClipboardService::new();
    let content = ClipboardContent::text("hello").with_format("text/html", b"<b>hello</b>");
    svc.offer(Selection::Clipboard, content);

    assert_eq!(svc.request_text(Selection::Clipboard), Some("hello"));
    assert_eq!(
        svc.request(Selection::Clipboard, "text/html"),
        Some(&b"<b>hello</b>"[..])
    );
    // A format that was not offered is a miss.
    assert_eq!(svc.request(Selection::Clipboard, "image/png"), None);
}

#[test]
fn lists_offered_formats_in_order() {
    let content = ClipboardContent::text("x").with_format("text/html", b"<i>x</i>");
    assert_eq!(content.mime_types(), [MIME_TEXT, "text/html"]);
}

#[test]
fn add_format_replaces_same_mime() {
    let mut c = ClipboardContent::text("one");
    c.add_format(MIME_TEXT, b"two");
    assert_eq!(c.as_text(), Some("two"));
    assert_eq!(c.mime_types().len(), 1); // no duplicate MIME entry
}

#[test]
fn clipboard_and_primary_are_independent() {
    let mut svc = ClipboardService::new();
    svc.offer(Selection::Clipboard, ClipboardContent::text("clip"));
    svc.offer(Selection::Primary, ClipboardContent::text("prim"));
    assert_eq!(svc.request_text(Selection::Clipboard), Some("clip"));
    assert_eq!(svc.request_text(Selection::Primary), Some("prim"));
    // Clearing one leaves the other intact.
    svc.clear(Selection::Primary);
    assert!(!svc.has_content(Selection::Primary));
    assert!(svc.has_content(Selection::Clipboard));
    assert!(svc.request_text(Selection::Primary).is_none());
}

#[test]
fn each_offer_bumps_the_serial() {
    let mut svc = ClipboardService::new();
    assert_eq!(svc.current_serial(), 0);
    let s1 = svc.offer(Selection::Clipboard, ClipboardContent::text("a"));
    let s2 = svc.offer(Selection::Clipboard, ClipboardContent::text("b"));
    assert_eq!(s1, 1);
    assert_eq!(s2, 2);
    // The newest offer replaced the previous content.
    assert_eq!(svc.request_text(Selection::Clipboard), Some("b"));
}

#[test]
fn empty_selection_reports_no_formats() {
    let svc = ClipboardService::new();
    assert!(svc.formats(Selection::Clipboard).is_empty());
    assert!(!svc.has_content(Selection::Clipboard));
    assert_eq!(svc.request_text(Selection::Clipboard), None);
}

#[test]
fn bytes_that_are_no_text_have_no_text_form() {
    let c = ClipboardContent::new().with_format(MIME_TEXT, &[0xFF, 0xFE]);
    assert_eq!(c.as_text(), None);
    assert_eq!(c.get(MIME_TEXT), Some(&[0xFFu8, 0xFE][..]));
    assert!(ClipboardContent::new().is_empty());
    let round = ClipboardContent::text("né");
    assert_eq!(round.as_text(), Some("né"));
}
