//! Drag and drop.

use nexacore_ui::clipboard::{ClipboardContent, MIME_TEXT};
use nexacore_ui::dnd::{
    DndAction, DndSession, DndState, DragCursor, DragSource, DropTarget, GHOST_OFFSET,
};

fn source() -> DragSource {
    // Offers plain text and HTML; supports copy then move.
    let data = ClipboardContent::text("drag me").with_format("text/html", b"<b>drag me</b>");
    DragSource::new(data, &[DndAction::Copy, DndAction::Move])
}

#[test]
fn negotiation_picks_source_preferred_mutual_mime_and_action() {
    let mut s = DndSession::new();
    s.start_drag(source());
    // Target accepts HTML (not plain text) and only Move.
    s.enter_target(DropTarget::new(&["text/html"], &[DndAction::Move]));
    let m = s.negotiate().unwrap();
    assert_eq!(m.mime, "text/html");
    assert_eq!(m.action, DndAction::Move);
}

#[test]
fn drop_returns_bytes_and_completes() {
    let mut s = DndSession::new();
    s.start_drag(source());
    s.enter_target(DropTarget::new(
        &[MIME_TEXT, "text/html"],
        &[DndAction::Copy],
    ));
    let result = s.drop_on_target().unwrap();
    // Source prefers plain text (offered first) and the target accepts it.
    assert_eq!(result.mime, MIME_TEXT);
    assert_eq!(result.action, DndAction::Copy);
    assert_eq!(result.bytes, b"drag me");
    assert_eq!(s.state(), DndState::Dropped);
}

#[test]
fn no_mutual_mime_rejects_the_drop() {
    let mut s = DndSession::new();
    s.start_drag(source());
    s.enter_target(DropTarget::new(&["image/png"], &[DndAction::Copy]));
    assert_eq!(s.negotiate(), None);
    assert!(s.drop_on_target().is_none());
    assert_eq!(s.state(), DndState::Cancelled);
}

#[test]
fn no_mutual_action_rejects_the_drop() {
    let mut s = DndSession::new();
    s.start_drag(source()); // copy, move
    s.enter_target(DropTarget::new(&[MIME_TEXT], &[DndAction::Link]));
    assert_eq!(s.negotiate(), None); // no shared action
}

#[test]
fn motion_enter_and_leave_track_target() {
    let mut s = DndSession::new();
    s.start_drag(source());
    assert_eq!(s.state(), DndState::Dragging);
    s.enter_target(DropTarget::new(&[MIME_TEXT], &[DndAction::Copy]));
    assert_eq!(s.state(), DndState::OverTarget);
    assert!(s.negotiate().is_some());
    s.leave_target();
    assert_eq!(s.state(), DndState::Dragging);
    assert!(s.negotiate().is_none()); // no target → nothing to negotiate
}

#[test]
fn cancel_ends_the_drag() {
    let mut s = DndSession::new();
    s.start_drag(source());
    s.cancel();
    assert_eq!(s.state(), DndState::Cancelled);
    assert!(s.negotiate().is_none());
}

#[test]
fn cursor_reflects_state_and_negotiation() {
    let mut s = DndSession::new();
    assert_eq!(s.cursor(), None); // idle
    s.start_drag(source());
    assert_eq!(s.cursor(), Some(DragCursor::Grabbing)); // dragging, no target
    // Over a target that would move → Move cursor.
    s.enter_target(DropTarget::new(&["text/html"], &[DndAction::Move]));
    assert_eq!(s.cursor(), Some(DragCursor::Move));
    // Over a target that cannot accept → NoDrop.
    s.leave_target();
    s.enter_target(DropTarget::new(&["image/png"], &[DndAction::Copy]));
    assert_eq!(s.cursor(), Some(DragCursor::NoDrop));
}

#[test]
fn cursor_is_none_after_drop_or_cancel() {
    let mut s = DndSession::new();
    s.start_drag(source());
    s.enter_target(DropTarget::new(&[MIME_TEXT], &[DndAction::Copy]));
    s.drop_on_target();
    assert_eq!(s.cursor(), None); // dropped
    let mut s2 = DndSession::new();
    s2.start_drag(source());
    s2.cancel();
    assert_eq!(s2.cursor(), None); // cancelled
}

#[test]
fn feedback_offsets_ghost_and_highlights_accepting_target() {
    let mut s = DndSession::new();
    s.start_drag(source());
    // Dragging, no target: ghost trails the pointer, no highlight.
    let fb = s.feedback(100, 200).unwrap();
    assert_eq!(fb.cursor, DragCursor::Grabbing);
    assert_eq!(
        (fb.ghost_x, fb.ghost_y),
        (100 + GHOST_OFFSET, 200 + GHOST_OFFSET)
    );
    assert!(!fb.target_highlight);
    assert_eq!(fb.label, "drag me"); // text preview
    // Over an accepting target: highlight on.
    s.enter_target(DropTarget::new(&[MIME_TEXT], &[DndAction::Copy]));
    assert!(s.feedback(0, 0).unwrap().target_highlight);
    // Over a rejecting target: highlight off, NoDrop cursor.
    s.leave_target();
    s.enter_target(DropTarget::new(&["image/png"], &[DndAction::Copy]));
    let fb = s.feedback(0, 0).unwrap();
    assert!(!fb.target_highlight);
    assert_eq!(fb.cursor, DragCursor::NoDrop);
}

#[test]
fn feedback_is_none_without_a_drag() {
    assert!(DndSession::new().feedback(10, 10).is_none());
}

#[test]
fn preview_label_falls_back_to_primary_mime() {
    // A non-text payload: label is the primary MIME type.
    let data = ClipboardContent::new().with_format("image/png", &[1, 2, 3]);
    let src = DragSource::new(data, &[DndAction::Copy]);
    assert_eq!(src.preview_label(), "image/png");
}

#[test]
fn preview_label_truncates_long_text() {
    let long = "x".repeat(40);
    let data = ClipboardContent::text(&long);
    let src = DragSource::new(data, &[DndAction::Copy]);
    let label = src.preview_label();
    assert!(label.ends_with('…'));
    assert_eq!(label.chars().count(), 33); // 32 chars + ellipsis
}

#[test]
fn nothing_is_negotiated_once_the_drag_is_over() {
    let mut s = DndSession::new();
    s.start_drag(source());
    s.enter_target(DropTarget::new(&[MIME_TEXT], &[DndAction::Copy]));
    assert!(s.drop_on_target().is_some());
    assert_eq!(s.negotiate(), None);
    assert!(s.drop_on_target().is_none());
}

#[test]
fn the_ghost_stops_at_the_edge_of_the_number_range() {
    let mut s = DndSession::new();
    s.start_drag(source());
    let fb = s.feedback(i32::MAX, 0).unwrap();
    assert_eq!(fb.ghost_x, i32::MAX);
}
