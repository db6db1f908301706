//! Chat turns, history and rendering.

use nexacore_ui::chat::{floor_char_boundary, ChatRole, ChatState, MAX_MESSAGE_BYTES};
use nexacore_ui::status_bar::BackendState;

/// `push_user("hi")` then streaming assistant turn → 2 messages with
/// correct roles, text, badge, and latency.
#[test]
fn conversation_state_basic() {
    let mut state = ChatState::new();
    state.push_user("hi");
    state.begin_assistant();
    state.append_chunk("4");
    state.finish_assistant(BackendState::Gpu, 42);

    assert_eq!(state.len(), 2, "exactly 2 messages");

    let user = &state.messages()[0];
    assert_eq!(user.role, ChatRole::User);
    assert_eq!(user.text, "hi");
    assert_eq!(user.badge, None);
    assert_eq!(user.latency_ms, None);

    let asst = &state.messages()[1];
    assert_eq!(asst.role, ChatRole::Assistant);
    assert_eq!(asst.text, "4");
    assert_eq!(asst.badge, Some(BackendState::Gpu));
    assert_eq!(asst.latency_ms, Some(42));
}

/// Chunks are concatenated in order; finishing stamps the badge.
#[test]
fn incremental_chunks_concatenated() {
    let mut state = ChatState::new();
    state.begin_assistant();
    state.append_chunk("Hel");
    state.append_chunk("lo");

    // Text must be concatenated before finish.
    assert_eq!(state.messages()[0].text, "Hello");
    assert_eq!(state.messages()[0].badge, None, "badge not yet stamped");

    state.finish_assistant(BackendState::CpuDegraded, 99);
    assert_eq!(state.messages()[0].badge, Some(BackendState::CpuDegraded));
    assert_eq!(state.messages()[0].latency_ms, Some(99));
}

/// Turn 1 finishes with `Gpu`; turn 2 finishes with `CpuDegraded`.
/// Each message must retain its own badge independently.
#[test]
fn per_message_badge_across_backends() {
    let mut state = ChatState::new();

    // Turn 1: user asks, assistant answers via GPU.
    state.push_user("question one");
    state.begin_assistant();
    state.append_chunk("answer one");
    state.finish_assistant(BackendState::Gpu, 10);

    // Turn 2: user asks again; backend has failed over to CPU.
    state.push_user("question two");
    state.begin_assistant();
    state.append_chunk("answer two");
    state.finish_assistant(BackendState::CpuDegraded, 200);

    assert_eq!(state.len(), 4, "two user + two assistant turns");

    let msg0 = &state.messages()[1]; // first assistant turn
    assert_eq!(msg0.role, ChatRole::Assistant);
    assert_eq!(
        msg0.badge,
        Some(BackendState::Gpu),
        "first assistant turn must carry Gpu badge"
    );

    let msg1 = &state.messages()[3]; // second assistant turn
    assert_eq!(msg1.role, ChatRole::Assistant);
    assert_eq!(
        msg1.badge,
        Some(BackendState::CpuDegraded),
        "second assistant turn must carry CpuDegraded badge"
    );
}

/// With cap=4, pushing >4 turns keeps only the 4 newest (oldest evicted).
#[test]
fn bounded_history_evicts_oldest() {
    let mut state = ChatState::with_capacity(4);

    // Push 6 user turns.
    for i in 0u8..6 {
        state.push_user(format!("msg{i}").as_str());
    }

    assert!(
        state.len() <= 4,
        "len must not exceed cap ({})",
        state.len()
    );

    // The newest messages should be retained (msg2..msg5).
    let texts: Vec<&str> = state.messages().iter().map(|m| m.text.as_str()).collect();
    assert!(texts.contains(&"msg5"), "newest message must be retained");
    assert!(
        !texts.contains(&"msg0"),
        "oldest message must have been evicted"
    );
}

/// `render_lines` returns non-empty output after a couple of turns.
#[test]
fn render_lines_non_empty() {
    let mut state = ChatState::new();
    state.push_user("hi");
    state.begin_assistant();
    state.append_chunk("hello");
    state.finish_assistant(BackendState::Gpu, 5);

    let lines = state.render_lines(80, 100);
    assert!(
        !lines.is_empty(),
        "render_lines must produce at least one line"
    );
}

/// `render_lines(0, 10)` must not panic (cols==0 treated as 1).
#[test]
fn render_lines_cols_zero_no_panic() {
    let mut state = ChatState::new();
    state.push_user("test");
    // Must not panic.
    let _ = state.render_lines(0, 10);
}

/// The assistant line prefix reflects the GPU badge after a `Gpu` finish.
#[test]
fn render_lines_badge_reflected_in_prefix() {
    let mut state = ChatState::new();
    state.begin_assistant();
    state.append_chunk("response");
    state.finish_assistant(BackendState::Gpu, 42);

    let lines = state.render_lines(80, 100);
    let combined = lines.join("\n");
    assert!(
        combined.contains("[GPU"),
        "rendered output must contain '[GPU' for Gpu badge; got: {combined:?}"
    );
}

/// `render_lines` respects `max_lines`: returns the tail only.
#[test]
fn render_lines_respects_max_lines() {
    let mut state = ChatState::new();
    // Push 10 user messages → 10 lines minimum.
    for i in 0..10u8 {
        state.push_user(format!("msg{i}").as_str());
    }

    let lines = state.render_lines(80, 3);
    assert_eq!(lines.len(), 3, "must return exactly max_lines lines");
}

/// `render_lines` returns empty vec when `max_lines` == 0.
#[test]
fn render_lines_max_lines_zero() {
    let mut state = ChatState::new();
    state.push_user("hi");
    let lines = state.render_lines(80, 0);
    assert!(lines.is_empty());
}

/// Appending a chunk longer than `MAX_MESSAGE_BYTES` is truncated; no panic.
#[test]
fn append_chunk_cap_truncates_no_panic() {
    let mut state = ChatState::new();
    state.begin_assistant();

    // A single chunk larger than the cap.
    let huge = "A".repeat(MAX_MESSAGE_BYTES + 1000);
    state.append_chunk(&huge); // must not panic

    assert!(
        state.messages()[0].text.len() <= MAX_MESSAGE_BYTES,
        "text must not exceed MAX_MESSAGE_BYTES after large chunk"
    );
}

/// Once the cap is reached, further `append_chunk` calls are silently
/// ignored (no unbounded growth).
#[test]
fn append_chunk_cap_no_growth_after_full() {
    let mut state = ChatState::new();
    state.begin_assistant();

    // Fill to exactly the cap.
    let fill = "B".repeat(MAX_MESSAGE_BYTES);
    state.append_chunk(&fill);
    assert_eq!(state.messages()[0].text.len(), MAX_MESSAGE_BYTES);

    // More chunks should be ignored.
    state.append_chunk("extra");
    assert_eq!(
        state.messages()[0].text.len(),
        MAX_MESSAGE_BYTES,
        "length must not grow past cap"
    );
}

/// `begin_assistant` twice is a no-op the second time.
#[test]
fn begin_assistant_double_is_noop() {
    let mut state = ChatState::new();
    state.begin_assistant();
    state.append_chunk("first");
    state.begin_assistant(); // defensive second call — must not open a new turn
    state.append_chunk(" second");

    // Should still be a single assistant message.
    assert_eq!(state.len(), 1);
    assert_eq!(state.messages()[0].text, "first second");
}

/// `finish_assistant` with no open turn is a no-op.
#[test]
fn finish_assistant_no_open_is_noop() {
    let mut state = ChatState::new();
    // No open turn — must not panic.
    state.finish_assistant(BackendState::Gpu, 1);
    assert!(state.is_empty());
}

/// `append_chunk` with no open turn implicitly opens one.
#[test]
fn append_chunk_opens_turn_if_none() {
    let mut state = ChatState::new();
    // No begin_assistant — defensive implicit open.
    state.append_chunk("implicit");
    assert_eq!(state.len(), 1);
    assert_eq!(state.messages()[0].text, "implicit");
}

/// `floor_char_boundary` snaps to a valid UTF-8 boundary.
#[test]
fn floor_char_boundary_multibyte() {
    // "é" is 2 bytes (0xC3 0xA9).  Requesting index 1 should snap to 0.
    let s = "éàü";
    assert_eq!(floor_char_boundary(s, 0), 0);
    assert_eq!(
        floor_char_boundary(s, 1),
        0,
        "mid-codepoint should snap back"
    );
    assert_eq!(floor_char_boundary(s, 2), 2, "exact boundary is fine");
    assert_eq!(
        floor_char_boundary(s, 100),
        s.len(),
        "beyond end returns len"
    );
}

/// `render_lines` shows "[CPU" for a `CpuDegraded` turn.
#[test]
fn render_lines_cpu_badge() {
    let mut state = ChatState::new();
    state.begin_assistant();
    state.append_chunk("cpu answer");
    state.finish_assistant(BackendState::CpuDegraded, 300);

    let lines = state.render_lines(80, 100);
    let combined = lines.join("\n");
    assert!(
        combined.contains("[CPU"),
        "rendered output must contain '[CPU' for CpuDegraded; got: {combined:?}"
    );
}

/// `render_lines` shows "[.." for an `Unknown` badge.
#[test]
fn render_lines_unknown_badge() {
    let mut state = ChatState::new();
    state.begin_assistant();
    state.append_chunk("unknown answer");
    state.finish_assistant(BackendState::Unknown, 0);

    let lines = state.render_lines(80, 100);
    let combined = lines.join("\n");
    assert!(
        combined.contains("[.."),
        "rendered output must contain '[..' for Unknown; got: {combined:?}"
    );
}

/// `render_lines` includes latency in the first line of an assistant turn.
#[test]
fn render_lines_latency_in_first_line() {
    let mut state = ChatState::new();
    state.begin_assistant();
    state.append_chunk("answer");
    state.finish_assistant(BackendState::Gpu, 42);

    let lines = state.render_lines(80, 100);
    // The first (and only) line should contain "42ms".
    assert!(
        lines[0].contains("42ms"),
        "first assistant line must include latency; got: {:?}",
        lines[0]
    );
}

/// User lines are prefixed with `"> "`.
#[test]
fn render_lines_user_prefix() {
    let mut state = ChatState::new();
    state.push_user("hello");

    let lines = state.render_lines(80, 100);
    assert_eq!(lines.len(), 1);
    assert!(
        lines[0].starts_with("> "),
        "user line must start with '> '; got: {:?}",
        lines[0]
    );
}

/// Wrapping breaks on spaces (not mid-word) when a boundary fits the
/// budget, and continuation lines are indented rather than re-prefixed.
#[test]
fn render_lines_wraps_on_word_boundaries() {
    let mut state = ChatState::new();
    state.push_user("alpha bravo charlie");

    // cols=10, prefix "> " → 8-char budget: each word fits on its own line.
    let lines = state.render_lines(10, 100);
    assert_eq!(
        lines,
        vec![
            String::from("> alpha"),
            String::from("  bravo"),
            String::from("  charlie"),
        ],
        "words must stay intact and continuations indent; got: {lines:?}"
    );
}

/// A single token longer than the budget still hard-splits so wrapping
/// always makes progress (no infinite loop, no dropped text).
#[test]
fn render_lines_long_token_hard_splits() {
    let mut state = ChatState::new();
    state.push_user("abcdefghij"); // 10 chars, no spaces

    // cols=6, prefix "> " → 4-char budget for the first line.
    let lines = state.render_lines(6, 100);
    // Reassembling the content (minus prefixes/indents) yields the token.
    let joined: String = lines
        .iter()
        .map(|l| l.trim_start_matches(['>', ' ']))
        .collect();
    assert_eq!(joined, "abcdefghij", "no text lost; got: {lines:?}");
    assert!(lines.len() > 1, "must wrap across lines; got: {lines:?}");
}

#[test]
fn truncation_keeps_whole_characters() {
    let mut state = ChatState::new();
    state.begin_assistant();
    state.append_chunk(&"a".repeat(MAX_MESSAGE_BYTES - 1));
    // Two bytes do not fit in one.
    state.append_chunk("é");
    assert_eq!(state.messages()[0].text.len(), MAX_MESSAGE_BYTES - 1);
}

#[test]
fn lines_keep_to_their_width_and_lose_no_text() {
    let mut state = ChatState::new();
    state.push_user("the quick brown fox jumps over the lazy dog");
    let lines = state.render_lines(12, 100);
    for l in &lines {
        assert!(l.chars().count() <= 12, "{l:?}");
    }
    let words: Vec<String> = lines
        .iter()
        .flat_map(|l| l.trim_start_matches(['>', ' ']).split(' '))
        .map(String::from)
        .collect();
    assert_eq!(
        words,
        ["the", "quick", "brown", "fox", "jumps", "over", "the", "lazy", "dog"]
    );
}

#[test]
fn eviction_keeps_the_newest_turns_in_order() {
    let mut state = ChatState::with_capacity(3);
    for i in 0u8..5 {
        state.push_user(format!("m{i}").as_str());
    }
    let texts: Vec<&str> = state.messages().iter().map(|m| m.text.as_str()).collect();
    assert_eq!(texts, ["m2", "m3", "m4"]);
}

/// An unknown backend shows neither a name nor a latency; a known one shows both.
#[test]
fn header_of_an_unknown_backend_has_no_latency() {
    let mut state = ChatState::new();
    state.begin_assistant();
    state.append_chunk("unknown answer");
    state.finish_assistant(BackendState::Unknown, 0);
    assert_eq!(state.render_lines(80, 100), vec!["[..]", "  unknown answer"]);

    let mut gpu = ChatState::new();
    gpu.begin_assistant();
    gpu.append_chunk("a");
    assert_eq!(gpu.render_lines(80, 100)[0], "[..]");
    gpu.finish_assistant(BackendState::Gpu, 42);
    assert_eq!(gpu.render_lines(80, 100)[0], "[GPU 42ms]");
}
