//! Keyboard shortcuts.

use nexacore_ui::shortcuts::{
    standard_actions, Chord, ChordMatcher, Key, KeyStroke, MatchResult, Modifiers, Preset, Scope,
    ShortcutError, ShortcutRegistry,
};

fn ctrl(c: char) -> Chord {
    Chord::single(KeyStroke::new(Modifiers::ctrl(), Key::char(c)))
}

fn registry_with(id: &str, scope: Scope, chord: Chord) -> ShortcutRegistry {
    let mut r = ShortcutRegistry::new();
    r.register(id, scope, "desc");
    r.bind(id, chord).unwrap();
    r
}

#[test]
fn register_bind_and_resolve() {
    let r = registry_with("edit.copy", Scope::Global, ctrl('c'));
    assert_eq!(r.len(), 1);
    assert_eq!(r.resolve(None, &ctrl('c')), Some(&"edit.copy".to_string()));
    assert_eq!(r.resolve(None, &ctrl('v')), None);
}

#[test]
fn bind_unknown_action_errors() {
    let mut r = ShortcutRegistry::new();
    assert_eq!(r.bind("nope", ctrl('c')), Err(ShortcutError::UnknownAction));
}

#[test]
fn case_insensitive_key_binding() {
    // 'C' and 'c' must bind to the same stroke.
    let r = registry_with("edit.copy", Scope::Global, ctrl('C'));
    assert_eq!(r.resolve(None, &ctrl('c')), Some(&"edit.copy".to_string()));
}

#[test]
fn rebinding_takes_effect_immediately() {
    let mut r = registry_with("edit.copy", Scope::Global, ctrl('c'));
    r.bind("edit.copy", ctrl('y')).unwrap();
    assert_eq!(r.resolve(None, &ctrl('c')), None);
    assert_eq!(r.resolve(None, &ctrl('y')), Some(&"edit.copy".to_string()));
}

#[test]
fn app_scope_shadows_global_on_same_chord() {
    let mut r = ShortcutRegistry::new();
    r.register("global.copy", Scope::Global, "g");
    r.register("term.copy", Scope::App("terminal".into()), "t");
    r.bind("global.copy", ctrl('c')).unwrap();
    r.bind("term.copy", ctrl('c')).unwrap();
    // In the terminal, the app binding wins; elsewhere the global one.
    assert_eq!(
        r.resolve(Some("terminal"), &ctrl('c')),
        Some(&"term.copy".to_string())
    );
    assert_eq!(
        r.resolve(Some("editor"), &ctrl('c')),
        Some(&"global.copy".to_string())
    );
    assert_eq!(
        r.resolve(None, &ctrl('c')),
        Some(&"global.copy".to_string())
    );
}

#[test]
fn conflicts_in_same_scope_are_detected() {
    let mut r = ShortcutRegistry::new();
    r.register("a", Scope::Global, "a");
    r.register("b", Scope::Global, "b");
    r.bind("a", ctrl('c')).unwrap();
    r.bind("b", ctrl('c')).unwrap();
    let conflicts = r.conflicts();
    assert_eq!(conflicts.len(), 1);
    assert_eq!(conflicts[0].actions, ["a", "b"]);
    assert_eq!(conflicts[0].chord, "Ctrl+C");
}

#[test]
fn global_and_app_on_same_chord_do_not_conflict() {
    let mut r = ShortcutRegistry::new();
    r.register("g", Scope::Global, "g");
    r.register("t", Scope::App("term".into()), "t");
    r.bind("g", ctrl('c')).unwrap();
    r.bind("t", ctrl('c')).unwrap();
    // Different scopes: app shadows global, not a conflict.
    assert!(r.conflicts().is_empty());
}

#[test]
fn would_conflict_and_try_rebind_reject_collision() {
    let mut r = ShortcutRegistry::new();
    r.register("a", Scope::Global, "a");
    r.register("b", Scope::Global, "b");
    r.bind("a", ctrl('c')).unwrap();
    // Rebinding b onto Ctrl+C collides with a.
    assert_eq!(r.try_rebind("b", "Ctrl+C"), Err(ShortcutError::Conflict));
    // b stays unbound (no silent change).
    assert!(r.binding("b").is_none());
    // A free chord succeeds.
    assert_eq!(r.try_rebind("b", "Ctrl+B"), Ok(()));
    assert_eq!(r.binding("b").unwrap().to_canonical(), "Ctrl+B");
}

#[test]
fn multi_step_chord_fires_only_after_full_sequence() {
    let mut r = ShortcutRegistry::new();
    r.register("file.save_all", Scope::Global, "Save all");
    // Ctrl+K Ctrl+S
    let chord = Chord::parse("Ctrl+K Ctrl+S").unwrap();
    r.bind("file.save_all", chord).unwrap();

    let mut m = ChordMatcher::new(&r, None);
    let k = KeyStroke::new(Modifiers::ctrl(), Key::char('k'));
    let s = KeyStroke::new(Modifiers::ctrl(), Key::char('s'));
    // First stroke: prefix of the bound chord → pending.
    assert_eq!(m.feed(k), MatchResult::Pending);
    // Second stroke completes it → fired.
    assert_eq!(m.feed(s), MatchResult::Fired("file.save_all".to_string()));
    // Buffer reset after firing.
    assert!(m.pending().is_empty());
}

#[test]
fn single_key_shortcut_fires_immediately() {
    let r = registry_with("edit.copy", Scope::Global, ctrl('c'));
    let mut m = ChordMatcher::new(&r, None);
    let c = KeyStroke::new(Modifiers::ctrl(), Key::char('c'));
    assert_eq!(m.feed(c), MatchResult::Fired("edit.copy".to_string()));
}

#[test]
fn unmatched_stroke_resets_and_retries() {
    // Ctrl+K is a prefix of Ctrl+K Ctrl+S; pressing Ctrl+K then Ctrl+C
    // (no Ctrl+K Ctrl+C binding, but Ctrl+C is bound) should fire Ctrl+C.
    let mut r = ShortcutRegistry::new();
    r.register("save_all", Scope::Global, "s");
    r.register("copy", Scope::Global, "c");
    r.bind("save_all", Chord::parse("Ctrl+K Ctrl+S").unwrap())
        .unwrap();
    r.bind("copy", ctrl('c')).unwrap();
    let mut m = ChordMatcher::new(&r, None);
    assert_eq!(
        m.feed(KeyStroke::new(Modifiers::ctrl(), Key::char('k'))),
        MatchResult::Pending
    );
    assert_eq!(
        m.feed(KeyStroke::new(Modifiers::ctrl(), Key::char('c'))),
        MatchResult::Fired("copy".to_string())
    );
}

#[test]
fn macos_preset_uses_meta_for_copy() {
    let r = Preset::MacOs.registry();
    assert_eq!(r.binding("edit.copy").unwrap().to_canonical(), "Meta+C");
    assert_eq!(r.binding("app.quit").unwrap().to_canonical(), "Meta+Q");
    // No conflicts in the shipped preset.
    assert!(
        r.conflicts().is_empty(),
        "preset conflicts: {:?}",
        r.conflicts()
    );
}

#[test]
fn windows_preset_uses_ctrl_for_copy() {
    let r = Preset::Windows.registry();
    assert_eq!(r.binding("edit.copy").unwrap().to_canonical(), "Ctrl+C");
    assert_eq!(r.binding("app.switch").unwrap().to_canonical(), "Alt+Tab");
    assert_eq!(r.binding("edit.redo").unwrap().to_canonical(), "Ctrl+Y");
    // window.close and app.quit both map to Alt+F4 → that IS a deliberate
    // same-scope collision; assert it is reported (honest accounting).
    let conflicts = r.conflicts();
    assert_eq!(conflicts.len(), 1);
    assert_eq!(conflicts[0].chord, "Alt+F4");
}

#[test]
fn overrides_round_trip_through_config_strings() {
    let mut r = ShortcutRegistry::new();
    r.register("edit.copy", Scope::Global, "Copy");
    r.register("file.save_all", Scope::Global, "Save all");
    r.bind("edit.copy", ctrl('c')).unwrap();
    r.bind("file.save_all", Chord::parse("Ctrl+K Ctrl+S").unwrap())
        .unwrap();

    let exported = r.export_overrides();
    assert!(exported.contains(&("shortcuts.edit.copy".to_string(), "Ctrl+C".to_string())));

    // A fresh registry with the same actions re-applies the saved strings.
    let mut restored = ShortcutRegistry::new();
    restored.register("edit.copy", Scope::Global, "Copy");
    restored.register("file.save_all", Scope::Global, "Save all");
    let applied = restored.apply_overrides(&exported);
    assert_eq!(applied, 2);
    assert_eq!(
        restored.binding("file.save_all").unwrap().to_canonical(),
        "Ctrl+K Ctrl+S"
    );
}

#[test]
fn apply_overrides_skips_unknown_and_malformed() {
    let mut r = ShortcutRegistry::new();
    r.register("edit.copy", Scope::Global, "Copy");
    let applied = r.apply_overrides(&[
        ("shortcuts.edit.copy".to_string(), "Ctrl+C".to_string()), // ok
        ("shortcuts.unknown".to_string(), "Ctrl+X".to_string()),   // unknown action → skip
        ("shortcuts.edit.copy".to_string(), "Ctrl++".to_string()), // malformed → skip
        ("not.a.shortcut".to_string(), "Ctrl+Z".to_string()),      // wrong namespace → skip
    ]);
    assert_eq!(applied, 1);
    assert_eq!(r.binding("edit.copy").unwrap().to_canonical(), "Ctrl+C");
}

#[test]
fn entries_describe_each_action_sorted() {
    let r = Preset::Windows.registry();
    let entries = r.entries();
    assert_eq!(entries.len(), standard_actions().len());
    // Sorted by id.
    for w in entries.windows(2) {
        assert!(w[0].id <= w[1].id);
    }
    let copy = entries.iter().find(|e| e.id == "edit.copy").unwrap();
    assert_eq!(copy.description, "Copy");
    assert_eq!(copy.chord.as_deref(), Some("Ctrl+C"));
}

#[test]
fn chord_string_round_trips() {
    // Inputs use the canonical modifier order (Ctrl, Alt, Shift, Meta).
    for s in [
        "Ctrl+C",
        "Shift+Meta+Z",
        "Ctrl+K Ctrl+S",
        "Alt+F4",
        "Ctrl+Up",
    ] {
        let chord = Chord::parse(s).unwrap();
        assert_eq!(chord.to_canonical(), s, "round-trip failed for {s}");
    }
}

#[test]
fn malformed_chord_strings_rejected() {
    for s in ["", "   ", "Ctrl+", "+C", "Ctrl+A+B", "F99"] {
        assert!(Chord::parse(s).is_err(), "should reject {s:?}");
    }
}

#[test]
fn a_longer_chord_waits_and_can_be_flushed() {
    let mut r = ShortcutRegistry::new();
    r.register("short", Scope::Global, "s");
    r.register("long", Scope::Global, "l");
    r.bind("short", ctrl('k')).unwrap();
    r.bind("long", Chord::parse("Ctrl+K Ctrl+S").unwrap())
        .unwrap();
    let mut m = ChordMatcher::new(&r, None);
    assert_eq!(
        m.feed(KeyStroke::new(Modifiers::ctrl(), Key::char('k'))),
        MatchResult::Pending
    );
    assert_eq!(m.flush(), Some("short".to_string()));
    assert_eq!(
        m.feed(KeyStroke::new(Modifiers::ctrl(), Key::char('z'))),
        MatchResult::NoMatch
    );
}

#[test]
fn unbinding_frees_the_chord() {
    let mut r = registry_with("edit.copy", Scope::Global, ctrl('c'));
    assert!(r.unbind("edit.copy"));
    assert!(!r.unbind("edit.copy"));
    assert_eq!(r.resolve(None, &ctrl('c')), None);
    assert_eq!(r.would_conflict("edit.copy", &ctrl('c')), None);
}

#[test]
fn letters_beyond_ascii_fold_their_case() {
    assert_eq!(Key::char('É'), Key::char('é'));
    let chord = ctrl('é');
    assert_eq!(chord.to_canonical(), "Ctrl+É");
    let read = Chord::parse("Ctrl+É").unwrap();
    assert_eq!(read.strokes(), chord.strokes());
}

/// Within a stroke the modifiers come first and nothing follows the key.
#[test]
fn modifiers_stand_before_the_key() {
    assert_eq!(Chord::parse("Tab+Ctrl"), Err(ShortcutError::Parse));
    assert_eq!(Chord::parse("Ctrl+A+Shift"), Err(ShortcutError::Parse));
    assert_eq!(Chord::parse("A+B"), Err(ShortcutError::Parse));
    assert_eq!(Chord::parse("Shift+Ctrl+Tab").unwrap().to_canonical(), "Ctrl+Shift+Tab");
}

/// Rebinding in a keymap without conflicts leaves one without conflicts.
#[test]
fn accepted_rebinds_leave_no_conflict() {
    let mut r = ShortcutRegistry::new();
    for id in ["a", "b", "c"] {
        r.register(id, Scope::Global, id);
    }
    r.bind("a", ctrl('a')).unwrap();
    r.bind("b", ctrl('b')).unwrap();
    r.bind("c", ctrl('c')).unwrap();
    assert!(r.conflicts().is_empty());
    assert_eq!(r.try_rebind("a", "Ctrl+B"), Err(ShortcutError::Conflict));
    assert_eq!(r.try_rebind("a", "B+Ctrl"), Err(ShortcutError::Parse));
    assert_eq!(r.try_rebind("z", "Ctrl+Z"), Err(ShortcutError::UnknownAction));
    assert_eq!(r.binding("a").unwrap(), &ctrl('a'));
    assert_eq!(r.try_rebind("a", "Ctrl+K Ctrl+B"), Ok(()));
    assert!(r.conflicts().is_empty());
    assert_eq!(r.try_rebind("b", "Ctrl+A"), Ok(()));
    assert!(r.conflicts().is_empty());
    assert_eq!(r.binding("c").unwrap(), &ctrl('c'));
}
