//! System-wide customizable keyboard shortcuts.
//!
//! A [`ShortcutRegistry`] maps rebindable actions (global or per-app) to key
//! [`Chord`]s, supports multi-step chords (e.g. `Ctrl+K Ctrl+S`), detects binding
//! conflicts, ships presets, persists overrides as plain strings, and exposes a
//! settings-panel view. A [`ChordMatcher`] turns keystrokes into fired actions.

pub mod chord;
pub mod preset;
pub mod registry;

pub use chord::{Chord, Key, KeyStroke, Modifiers, ShortcutError};
pub use preset::{standard_actions, Preset};
pub use registry::{
    ActionInfo, ChordMatcher, Conflict, MatchResult, Scope, ShortcutEntry, ShortcutRegistry,
};
