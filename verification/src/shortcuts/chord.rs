//! Keys, modifiers, keystrokes, and chords with their canonical text.

use vstd::prelude::*;

use crate::strings::{
    find_from, from_range, parse_digits, push_decimal, skip_whitespace, str_eq, to_chars,
    to_lowercase, to_uppercase, word_end,
};

verus! {

/// The modifier keys held during a keystroke.
#[derive(Clone, Copy, Debug, PartialEq, Eq, Hash, PartialOrd, Ord, Structural)]
pub struct Modifiers {
    /// Control.
    pub ctrl: bool,
    /// Alt / Option.
    pub alt: bool,
    /// Shift.
    pub shift: bool,
    /// Meta / Command / Super.
    pub meta: bool,
}

/// No modifiers held.
pub open spec fn no_mods() -> Modifiers {
    Modifiers { ctrl: false, alt: false, shift: false, meta: false }
}

impl Default for Modifiers {
    fn default() -> (r: Self)
        ensures
            r == no_mods(),
    {
        Modifiers { ctrl: false, alt: false, shift: false, meta: false }
    }
}

impl Modifiers {
    /// No modifiers held.
    pub fn none() -> (r: Self)
        ensures
            r == no_mods(),
    {
        Modifiers { ctrl: false, alt: false, shift: false, meta: false }
    }

    /// Only Control.
    pub fn ctrl() -> (r: Self)
        ensures
            r == (Modifiers { ctrl: true, ..no_mods() }),
    {
        Modifiers { ctrl: true, alt: false, shift: false, meta: false }
    }

    /// Only Meta (Command / Super).
    pub fn meta() -> (r: Self)
        ensures
            r == (Modifiers { meta: true, ..no_mods() }),
    {
        Modifiers { ctrl: false, alt: false, shift: false, meta: true }
    }

    /// Adds Shift to this modifier set (builder style).
    pub fn with_shift(self) -> (r: Self)
        ensures
            r == (Modifiers { shift: true, ..self }),
    {
        Modifiers { ctrl: self.ctrl, alt: self.alt, shift: true, meta: self.meta }
    }

    /// Adds Alt to this modifier set (builder style).
    pub fn with_alt(self) -> (r: Self)
        ensures
            r == (Modifiers { alt: true, ..self }),
    {
        Modifiers { ctrl: self.ctrl, alt: true, shift: self.shift, meta: self.meta }
    }

    /// Whether no modifier is held.
    pub fn is_empty(self) -> (r: bool)
        ensures
            r == (self == no_mods()),
    {
        !(self.ctrl || self.alt || self.shift || self.meta)
    }
}

/// A single key (the non-modifier part of a keystroke).
#[derive(Clone, Copy, Debug, PartialEq, Eq, Hash, PartialOrd, Ord, Structural)]
#[non_exhaustive]
pub enum Key {
    /// A character key, stored lower-cased so `A` and `a` bind identically.
    Char(char),
    /// Return / Enter.
    Enter,
    /// Tab.
    Tab,
    /// Space bar.
    Space,
    /// Escape.
    Escape,
    /// Backspace.
    Backspace,
    /// Delete (forward delete).
    Delete,
    /// Up arrow.
    Up,
    /// Down arrow.
    Down,
    /// Left arrow.
    Left,
    /// Right arrow.
    Right,
    /// Home.
    Home,
    /// End.
    End,
    /// A function key `F1..=F24`.
    Function(u8),
}

impl Key {
    /// A character key, normalized to lower case. Of a character whose lower case takes several
    /// characters, the first is kept.
    pub fn char(c: char) -> (r: Self)
        ensures
            r == Key::Char(crate::strings::lowercase(c)[0]),
            c as u32 <= 0x7f ==> r == Key::Char(crate::strings::ascii_lower(c)),
    {
        let v = to_lowercase(c);
        Key::Char(v[0])
    }
}

/// One press: a [`Key`] plus the [`Modifiers`] held with it.
#[derive(Clone, Copy, Debug, PartialEq, Eq, Hash, PartialOrd, Ord, Structural)]
pub struct KeyStroke {
    /// Modifiers held.
    pub mods: Modifiers,
    /// The key pressed.
    pub key: Key,
}

impl KeyStroke {
    /// A keystroke from `mods` + `key`.
    pub fn new(mods: Modifiers, key: Key) -> (r: Self)
        ensures
            r == (KeyStroke { mods, key }),
    {
        KeyStroke { mods, key }
    }
}

/// An error from the shortcut subsystem.
#[derive(Clone, Copy, Debug, PartialEq, Eq, Structural)]
pub enum ShortcutError {
    /// The action id is not registered.
    UnknownAction,
    /// A chord string could not be parsed.
    Parse,
    /// The requested binding conflicts with another action in the same scope.
    Conflict,
}

// ---------------------------------------------------------------------------
// Canonical text
// ---------------------------------------------------------------------------

/// The text of a key.
pub open spec fn key_text(key: Key) -> Seq<char> {
    match key {
        Key::Char(c) => crate::strings::uppercase(c),
        Key::Enter => "Enter"@,
        Key::Tab => "Tab"@,
        Key::Space => "Space"@,
        Key::Escape => "Escape"@,
        Key::Backspace => "Backspace"@,
        Key::Delete => "Delete"@,
        Key::Up => "Up"@,
        Key::Down => "Down"@,
        Key::Left => "Left"@,
        Key::Right => "Right"@,
        Key::Home => "Home"@,
        Key::End => "End"@,
        Key::Function(n) => "F"@ + crate::strings::decimal(n as nat),
    }
}

/// `text` if the modifier is held, else nothing.
pub open spec fn held(on: bool, text: Seq<char>) -> Seq<char> {
    if on {
        text
    } else {
        Seq::empty()
    }
}

/// The text of the modifiers, each with its plus sign.
pub open spec fn mods_text(m: Modifiers) -> Seq<char> {
    held(m.ctrl, "Ctrl+"@) + held(m.alt, "Alt+"@) + held(m.shift, "Shift+"@) + held(
        m.meta,
        "Meta+"@,
    )
}

/// The text of a keystroke.
pub open spec fn stroke_text(s: KeyStroke) -> Seq<char> {
    mods_text(s.mods) + key_text(s.key)
}

/// The text of a chord: its keystrokes with one space between them.
pub open spec fn chord_text(s: Seq<KeyStroke>) -> Seq<char>
    decreases s.len(),
{
    if s.len() == 0 {
        Seq::empty()
    } else if s.len() == 1 {
        stroke_text(s[0])
    } else {
        chord_text(s.drop_last()).push(' ') + stroke_text(s.last())
    }
}

/// The number of a function key.
pub open spec fn function_number(s: Seq<char>) -> Option<u8> {
    match crate::strings::read_decimal(s) {
        Some(n) => if 1 <= n <= 24 {
            Some(n as u8)
        } else {
            None
        },
        None => None,
    }
}

/// The key that a name stands for.
pub open spec fn named_key(t: Seq<char>) -> Option<Key> {
    if t == "Enter"@ || t == "Return"@ {
        Some(Key::Enter)
    } else if t == "Tab"@ {
        Some(Key::Tab)
    } else if t == "Space"@ {
        Some(Key::Space)
    } else if t == "Escape"@ || t == "Esc"@ {
        Some(Key::Escape)
    } else if t == "Backspace"@ {
        Some(Key::Backspace)
    } else if t == "Delete"@ || t == "Del"@ {
        Some(Key::Delete)
    } else if t == "Up"@ {
        Some(Key::Up)
    } else if t == "Down"@ {
        Some(Key::Down)
    } else if t == "Left"@ {
        Some(Key::Left)
    } else if t == "Right"@ {
        Some(Key::Right)
    } else if t == "Home"@ {
        Some(Key::Home)
    } else if t == "End"@ {
        Some(Key::End)
    } else {
        None
    }
}

/// The key that a text stands for: a name, a function key, or a single character.
pub open spec fn read_key(t: Seq<char>) -> Option<Key> {
    if named_key(t) is Some {
        named_key(t)
    } else if t.len() > 0 && t[0] == 'F' && function_number(t.drop_first()) is Some {
        Some(Key::Function(function_number(t.drop_first())->0))
    } else if t.len() == 1 {
        Some(Key::Char(crate::strings::lowercase(t[0])[0]))
    } else {
        None
    }
}

/// The modifiers with one more, if a text names one.
pub open spec fn read_modifier(t: Seq<char>, m: Modifiers) -> Option<Modifiers> {
    if t == "Ctrl"@ || t == "Control"@ {
        Some(Modifiers { ctrl: true, ..m })
    } else if t == "Alt"@ || t == "Option"@ {
        Some(Modifiers { alt: true, ..m })
    } else if t == "Shift"@ {
        Some(Modifiers { shift: true, ..m })
    } else if t == "Meta"@ || t == "Cmd"@ || t == "Command"@ || t == "Super"@ {
        Some(Modifiers { meta: true, ..m })
    } else {
        None
    }
}

/// What is known of a keystroke after one more part: modifiers, then one key and nothing behind
/// it.
pub open spec fn read_part(t: Seq<char>, m: Modifiers, key: Option<Key>) -> Option<
    (Modifiers, Option<Key>),
> {
    if t.len() == 0 || key is Some {
        None
    } else if read_modifier(t, m) is Some {
        Some((read_modifier(t, m)->0, key))
    } else if read_key(t) is None {
        None
    } else {
        Some((m, read_key(t)))
    }
}

/// The keystroke that plus-separated parts stand for, after the modifiers and the key read so far.
pub open spec fn read_stroke(s: Seq<char>, m: Modifiers, key: Option<Key>) -> Option<KeyStroke>
    decreases s.len(),
    via read_stroke_decreases
{
    let i = crate::strings::find_char(s, '+');
    match read_part(s.take(i), m, key) {
        None => None,
        Some((m1, key1)) => if i < s.len() {
            read_stroke(s.skip(i + 1), m1, key1)
        } else {
            match key1 {
                Some(k) => Some(KeyStroke { mods: m1, key: k }),
                None => None,
            }
        },
    }
}

#[via_fn]
proof fn read_stroke_decreases(s: Seq<char>, m: Modifiers, key: Option<Key>) {
    crate::strings::lemma_find_char(s, '+');
}

/// The keystrokes that white-space-separated words stand for, after those in `done`.
pub open spec fn read_strokes(s: Seq<char>, done: Seq<KeyStroke>) -> Option<Seq<KeyStroke>>
    decreases s.len(),
    via read_strokes_decreases
{
    let t = crate::strings::trim_start(s);
    let n = crate::strings::word_len(t) as int;
    if t.len() == 0 {
        Some(done)
    } else {
        match read_stroke(t.take(n), no_mods(), None) {
            None => None,
            Some(k) => read_strokes(t.skip(n), done.push(k)),
        }
    }
}

#[via_fn]
proof fn read_strokes_decreases(s: Seq<char>, done: Seq<KeyStroke>) {
    let t = crate::strings::trim_start(s);
    lemma_trim_start(s);
    crate::strings::lemma_word_len(t);
}

/// The chord that a text stands for: at least one keystroke.
pub open spec fn read_chord(s: Seq<char>) -> Option<Seq<KeyStroke>> {
    match read_strokes(s, Seq::empty()) {
        Some(ks) => if ks.len() > 0 {
            Some(ks)
        } else {
            None
        },
        None => None,
    }
}

proof fn lemma_trim_start(s: Seq<char>)
    ensures
        crate::strings::trim_start(s).len() <= s.len(),
        crate::strings::trim_start(s).len() > 0 ==> !crate::strings::is_white_space(
            crate::strings::trim_start(s)[0],
        ),
    decreases s.len(),
{
    if s.len() > 0 && crate::strings::is_white_space(s[0]) {
        lemma_trim_start(s.drop_first());
    }
}

/// A chord: one or more [`KeyStroke`]s pressed in sequence. A length-1 chord is
/// an ordinary single-key shortcut; longer chords are multi-step.
#[derive(Clone, Debug, PartialEq, Eq, Hash, PartialOrd, Ord)]
pub struct Chord(Vec<KeyStroke>);

impl Chord {
    /// The keystrokes.
    pub closed spec fn view(&self) -> Seq<KeyStroke> {
        self.0@
    }

    /// A chord from a sequence of strokes (empty is rejected at parse time).
    pub fn new(strokes: Vec<KeyStroke>) -> (r: Self)
        ensures
            r@ == strokes@,
    {
        Chord(strokes)
    }

    /// A single-stroke chord.
    pub fn single(stroke: KeyStroke) -> (r: Self)
        ensures
            r@ == seq![stroke],
    {
        let mut v: Vec<KeyStroke> = Vec::new();
        v.push(stroke);
        assert(v@ == seq![stroke]);
        Chord(v)
    }

    /// A chord with the same strokes.
    pub fn duplicate(&self) -> (r: Self)
        ensures
            r@ == self@,
    {
        Chord(copy_strokes(self.0.as_slice()))
    }

    /// The strokes of this chord.
    pub fn strokes(&self) -> (r: &[KeyStroke])
        ensures
            r@ == self@,
    {
        self.0.as_slice()
    }

    /// Number of steps.
    pub fn len(&self) -> (r: usize)
        ensures
            r == self@.len(),
    {
        self.0.len()
    }

    /// Whether the chord has no strokes.
    pub fn is_empty(&self) -> (r: bool)
        ensures
            r == (self@.len() == 0),
    {
        self.0.len() == 0
    }

    /// Whether two chords have the same strokes.
    pub fn same(&self, other: &Self) -> (r: bool)
        ensures
            r == (self@ == other@),
    {
        if self.0.len() != other.0.len() {
            return false;
        }
        self.opens(other)
    }

    /// Whether the strokes of `self` open `other`.
    fn opens(&self, other: &Self) -> (r: bool)
        requires
            self@.len() <= other@.len(),
        ensures
            r == (other@.take(self@.len() as int) == self@),
            self@.len() == other@.len() ==> r == (self@ == other@),
    {
        let mut i: usize = 0;
        while i < self.0.len()
            invariant
                i <= self.0@.len() <= other.0@.len(),
                forall|j: int| 0 <= j < i ==> self.0@[j] == other.0@[j],
            decreases self.0@.len() - i,
        {
            if self.0[i] != other.0[i] {
                assert(other.0@.take(self.0@.len() as int)[i as int] != self.0@[i as int]);
                return false;
            }
            i = i + 1;
        }
        assert(other@.take(self@.len() as int) =~= self@);
        assert(self@.len() == other@.len() ==> self@ =~= other@);
        true
    }

    /// Whether `self` is a strict prefix of `other` (used by the matcher to
    /// keep waiting for a longer multi-step chord).
    pub fn is_strict_prefix_of(&self, other: &Self) -> (r: bool)
        ensures
            r == strict_prefix(self@, other@),
    {
        self.0.len() < other.0.len() && self.opens(other)
    }

    /// Renders the chord as its canonical string, e.g. `"Ctrl+K Ctrl+S"`.
    pub fn to_canonical(&self) -> (r: String)
        ensures
            r@ == chord_text(self@),
    {
        let mut out = String::new();
        let mut i: usize = 0;
        while i < self.0.len()
            invariant
                i <= self.0@.len(),
                out@ == chord_text(self.0@.take(i as int)),
            decreases self.0@.len() - i,
        {
            let ghost upto = self.0@.take(i + 1);
            assert(upto.drop_last() == self.0@.take(i as int));
            if i > 0 {
                out.push(' ');
            } else {
                assert(Seq::<char>::empty() + stroke_text(upto[0]) == stroke_text(upto[0]));
            }
            write_stroke(&mut out, &self.0[i]);
            i = i + 1;
        }
        assert(self.0@.take(self.0@.len() as int) == self.0@);
        out
    }

    /// Parses a canonical chord string. Strokes are space-separated; within a
    /// stroke, `+`-separated tokens are modifiers then exactly one key.
    ///
    /// # Errors
    /// Returns [`ShortcutError::Parse`] on an empty or malformed string.
    pub fn parse(s: &str) -> (r: Result<Self, ShortcutError>)
        ensures
            match r {
                Ok(c) => read_chord(s@) == Some(c@),
                Err(e) => e == ShortcutError::Parse && read_chord(s@) is None,
            },
    {
        let v = to_chars(s);
        let len: usize = v.len();
        let mut strokes: Vec<KeyStroke> = Vec::new();
        let mut pos: usize = 0;
        let mut open = true;
        assert(v@.subrange(0, len as int) == v@);
        while open
            invariant
                pos <= len == v@.len(),
                v@ == s@,
                open ==> read_strokes(v@.subrange(pos as int, len as int), strokes@)
                    == read_strokes(s@, Seq::empty()),
                !open ==> read_strokes(s@, Seq::empty()) == Some(strokes@),
            decreases len - pos + (if open {
                1int
            } else {
                0int
            }),
        {
            let ghost here = v@.subrange(pos as int, len as int);
            let a = skip_whitespace(v.as_slice(), pos, len);
            let ghost t = v@.subrange(a as int, len as int);
            proof {
                lemma_trim_start(here);
                crate::strings::lemma_word_len(t);
            }
            if a == len {
                open = false;
            } else {
                let b = word_end(v.as_slice(), a, len);
                proof {
                    assert(t.take(b - a) == v@.subrange(a as int, b as int));
                    assert(t.skip(b - a) == v@.subrange(b as int, len as int));
                }
                match parse_stroke(v.as_slice(), a, b) {
                    Ok(k) => {
                        strokes.push(k);
                    },
                    Err(e) => {
                        return Err(e);
                    },
                }
                pos = b;
            }
        }
        if strokes.len() == 0 {
            return Err(ShortcutError::Parse);
        }
        Ok(Chord(strokes))
    }
}

/// Whether `a` opens `b`, which is longer.
pub open spec fn strict_prefix(a: Seq<KeyStroke>, b: Seq<KeyStroke>) -> bool {
    a.len() < b.len() && b.take(a.len() as int) == a
}

/// A vector with the same strokes.
pub fn copy_strokes(v: &[KeyStroke]) -> (r: Vec<KeyStroke>)
    ensures
        r@ == v@,
{
    let mut out: Vec<KeyStroke> = Vec::new();
    let mut i: usize = 0;
    while i < v.len()
        invariant
            i <= v@.len(),
            out@ == v@.take(i as int),
        decreases v@.len() - i,
    {
        out.push(v[i]);
        i = i + 1;
        assert(v@.take(i as int) == v@.take(i - 1).push(v@[i - 1]));
    }
    assert(v@.take(v@.len() as int) == v@);
    out
}

/// Appends the canonical rendering of one stroke.
fn write_stroke(out: &mut String, s: &KeyStroke)
    ensures
        final(out)@ == old(out)@ + stroke_text(*s),
{
    let ghost start = out@;
    if s.mods.ctrl {
        out.push_str("Ctrl+");
    }
    if s.mods.alt {
        out.push_str("Alt+");
    }
    if s.mods.shift {
        out.push_str("Shift+");
    }
    if s.mods.meta {
        out.push_str("Meta+");
    }
    assert(out@ == start + mods_text(s.mods));
    write_key(out, s.key);
    assert((start + mods_text(s.mods)) + key_text(s.key) == start + stroke_text(*s));
}

/// Appends the canonical rendering of a key.
fn write_key(out: &mut String, key: Key)
    ensures
        final(out)@ == old(out)@ + key_text(key),
{
    let ghost start = out@;
    match key {
        Key::Char(c) => {
            let v = to_uppercase(c);
            let mut i: usize = 0;
            while i < v.len()
                invariant
                    i <= v@.len(),
                    out@ == start + v@.take(i as int),
                decreases v@.len() - i,
            {
                out.push(v[i]);
                i = i + 1;
                assert(start + v@.take(i as int) == (start + v@.take(i - 1)).push(v@[i - 1]));
            }
            assert(v@.take(v@.len() as int) == v@);
        },
        Key::Enter => out.push_str("Enter"),
        Key::Tab => out.push_str("Tab"),
        Key::Space => out.push_str("Space"),
        Key::Escape => out.push_str("Escape"),
        Key::Backspace => out.push_str("Backspace"),
        Key::Delete => out.push_str("Delete"),
        Key::Up => out.push_str("Up"),
        Key::Down => out.push_str("Down"),
        Key::Left => out.push_str("Left"),
        Key::Right => out.push_str("Right"),
        Key::Home => out.push_str("Home"),
        Key::End => out.push_str("End"),
        Key::Function(n) => {
            out.push_str("F");
            push_decimal(out, n as u64);
            assert((start + "F"@) + crate::strings::decimal(n as nat) == start + key_text(key));
        },
    }
}

/// Parses the `+`-separated stroke at `lo .. hi`.
fn parse_stroke(v: &[char], lo: usize, hi: usize) -> (r: Result<KeyStroke, ShortcutError>)
    requires
        lo <= hi <= v@.len(),
    ensures
        match r {
            Ok(k) => read_stroke(v@.subrange(lo as int, hi as int), no_mods(), None) == Some(k),
            Err(e) => e == ShortcutError::Parse && read_stroke(
                v@.subrange(lo as int, hi as int),
                no_mods(),
                None,
            ) is None,
        },
{
    let mut mods = Modifiers::none();
    let mut key: Option<Key> = None;
    let mut pos: usize = lo;
    let ghost all = v@.subrange(lo as int, hi as int);
    loop
        invariant
            lo <= pos <= hi <= v@.len(),
            read_stroke(v@.subrange(pos as int, hi as int), mods, key) == read_stroke(
                all,
                no_mods(),
                None,
            ),
            all == v@.subrange(lo as int, hi as int),
        decreases hi - pos,
    {
        let ghost here = v@.subrange(pos as int, hi as int);
        let end = find_from(v, pos, hi, '+');
        let part = from_range(v, pos, end);
        assert(here.take(end - pos) == part@);
        if end == pos || key.is_some() {
            // An empty token, or one behind the key.
            return Err(ShortcutError::Parse);
        }
        let p = part.as_str();
        if str_eq(p, "Ctrl") || str_eq(p, "Control") {
            mods = Modifiers { ctrl: true, alt: mods.alt, shift: mods.shift, meta: mods.meta };
        } else if str_eq(p, "Alt") || str_eq(p, "Option") {
            mods = Modifiers { ctrl: mods.ctrl, alt: true, shift: mods.shift, meta: mods.meta };
        } else if str_eq(p, "Shift") {
            mods = Modifiers { ctrl: mods.ctrl, alt: mods.alt, shift: true, meta: mods.meta };
        } else if str_eq(p, "Meta") || str_eq(p, "Cmd") || str_eq(p, "Command") || str_eq(
            p,
            "Super",
        ) {
            mods = Modifiers { ctrl: mods.ctrl, alt: mods.alt, shift: mods.shift, meta: true };
        } else {
            match parse_key(p) {
                Ok(k) => {
                    key = Some(k);
                },
                Err(e) => {
                    return Err(e);
                },
            }
        }
        if end == hi {
            return match key {
                Some(k) => Ok(KeyStroke { mods, key: k }),
                None => Err(ShortcutError::Parse),
            };
        }
        assert(here.skip(end - pos + 1) == v@.subrange(end + 1, hi as int));
        pos = end + 1;
    }
}

/// Parses a single key token.
fn parse_key(token: &str) -> (r: Result<Key, ShortcutError>)
    ensures
        match r {
            Ok(k) => read_key(token@) == Some(k),
            Err(e) => e == ShortcutError::Parse && read_key(token@) is None,
        },
{
    if str_eq(token, "Enter") || str_eq(token, "Return") {
        return Ok(Key::Enter);
    }
    if str_eq(token, "Tab") {
        return Ok(Key::Tab);
    }
    if str_eq(token, "Space") {
        return Ok(Key::Space);
    }
    if str_eq(token, "Escape") || str_eq(token, "Esc") {
        return Ok(Key::Escape);
    }
    if str_eq(token, "Backspace") {
        return Ok(Key::Backspace);
    }
    if str_eq(token, "Delete") || str_eq(token, "Del") {
        return Ok(Key::Delete);
    }
    if str_eq(token, "Up") {
        return Ok(Key::Up);
    }
    if str_eq(token, "Down") {
        return Ok(Key::Down);
    }
    if str_eq(token, "Left") {
        return Ok(Key::Left);
    }
    if str_eq(token, "Right") {
        return Ok(Key::Right);
    }
    if str_eq(token, "Home") {
        return Ok(Key::Home);
    }
    if str_eq(token, "End") {
        return Ok(Key::End);
    }
    let v = to_chars(token);
    // Function key `F1..=F24`.
    if v.len() > 0 && v[0] == 'F' {
        let lo: usize = if v.len() > 1 && v[1] == '+' {
            2
        } else {
            1
        };
        proof {
            let tail = token@.drop_first();
            assert(tail == v@.subrange(1, v@.len() as int));
            if lo == 2 {
                assert(tail.drop_first() == v@.subrange(2, v@.len() as int));
            }
        }
        if let Some(n) = parse_digits(v.as_slice(), lo, v.len(), 24) {
            if n >= 1 {
                return Ok(Key::Function(n as u8));
            }
        }
    }
    // A single character.
    if v.len() == 1 {
        Ok(Key::char(v[0]))
    } else {
        Err(ShortcutError::Parse)
    }
}

// ---------------------------------------------------------------------------
// Round trip
// ---------------------------------------------------------------------------

/// Whether a key survives being written and read: a function key has a number from 1 to 24, and a
/// character key is the lower case of its one-character upper case, which is no separator.
pub open spec fn restorable_key(key: Key) -> bool {
    match key {
        Key::Char(c) => {
            let up = crate::strings::uppercase(c);
            &&& up.len() == 1
            &&& crate::strings::lowercase(up[0])[0] == c
            &&& up[0] != '+'
            &&& !crate::strings::is_white_space(up[0])
        },
        Key::Function(n) => 1 <= n <= 24,
        _ => true,
    }
}

/// Whether every key of a chord survives being written and read.
pub open spec fn restorable(s: Seq<KeyStroke>) -> bool {
    s.len() > 0 && forall|i: int| 0 <= i < s.len() ==> restorable_key((#[trigger] s[i]).key)
}

proof fn lemma_key_text(key: Key)
    requires
        restorable_key(key),
    ensures
        key_text(key).len() > 0,
        read_key(key_text(key)) == Some(key),
        forall|m: Modifiers| read_modifier(key_text(key), m) is None,
        forall|i: int| 0 <= i < key_text(key).len() ==> key_text(key)[i] != '+',
        forall|i: int|
            0 <= i < key_text(key).len() ==> !crate::strings::is_white_space(
                #[trigger] key_text(key)[i],
            ),
{
    let t = key_text(key);
    reveal_strlit("Enter");
    reveal_strlit("Return");
    reveal_strlit("Tab");
    reveal_strlit("Space");
    reveal_strlit("Escape");
    reveal_strlit("Esc");
    reveal_strlit("Backspace");
    reveal_strlit("Delete");
    reveal_strlit("Del");
    reveal_strlit("Up");
    reveal_strlit("Down");
    reveal_strlit("Left");
    reveal_strlit("Right");
    reveal_strlit("Home");
    reveal_strlit("End");
    reveal_strlit("F");
    reveal_strlit("Ctrl");
    reveal_strlit("Control");
    reveal_strlit("Alt");
    reveal_strlit("Option");
    reveal_strlit("Shift");
    reveal_strlit("Meta");
    reveal_strlit("Cmd");
    reveal_strlit("Command");
    reveal_strlit("Super");
    assert("Enter"@[0] == 'E' && "Return"@[0] == 'R' && "Tab"@[0] == 'T');
    assert("Space"@[0] == 'S' && "Escape"@[0] == 'E' && "Esc"@[0] == 'E');
    assert("Backspace"@[0] == 'B' && "Delete"@[0] == 'D' && "Del"@[0] == 'D');
    assert("Up"@[0] == 'U' && "Down"@[0] == 'D' && "Left"@[0] == 'L');
    assert("Right"@[0] == 'R' && "Home"@[0] == 'H' && "End"@[0] == 'E');
    assert("Ctrl"@[0] == 'C' && "Control"@[0] == 'C' && "Alt"@[0] == 'A');
    assert("Option"@[0] == 'O' && "Shift"@[0] == 'S' && "Meta"@[0] == 'M');
    assert("Cmd"@[0] == 'C' && "Command"@[0] == 'C' && "Super"@[0] == 'S');
    assert("End"@[1] == 'n' && "Esc"@[1] == 's');
    assert("Space"@[1] == 'p' && "Shift"@[1] == 'h' && "Super"@[1] == 'u');
    match key {
        Key::Function(n) => {
            let d = crate::strings::decimal(n as nat);
            crate::strings::lemma_decimal_round_trip(n as nat);
            assert(t[0] == 'F');
            assert(t.drop_first() == d);
            assert(crate::strings::is_digit(d[0]));
            assert(crate::strings::read_decimal(d) == Some(n as nat));
            assert forall|i: int| 0 <= i < t.len() implies t[i] != '+'
                && !crate::strings::is_white_space(#[trigger] t[i]) by {
                if i > 0 {
                    assert(t[i] == d[i - 1]);
                    assert(crate::strings::is_digit(d[i - 1]));
                }
            }
        },
        Key::Char(c) => {
            if t[0] == 'F' {
                assert(t.drop_first() =~= Seq::empty());
            }
        },
        _ => {},
    }
}

proof fn lemma_read_modifier_part(name: Seq<char>, rest: Seq<char>, m: Modifiers, m1: Modifiers)
    requires
        name.len() > 0,
        forall|i: int| 0 <= i < name.len() ==> name[i] != '+',
        read_modifier(name, m) == Some(m1),
    ensures
        read_stroke(name.push('+') + rest, m, None) == read_stroke(rest, m1, None),
{
    let s = name.push('+') + rest;
    let n = name.len() as int;
    assert forall|j: int| 0 <= j < n implies s[j] != '+' by {
        assert(s[j] == name[j]);
    }
    assert(s[n] == '+');
    crate::strings::lemma_find_char_at(s, '+', n);
    assert(s.take(n) == name);
    assert(s.skip(n + 1) == rest);
}

proof fn lemma_held(on: bool, name: Seq<char>, rest: Seq<char>, m: Modifiers, m1: Modifiers)
    requires
        name.len() > 0,
        forall|i: int| 0 <= i < name.len() ==> name[i] != '+',
        if on {
            read_modifier(name, m) == Some(m1)
        } else {
            m1 == m
        },
    ensures
        read_stroke(held(on, name.push('+')) + rest, m, None) == read_stroke(rest, m1, None),
{
    if on {
        lemma_read_modifier_part(name, rest, m, m1);
    } else {
        assert(held(on, name.push('+')) + rest == rest);
    }
}

/// Whether a text holds no white space.
spec fn solid(s: Seq<char>) -> bool {
    forall|i: int| 0 <= i < s.len() ==> !crate::strings::is_white_space(#[trigger] s[i])
}

proof fn lemma_solid_concat(a: Seq<char>, b: Seq<char>)
    requires
        solid(a),
        solid(b),
    ensures
        solid(a + b),
{
    assert forall|i: int| 0 <= i < (a + b).len() implies !crate::strings::is_white_space(
        #[trigger] (a + b)[i],
    ) by {
        if i < a.len() {
            assert((a + b)[i] == a[i]);
        } else {
            assert((a + b)[i] == b[i - a.len()]);
        }
    }
}

proof fn lemma_modifier_names()
    ensures
        "Ctrl+"@ == "Ctrl"@.push('+'),
        "Alt+"@ == "Alt"@.push('+'),
        "Shift+"@ == "Shift"@.push('+'),
        "Meta+"@ == "Meta"@.push('+'),
        "Ctrl"@.len() == 4,
        "Alt"@.len() == 3,
        "Shift"@.len() == 5,
        "Meta"@.len() == 4,
        forall|i: int| 0 <= i < 4 ==> "Ctrl"@[i] != '+',
        forall|i: int| 0 <= i < 3 ==> "Alt"@[i] != '+',
        forall|i: int| 0 <= i < 5 ==> "Shift"@[i] != '+',
        forall|i: int| 0 <= i < 4 ==> "Meta"@[i] != '+',
        solid("Ctrl+"@),
        solid("Alt+"@),
        solid("Shift+"@),
        solid("Meta+"@),
        forall|m: Modifiers|
            read_modifier("Ctrl"@, m) == Some(Modifiers { ctrl: true, ..m }),
        forall|m: Modifiers|
            read_modifier("Alt"@, m) == Some(Modifiers { alt: true, ..m }),
        forall|m: Modifiers|
            read_modifier("Shift"@, m) == Some(Modifiers { shift: true, ..m }),
        forall|m: Modifiers|
            read_modifier("Meta"@, m) == Some(Modifiers { meta: true, ..m }),
{
    reveal_strlit("Ctrl");
    reveal_strlit("Control");
    reveal_strlit("Alt");
    reveal_strlit("Option");
    reveal_strlit("Shift");
    reveal_strlit("Meta");
    reveal_strlit("Ctrl+");
    reveal_strlit("Alt+");
    reveal_strlit("Shift+");
    reveal_strlit("Meta+");
    let ctrl = "Ctrl"@;
    let alt = "Alt"@;
    let shift = "Shift"@;
    let meta = "Meta"@;
    assert(ctrl.len() == 4);
    assert("Control"@.len() == 7);
    assert(alt.len() == 3);
    assert("Option"@.len() == 6);
    assert(shift.len() == 5);
    assert(meta.len() == 4);
    assert(ctrl[0] == 'C');
    assert(meta[0] == 'M');
}

proof fn lemma_read_stroke(k: KeyStroke)
    requires
        restorable_key(k.key),
    ensures
        read_stroke(stroke_text(k), no_mods(), None) == Some(k),
        stroke_text(k).len() > 0,
        solid(stroke_text(k)),
{
    lemma_key_text(k.key);
    lemma_modifier_names();
    let kt = key_text(k.key);
    let m = k.mods;
    let m0 = no_mods();
    let m1 = Modifiers { ctrl: m.ctrl, ..m0 };
    let m2 = Modifiers { alt: m.alt, ..m1 };
    let m3 = Modifiers { shift: m.shift, ..m2 };
    let h0 = held(m.ctrl, "Ctrl+"@);
    let h1 = held(m.alt, "Alt+"@);
    let h2 = held(m.shift, "Shift+"@);
    let h3 = held(m.meta, "Meta+"@);
    let r3 = h3 + kt;
    let r2 = h2 + r3;
    let r1 = h1 + r2;
    let r0 = h0 + r1;
    lemma_regroup(h0, h1, h2, h3, kt);
    lemma_held(m.ctrl, "Ctrl"@, r1, m0, m1);
    lemma_held(m.alt, "Alt"@, r2, m1, m2);
    lemma_held(m.shift, "Shift"@, r3, m2, m3);
    lemma_held(m.meta, "Meta"@, kt, m3, m);
    lemma_read_last(kt, m, k.key);
    lemma_solid_concat(h3, kt);
    lemma_solid_concat(h2, r3);
    lemma_solid_concat(h1, r2);
    lemma_solid_concat(h0, r1);
}

proof fn lemma_regroup(a: Seq<char>, b: Seq<char>, c: Seq<char>, d: Seq<char>, e: Seq<char>)
    ensures
        (a + b + c + d) + e == a + (b + (c + (d + e))),
{
    assert((a + b + c + d) + e =~= a + (b + (c + (d + e))));
}

proof fn lemma_read_last(kt: Seq<char>, m: Modifiers, key: Key)
    requires
        kt.len() > 0,
        read_key(kt) == Some(key),
        read_modifier(kt, m) is None,
        forall|i: int| 0 <= i < kt.len() ==> kt[i] != '+',
    ensures
        read_stroke(kt, m, None) == Some(KeyStroke { mods: m, key }),
{
    crate::strings::lemma_find_char_at(kt, '+', kt.len() as int);
    assert(kt.take(kt.len() as int) == kt);
}

/// The text of a chord, seen from the front.
proof fn lemma_chord_text_front(s: Seq<KeyStroke>)
    requires
        s.len() >= 2,
    ensures
        chord_text(s) == stroke_text(s[0]).push(' ') + chord_text(s.drop_first()),
    decreases s.len(),
{
    let rest = s.drop_first();
    reveal_with_fuel(chord_text, 3);
    if s.len() == 2 {
        assert(s.drop_last().len() == 1 && s.drop_last()[0] == s[0]);
        assert(rest.len() == 1 && rest[0] == s.last());
    } else {
        lemma_chord_text_front(s.drop_last());
        assert(s.drop_last().drop_first() == rest.drop_last());
        let a = stroke_text(s[0]).push(' ');
        let b = chord_text(rest.drop_last());
        let c = stroke_text(s.last());
        assert((a + b).push(' ') + c == a + (b.push(' ') + c));
    }
}

proof fn lemma_read_strokes(s: Seq<KeyStroke>, done: Seq<KeyStroke>)
    requires
        restorable(s),
    ensures
        read_strokes(chord_text(s), done) == Some(done + s),
    decreases s.len(),
{
    let k = s[0];
    let w = stroke_text(k);
    let text = chord_text(s);
    assert(restorable_key(s[0].key));
    lemma_read_stroke(k);
    let n = w.len() as int;
    assert(s.len() >= 2 ==> text == w.push(' ') + chord_text(s.drop_first())) by {
        if s.len() >= 2 {
            lemma_chord_text_front(s);
        }
    }
    assert(text.take(n) == w);
    assert(text[0] == w[0]);
    assert(crate::strings::trim_start(text) == text);
    assert(crate::strings::word_len(text) == n) by {
        crate::strings::lemma_word_len(text);
        let m = crate::strings::word_len(text) as int;
        if m < n {
            assert(text[m] == w[m]);
        }
        if m > n {
            assert(text[n] == ' ');
        }
    }
    if s.len() == 1 {
        assert(text.skip(n) =~= Seq::empty());
        assert(crate::strings::trim_start(text.skip(n)).len() == 0);
        assert(done.push(k) == done + s);
    } else {
        let rest = s.drop_first();
        assert forall|i: int| 0 <= i < rest.len() implies restorable_key(
            (#[trigger] rest[i]).key,
        ) by {
            assert(rest[i] == s[i + 1]);
        }
        lemma_read_strokes(rest, done.push(k));
        let tail = text.skip(n);
        assert(tail[0] == ' ');
        assert(tail.drop_first() == chord_text(rest));
        assert(crate::strings::trim_start(tail) == crate::strings::trim_start(chord_text(rest)));
        assert(read_strokes(tail, done.push(k)) == read_strokes(chord_text(rest), done.push(k)));
        assert(done.push(k) + rest == done + s);
    }
}

/// A chord is read back from its canonical text.
pub proof fn law_chord_round_trip(s: Seq<KeyStroke>)
    requires
        restorable(s),
    ensures
        read_chord(chord_text(s)) == Some(s),
{
    lemma_read_strokes(s, Seq::empty());
    assert(Seq::<KeyStroke>::empty() + s == s);
}

/// The modifiers and keys go by several names.
pub proof fn law_keys_have_other_names(m: Modifiers)
    ensures
        read_modifier("Control"@, m) == Some(Modifiers { ctrl: true, ..m }),
        read_modifier("Ctrl"@, m) == Some(Modifiers { ctrl: true, ..m }),
        read_modifier("Alt"@, m) == Some(Modifiers { alt: true, ..m }),
        read_modifier("Option"@, m) == Some(Modifiers { alt: true, ..m }),
        read_modifier("Shift"@, m) == Some(Modifiers { shift: true, ..m }),
        read_modifier("Meta"@, m) == Some(Modifiers { meta: true, ..m }),
        read_modifier("Cmd"@, m) == Some(Modifiers { meta: true, ..m }),
        read_modifier("Command"@, m) == Some(Modifiers { meta: true, ..m }),
        read_modifier("Super"@, m) == Some(Modifiers { meta: true, ..m }),
        read_key("Return"@) == read_key("Enter"@),
        read_key("Esc"@) == read_key("Escape"@),
        read_key("Del"@) == read_key("Delete"@),
{
    reveal_strlit("Control");
    reveal_strlit("Ctrl");
    reveal_strlit("Alt");
    reveal_strlit("Option");
    reveal_strlit("Shift");
    reveal_strlit("Meta");
    reveal_strlit("Cmd");
    reveal_strlit("Command");
    reveal_strlit("Super");
    assert("Command"@[2] == 'm' && "Control"@[2] == 'n');
    assert("Meta"@[0] == 'M' && "Ctrl"@[0] == 'C');
    assert("Cmd"@[0] == 'C' && "Alt"@[0] == 'A');
    assert("Cmd"@.len() == 3 && "Alt"@.len() == 3 && "Ctrl"@.len() == 4 && "Meta"@.len() == 4);
    assert("Shift"@.len() == 5 && "Super"@.len() == 5 && "Option"@.len() == 6);
    assert("Control"@.len() == 7 && "Command"@.len() == 7);
    assert("Cmd"@ != "Alt"@);
    assert("Command"@ != "Control"@ && "Meta"@ != "Ctrl"@);
    assert("Super"@[1] == 'u' && "Shift"@[1] == 'h');
    assert("Super"@ != "Shift"@);
    reveal_strlit("Return");
    reveal_strlit("Enter");
    reveal_strlit("Esc");
    reveal_strlit("Escape");
    reveal_strlit("Del");
    reveal_strlit("Delete");
    reveal_strlit("Tab");
    reveal_strlit("Space");
    reveal_strlit("Backspace");
    assert("Esc"@[0] == 'E' && "Del"@[0] == 'D' && "Tab"@[0] == 'T');
    assert("Escape"@[0] == 'E' && "Return"@[0] == 'R' && "Delete"@[0] == 'D');
    assert("Enter"@[0] == 'E' && "Space"@[0] == 'S');
}

} // verus!
