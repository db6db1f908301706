//! Typed settings, panels of them, and the config-store seam.

use vstd::prelude::*;

use crate::strings::{parse_digits, push_decimal, str_eq, to_chars};

verus! {

/// A typed setting value.
#[derive(Debug, Clone, PartialEq, Eq)]
pub enum SettingValue {
    /// A boolean toggle.
    Toggle(bool),
    /// An integer within a range.
    Number(i64),
    /// A free-text value.
    Text(String),
    /// The index of the selected option in a [`SettingKind::Select`].
    Choice(usize),
}

/// The constraint a [`Setting`] enforces.
#[derive(Debug, Clone, PartialEq, Eq)]
pub enum SettingKind {
    /// A boolean toggle.
    Toggle,
    /// An integer in `[min, max]`.
    Range {
        /// Inclusive minimum.
        min: i64,
        /// Inclusive maximum.
        max: i64,
    },
    /// One of a fixed set of options (value is the index).
    Select {
        /// The selectable option labels.
        options: Vec<String>,
    },
    /// Free text.
    Text,
}

/// Why a setting value was rejected.
#[derive(Debug, Clone, Copy, PartialEq, Eq, Structural)]
pub enum SettingsError {
    /// The value's variant did not match the setting's kind.
    TypeMismatch,
    /// A number was outside the allowed range.
    OutOfRange,
    /// A choice index was outside the option list.
    BadChoice,
    /// A serialised value could not be parsed for its kind.
    Unparsable,
}

/// A single configurable setting.
#[derive(Debug, Clone, PartialEq, Eq)]
pub struct Setting {
    /// The config-store key (e.g. `audio.output.volume`).
    pub key: String,
    /// The human-readable label.
    pub label: String,
    /// The type/constraint.
    pub kind: SettingKind,
    /// The current value.
    pub value: SettingValue,
}

// ---------------------------------------------------------------------------
// Model
// ---------------------------------------------------------------------------

/// What a value says.
pub enum Value {
    /// A toggle.
    Toggle(bool),
    /// An integer.
    Number(i64),
    /// A text.
    Text(Seq<char>),
    /// The index of an option.
    Choice(nat),
}

/// What a constraint demands.
pub enum Kind {
    /// A toggle.
    Toggle,
    /// An integer in a range.
    Range {
        /// Inclusive minimum.
        min: i64,
        /// Inclusive maximum.
        max: i64,
    },
    /// One of some options.
    Select {
        /// The option labels.
        options: Seq<Seq<char>>,
    },
    /// A text.
    Text,
}

/// What a setting says.
pub struct Entry {
    /// The config-store key.
    pub key: Seq<char>,
    /// The label.
    pub label: Seq<char>,
    /// The constraint.
    pub kind: Kind,
    /// The value.
    pub value: Value,
}

impl View for SettingValue {
    type V = Value;

    open spec fn view(&self) -> Value {
        match self {
            SettingValue::Toggle(b) => Value::Toggle(*b),
            SettingValue::Number(n) => Value::Number(*n),
            SettingValue::Text(t) => Value::Text(t@),
            SettingValue::Choice(i) => Value::Choice(*i as nat),
        }
    }
}

impl View for SettingKind {
    type V = Kind;

    open spec fn view(&self) -> Kind {
        match self {
            SettingKind::Toggle => Kind::Toggle,
            SettingKind::Range { min, max } => Kind::Range { min: *min, max: *max },
            SettingKind::Select { options } => Kind::Select {
                options: crate::lists::texts(options@),
            },
            SettingKind::Text => Kind::Text,
        }
    }
}

impl View for Setting {
    type V = Entry;

    open spec fn view(&self) -> Entry {
        Entry { key: self.key@, label: self.label@, kind: self.kind@, value: self.value@ }
    }
}

/// What the settings of a list say.
pub open spec fn entries(s: Seq<Setting>) -> Seq<Entry> {
    s.map_values(|x: Setting| x@)
}

/// Whether a value is valid for a kind, or why not.
pub open spec fn verdict(kind: Kind, value: Value) -> Result<(), SettingsError> {
    match (kind, value) {
        (Kind::Toggle, Value::Toggle(_)) => Ok(()),
        (Kind::Text, Value::Text(_)) => Ok(()),
        (Kind::Range { min, max }, Value::Number(n)) => if min <= n <= max {
            Ok(())
        } else {
            Err(SettingsError::OutOfRange)
        },
        (Kind::Select { options }, Value::Choice(i)) => if i < options.len() {
            Ok(())
        } else {
            Err(SettingsError::BadChoice)
        },
        _ => Err(SettingsError::TypeMismatch),
    }
}

/// An entry with another value, if that is valid for its kind.
pub open spec fn stored(e: Entry, value: Value) -> Entry {
    if verdict(e.kind, value) is Ok {
        Entry { value, ..e }
    } else {
        e
    }
}

/// The value of an entry as the config store holds it.
pub open spec fn serialized(e: Entry) -> Seq<char> {
    match e.value {
        Value::Toggle(b) => if b {
            "true"@
        } else {
            "false"@
        },
        Value::Number(n) => crate::strings::signed_decimal(n as int),
        Value::Text(t) => t,
        Value::Choice(i) => match e.kind {
            Kind::Select { options } => if i < options.len() {
                options[i as int]
            } else {
                Seq::empty()
            },
            _ => Seq::empty(),
        },
    }
}

/// The position of the first option with a label, or the number of options.
pub open spec fn option_at(options: Seq<Seq<char>>, label: Seq<char>) -> nat
    decreases options.len(),
{
    if options.len() == 0 || options[0] == label {
        0
    } else {
        1 + option_at(options.drop_first(), label)
    }
}

/// The integer that a text denotes: digits, behind an optional sign.
pub open spec fn integer(s: Seq<char>) -> Option<int> {
    let signed = s.len() > 0 && (s[0] == '-' || s[0] == '+');
    let digits = if signed {
        s.drop_first()
    } else {
        s
    };
    if digits.len() == 0 || !crate::strings::all_digits(digits) {
        None
    } else if s[0] == '-' {
        Some(-(crate::strings::decimal_value(digits) as int))
    } else {
        Some(crate::strings::decimal_value(digits) as int)
    }
}

/// The value that a stored text denotes for a kind: `None` if it denotes none.
pub open spec fn parsed(kind: Kind, raw: Seq<char>) -> Option<Value> {
    match kind {
        Kind::Toggle => if raw == "true"@ {
            Some(Value::Toggle(true))
        } else if raw == "false"@ {
            Some(Value::Toggle(false))
        } else {
            None
        },
        Kind::Range { .. } => match integer(raw) {
            Some(n) => if i64::MIN <= n <= i64::MAX {
                Some(Value::Number(n as i64))
            } else {
                None
            },
            None => None,
        },
        Kind::Text => Some(Value::Text(raw)),
        Kind::Select { options } => if option_at(options, raw) < options.len() {
            Some(Value::Choice(option_at(options, raw)))
        } else {
            None
        },
    }
}

/// Whether a stored text can be taken over by a setting of a kind, or why not.
pub open spec fn raw_verdict(kind: Kind, raw: Seq<char>) -> Result<(), SettingsError> {
    match parsed(kind, raw) {
        Some(v) => verdict(kind, v),
        None => Err(SettingsError::Unparsable),
    }
}

/// An entry after a stored text, which it ignores if it cannot take it over.
pub open spec fn restored(e: Entry, raw: Seq<char>) -> Entry {
    match parsed(e.kind, raw) {
        Some(v) => stored(e, v),
        None => e,
    }
}

proof fn lemma_option_at(options: Seq<Seq<char>>, label: Seq<char>, i: int)
    requires
        0 <= i <= options.len(),
        forall|j: int| 0 <= j < i ==> options[j] != label,
        i < options.len() ==> options[i] == label,
    ensures
        option_at(options, label) == i,
    decreases options.len(),
{
    if i > 0 {
        let rest = options.drop_first();
        assert forall|j: int| 0 <= j < i - 1 implies rest[j] != label by {
            assert(rest[j] == options[j + 1]);
        }
        assert(options[0] != label);
        lemma_option_at(rest, label, i - 1);
    }
}

// ---------------------------------------------------------------------------
// Settings
// ---------------------------------------------------------------------------

/// Parses an integer: digits, behind an optional sign.
fn parse_integer(raw: &str) -> (r: Option<i64>)
    ensures
        match r {
            Some(n) => integer(raw@) == Some(n as int),
            None => match integer(raw@) {
                Some(n) => !(i64::MIN <= n <= i64::MAX),
                None => true,
            },
        },
{
    let v = to_chars(raw);
    if v.len() == 0 {
        return None;
    }
    let first = v[0];
    let signed = first == '-' || first == '+';
    let lo: usize = if signed {
        1
    } else {
        0
    };
    let limit: u64 = if first == '-' {
        0x8000_0000_0000_0000
    } else {
        0x7fff_ffff_ffff_ffff
    };
    proof {
        assert(v@.subrange(0, v@.len() as int) == v@);
        assert(v@.subrange(1, v@.len() as int) == v@.drop_first());
    }
    match parse_digits(v.as_slice(), lo, v.len(), limit) {
        Some(n) => if first != '-' {
            Some(n as i64)
        } else if n == 0x8000_0000_0000_0000 {
            Some(i64::MIN)
        } else {
            Some(-(n as i64))
        },
        None => None,
    }
}

impl Setting {
    /// Whether `value` is valid for this setting's kind.
    ///
    /// # Errors
    ///
    /// [`SettingsError::TypeMismatch`] / [`SettingsError::OutOfRange`] /
    /// [`SettingsError::BadChoice`].
    pub fn validate(&self, value: &SettingValue) -> (r: Result<(), SettingsError>)
        ensures
            r == verdict(self.kind@, value@),
    {
        match (&self.kind, value) {
            (SettingKind::Toggle, SettingValue::Toggle(_)) => Ok(()),
            (SettingKind::Text, SettingValue::Text(_)) => Ok(()),
            (SettingKind::Range { min, max }, SettingValue::Number(n)) => if *n >= *min && *n
                <= *max {
                Ok(())
            } else {
                Err(SettingsError::OutOfRange)
            },
            (SettingKind::Select { options }, SettingValue::Choice(i)) => if *i < options.len() {
                Ok(())
            } else {
                Err(SettingsError::BadChoice)
            },
            _ => Err(SettingsError::TypeMismatch),
        }
    }

    /// Validate and store `value`.
    ///
    /// # Errors
    ///
    /// As [`Setting::validate`].
    pub fn set(&mut self, value: SettingValue) -> (r: Result<(), SettingsError>)
        ensures
            r == verdict(old(self).kind@, value@),
            final(self)@ == stored(old(self)@, value@),
            final(self).kind == old(self).kind,
            final(self).key == old(self).key,
    {
        let v = self.validate(&value);
        if v.is_ok() {
            self.value = value;
        }
        v
    }

    /// The value serialised for the config store.
    ///
    /// The least `i64` has no serialised form.
    pub fn serialize_value(&self) -> (r: String)
        requires
            self.value@ != Value::Number(i64::MIN),
        ensures
            r@ == serialized(self@),
    {
        match &self.value {
            SettingValue::Toggle(b) => if *b {
                "true".to_owned()
            } else {
                "false".to_owned()
            },
            SettingValue::Number(n) => {
                let mut s = String::new();
                if *n < 0 {
                    s.push('-');
                    push_decimal(&mut s, (-*n) as u64);
                } else {
                    push_decimal(&mut s, *n as u64);
                }
                assert(s@ =~= crate::strings::signed_decimal(*n as int));
                s
            },
            SettingValue::Text(t) => t.clone(),
            SettingValue::Choice(i) => {
                let none = String::new();
                assert(none@ =~= Seq::<char>::empty());
                match &self.kind {
                    SettingKind::Select { options } => if *i < options.len() {
                        options[*i].clone()
                    } else {
                        none
                    },
                    _ => none,
                }
            },
        }
    }

    /// Parse a stored string into this setting's value and store it.
    ///
    /// # Errors
    ///
    /// [`SettingsError::Unparsable`] if the text does not fit the kind, or a validation error.
    pub fn set_from_str(&mut self, raw: &str) -> (r: Result<(), SettingsError>)
        ensures
            r == raw_verdict(old(self).kind@, raw@),
            final(self)@ == restored(old(self)@, raw@),
            final(self).kind == old(self).kind,
            final(self).key == old(self).key,
    {
        let value = match &self.kind {
            SettingKind::Toggle => if str_eq(raw, "true") {
                SettingValue::Toggle(true)
            } else if str_eq(raw, "false") {
                SettingValue::Toggle(false)
            } else {
                return Err(SettingsError::Unparsable);
            },
            SettingKind::Range { .. } => match parse_integer(raw) {
                Some(n) => SettingValue::Number(n),
                None => {
                    return Err(SettingsError::Unparsable);
                },
            },
            SettingKind::Text => SettingValue::Text(raw.to_owned()),
            SettingKind::Select { options } => {
                let mut i: usize = 0;
                let ghost labels = crate::lists::texts(options@);
                while i < options.len() && !str_eq(options[i].as_str(), raw)
                    invariant
                        i <= options@.len(),
                        labels == crate::lists::texts(options@),
                        forall|j: int| 0 <= j < i ==> labels[j] != raw@,
                    decreases options@.len() - i,
                {
                    i = i + 1;
                }
                proof {
                    lemma_option_at(labels, raw@, i as int);
                }
                if i == options.len() {
                    return Err(SettingsError::Unparsable);
                }
                SettingValue::Choice(i)
            },
        };
        self.set(value)
    }
}

// ---------------------------------------------------------------------------
// Config store
// ---------------------------------------------------------------------------

/// The config-store seam: live read/write by key.
pub trait ConfigStore {
    /// The stored value for `key`, if any.
    fn get(&self, key: &str) -> Option<String>;

    /// Store `value` under `key`.
    fn set(&mut self, key: &str, value: &str);
}

/// Whether a store may answer a key with a value.
pub open spec fn answers<S: ConfigStore>(store: S, key: Seq<char>, got: Option<String>) -> bool {
    exists|k: &str| k@ == key && #[trigger] call_ensures(S::get, (&store, k), got)
}

/// The text of an optional string.
pub open spec fn text_of(s: Option<String>) -> Option<Seq<char>> {
    match s {
        Some(t) => Some(t@),
        None => None,
    }
}

// ---------------------------------------------------------------------------
// Panels
// ---------------------------------------------------------------------------

/// A titled group of settings — one Control Center panel.
#[derive(Debug, Clone, PartialEq, Eq)]
pub struct SettingsPanel {
    /// Panel identifier (e.g. `audio`).
    pub id: String,
    /// Panel title.
    pub title: String,
    /// The panel's settings.
    pub settings: Vec<Setting>,
}

/// What a panel says.
#[verifier::ext_equal]
pub struct Panel {
    /// Panel identifier.
    pub id: Seq<char>,
    /// Panel title.
    pub title: Seq<char>,
    /// The settings.
    pub entries: Seq<Entry>,
}

impl View for SettingsPanel {
    type V = Panel;

    open spec fn view(&self) -> Panel {
        Panel { id: self.id@, title: self.title@, entries: entries(self.settings@) }
    }
}

/// The position of the first setting with a key, or the number of settings.
pub open spec fn entry_at(es: Seq<Entry>, key: Seq<char>) -> nat
    decreases es.len(),
{
    if es.len() == 0 || es[0].key == key {
        0
    } else {
        1 + entry_at(es.drop_first(), key)
    }
}

/// The first setting with a key.
pub open spec fn entry_of(es: Seq<Entry>, key: Seq<char>) -> Option<Entry> {
    if entry_at(es, key) < es.len() {
        Some(es[entry_at(es, key) as int])
    } else {
        None
    }
}

/// An entry as the answer of a store makes it.
pub open spec fn loaded(e: Entry, got: Option<Seq<char>>) -> Entry {
    match got {
        Some(raw) => restored(e, raw),
        None => e,
    }
}

/// The entries as the answers of a store make them.
pub open spec fn all_loaded(es: Seq<Entry>, got: Seq<Option<String>>) -> Seq<Entry> {
    Seq::new(es.len(), |i: int| loaded(es[i], text_of(got[i])))
}

/// What a map holds under a key.
pub open spec fn held(store: Map<Seq<char>, Seq<char>>, key: Seq<char>) -> Option<Seq<char>> {
    if store.dom().contains(key) {
        Some(store[key])
    } else {
        None
    }
}

/// The content of a store that keeps what it is given, after some entries were written to it, in
/// order.
pub open spec fn written(store: Map<Seq<char>, Seq<char>>, es: Seq<Entry>) -> Map<
    Seq<char>,
    Seq<char>,
>
    decreases es.len(),
{
    if es.len() == 0 {
        store
    } else {
        written(store.insert(es[0].key, serialized(es[0])), es.drop_first())
    }
}

proof fn lemma_entry_at(es: Seq<Entry>, key: Seq<char>, i: int)
    requires
        0 <= i <= es.len(),
        forall|j: int| 0 <= j < i ==> (#[trigger] es[j]).key != key,
        i < es.len() ==> es[i].key == key,
    ensures
        entry_at(es, key) == i,
    decreases es.len(),
{
    if i > 0 {
        let rest = es.drop_first();
        assert forall|j: int| 0 <= j < i - 1 implies (#[trigger] rest[j]).key != key by {
            assert(rest[j] == es[j + 1]);
        }
        assert(es[0].key != key);
        lemma_entry_at(rest, key, i - 1);
    }
}

impl SettingsPanel {
    fn position(&self, key: &str) -> (i: usize)
        ensures
            i <= self.settings@.len(),
            i == entry_at(self@.entries, key@),
    {
        let ghost es = entries(self.settings@);
        let mut i: usize = 0;
        while i < self.settings.len() && !str_eq(self.settings[i].key.as_str(), key)
            invariant
                i <= self.settings@.len(),
                es == entries(self.settings@),
                forall|j: int| 0 <= j < i ==> (#[trigger] es[j]).key != key@,
            decreases self.settings@.len() - i,
        {
            i = i + 1;
        }
        proof {
            lemma_entry_at(es, key@, i as int);
        }
        i
    }

    /// Find a setting by key.
    pub fn find(&self, key: &str) -> (r: Option<&Setting>)
        ensures
            match r {
                Some(s) => entry_of(self@.entries, key@) == Some(s@),
                None => entry_of(self@.entries, key@) is None,
            },
    {
        let i: usize = self.position(key);
        if i < self.settings.len() {
            Some(&self.settings[i])
        } else {
            None
        }
    }

    /// Validate and update the working value of the setting `key`.
    ///
    /// # Errors
    ///
    /// [`SettingsError::BadChoice`] if `key` is unknown (no such setting), or a validation error
    /// from [`Setting::set`].
    pub fn set(&mut self, key: &str, value: SettingValue) -> (r: Result<(), SettingsError>)
        ensures
            match entry_of(old(self)@.entries, key@) {
                None => r == Err::<(), SettingsError>(SettingsError::BadChoice) && final(self)@
                    == old(self)@,
                Some(e) => r == verdict(e.kind, value@) && final(self)@ == (Panel {
                    entries: old(self)@.entries.update(
                        entry_at(old(self)@.entries, key@) as int,
                        stored(e, value@),
                    ),
                    ..old(self)@
                }),
            },
    {
        let i: usize = self.position(key);
        if i == self.settings.len() {
            return Err(SettingsError::BadChoice);
        }
        let ghost before = self@;
        let r = self.settings[i].set(value);
        assert(self@.entries =~= before.entries.update(
            i as int,
            stored(before.entries[i as int], value@),
        ));
        r
    }

    /// Take over what a store answered for each setting, in order. A missing or unparsable answer
    /// leaves that setting at its default.
    pub fn apply(&mut self, got: &Vec<Option<String>>)
        requires
            got@.len() == old(self)@.entries.len(),
        ensures
            final(self)@ == (Panel {
                entries: all_loaded(old(self)@.entries, got@),
                ..old(self)@
            }),
    {
        let ghost before = entries(self.settings@);
        let mut i: usize = 0;
        while i < self.settings.len()
            invariant
                i <= self.settings@.len(),
                self.settings@.len() == before.len(),
                got@.len() == before.len(),
                self.id == old(self).id,
                self.title == old(self).title,
                forall|j: int|
                    0 <= j < self.settings@.len() ==> #[trigger] self.settings@[j]@ == (if j < i {
                        loaded(before[j], text_of(got@[j]))
                    } else {
                        before[j]
                    }),
            decreases self.settings@.len() - i,
        {
            match &got[i] {
                Some(raw) => {
                    let _ = self.settings[i].set_from_str(raw.as_str());
                },
                None => {},
            }
            i = i + 1;
        }
        assert(entries(self.settings@) =~= all_loaded(before, got@));
    }

    /// Load each setting's value from `store`. A missing or unparsable key leaves that setting at
    /// its default.
    pub fn load<S: ConfigStore>(&mut self, store: &S)
        ensures
            exists|got: Seq<Option<String>>|
                {
                    &&& got.len() == old(self)@.entries.len()
                    &&& forall|i: int|
                        0 <= i < got.len() ==> answers(
                            *store,
                            old(self)@.entries[i].key,
                            #[trigger] got[i],
                        )
                    &&& final(self)@ == (Panel {
                        entries: #[trigger] all_loaded(old(self)@.entries, got),
                        ..old(self)@
                    })
                },
    {
        let mut got: Vec<Option<String>> = Vec::new();
        let ghost es = self@.entries;
        let mut i: usize = 0;
        while i < self.settings.len()
            invariant
                i <= self.settings@.len(),
                es == entries(self.settings@),
                got@.len() == i,
                forall|j: int| 0 <= j < i ==> answers(*store, es[j].key, #[trigger] got@[j]),
            decreases self.settings@.len() - i,
        {
            let key = self.settings[i].key.as_str();
            let raw = store.get(key);
            assert(key@ == es[i as int].key);
            assert(answers(*store, es[i as int].key, raw));
            got.push(raw);
            i = i + 1;
        }
        self.apply(&got);
    }

    /// What a commit writes: the key and the text of every setting, in order.
    ///
    /// The least `i64` has no serialised form.
    pub fn texts(&self) -> (r: Vec<(String, String)>)
        requires
            forall|i: int|
                0 <= i < self@.entries.len() ==> (#[trigger] self@.entries[i]).value
                    != Value::Number(i64::MIN),
        ensures
            r@.len() == self@.entries.len(),
            forall|i: int|
                0 <= i < r@.len() ==> (#[trigger] r@[i]).0@ == self@.entries[i].key && r@[i].1@
                    == serialized(self@.entries[i]),
    {
        let mut out: Vec<(String, String)> = Vec::new();
        let ghost es = self@.entries;
        let mut i: usize = 0;
        while i < self.settings.len()
            invariant
                i <= self.settings@.len(),
                es == entries(self.settings@),
                forall|i: int|
                    0 <= i < es.len() ==> (#[trigger] es[i]).value != Value::Number(i64::MIN),
                out@.len() == i,
                forall|j: int|
                    0 <= j < i ==> (#[trigger] out@[j]).0@ == es[j].key && out@[j].1@ == serialized(
                        es[j],
                    ),
            decreases self.settings@.len() - i,
        {
            assert(es[i as int] == self.settings@[i as int]@);
            out.push((self.settings[i].key.clone(), self.settings[i].serialize_value()));
            i = i + 1;
        }
        out
    }

    /// Persist every setting to `store`: each is written once, in order.
    ///
    /// The least `i64` has no serialised form.
    pub fn commit<S: ConfigStore>(&self, store: &mut S)
        requires
            forall|i: int|
                0 <= i < self@.entries.len() ==> (#[trigger] self@.entries[i]).value
                    != Value::Number(i64::MIN),
        ensures
            exists|steps: Seq<S>|
                {
                    &&& #[trigger] steps.len() == self@.entries.len() + 1
                    &&& steps[0] == *old(store)
                    &&& steps[self@.entries.len() as int] == *final(store)
                    &&& forall|i: int|
                        0 <= i < self@.entries.len() ==> exists|m: &mut S, k: &str, v: &str|
                            {
                                &&& *m == #[trigger] steps[i]
                                &&& *final(m) == steps[i + 1]
                                &&& k@ == self@.entries[i].key
                                &&& v@ == serialized(self@.entries[i])
                                &&& #[trigger] call_ensures(S::set, (m, k, v), ())
                            }
                },
    {
        let texts = self.texts();
        let ghost es = self@.entries;
        let ghost mut steps: Seq<S> = seq![*store];
        let len: usize = texts.len();
        let mut i: usize = 0;
        while i < len
            invariant
                i <= len,
                len == es.len(),
                len == texts@.len(),
                forall|j: int|
                    0 <= j < len ==> (#[trigger] texts@[j]).0@ == es[j].key && texts@[j].1@
                        == serialized(es[j]),
                steps.len() == i + 1,
                steps[0] == *old(store),
                steps[i as int] == *store,
                forall|j: int|
                    0 <= j < i ==> exists|m: &mut S, k: &str, v: &str|
                        {
                            &&& *m == #[trigger] steps[j]
                            &&& *final(m) == steps[j + 1]
                            &&& k@ == es[j].key
                            &&& v@ == serialized(es[j])
                            &&& #[trigger] call_ensures(S::set, (m, k, v), ())
                        },
            decreases len - i,
        {
            store.set(texts[i].0.as_str(), texts[i].1.as_str());
            proof {
                steps = steps.push(*store);
            }
            i = i + 1;
        }
    }
}

// ---------------------------------------------------------------------------
// Round trip
// ---------------------------------------------------------------------------

/// Whether the value of an entry is valid and can be told from its serialised form: no earlier
/// option has the label of the chosen one.
pub open spec fn restorable(e: Entry) -> bool {
    &&& verdict(e.kind, e.value) is Ok
    &&& e.value != Value::Number(i64::MIN)
    &&& match (e.kind, e.value) {
        (Kind::Select { options }, Value::Choice(i)) => forall|j: int|
            0 <= j < i ==> options[j] != options[i as int],
        _ => true,
    }
}

/// A serialised value is read back.
pub proof fn law_value_round_trip(e: Entry)
    requires
        restorable(e),
    ensures
        parsed(e.kind, serialized(e)) == Some(e.value),
{
    match (e.kind, e.value) {
        (Kind::Toggle, Value::Toggle(b)) => {
            reveal_strlit("true");
            reveal_strlit("false");
            assert("true"@[0] == 't');
            assert("false"@[0] == 'f');
        },
        (Kind::Range { .. }, Value::Number(n)) => {
            let m: nat = if n < 0 {
                (-n) as nat
            } else {
                n as nat
            };
            let d = crate::strings::decimal(m);
            crate::strings::lemma_decimal_round_trip(m);
            assert(crate::strings::is_digit(d[0]));
            if n < 0 {
                assert((seq!['-'] + d).drop_first() == d);
            }
        },
        (Kind::Select { options }, Value::Choice(i)) => {
            lemma_option_at(options, options[i as int], i as int);
        },
        _ => {},
    }
}

proof fn lemma_written(store: Map<Seq<char>, Seq<char>>, es: Seq<Entry>, i: int)
    requires
        0 <= i < es.len(),
        forall|j: int| i < j < es.len() ==> (#[trigger] es[j]).key != es[i].key,
    ensures
        written(store, es).dom().contains(es[i].key),
        written(store, es)[es[i].key] == serialized(es[i]),
    decreases es.len(),
{
    let rest = es.drop_first();
    let next = store.insert(es[0].key, serialized(es[0]));
    if i > 0 {
        assert(rest[i - 1] == es[i]);
        assert forall|j: int| i - 1 < j < rest.len() implies (#[trigger] rest[j]).key
            != rest[i - 1].key by {
            assert(rest[j] == es[j + 1]);
        }
        lemma_written(next, rest, i - 1);
    } else {
        assert forall|j: int| 0 <= j < rest.len() implies (#[trigger] rest[j]).key
            != es[0].key by {
            assert(rest[j] == es[j + 1]);
        }
        lemma_not_written(next, rest, es[0].key);
    }
}

proof fn lemma_not_written(store: Map<Seq<char>, Seq<char>>, es: Seq<Entry>, key: Seq<char>)
    requires
        forall|j: int| 0 <= j < es.len() ==> (#[trigger] es[j]).key != key,
    ensures
        written(store, es).dom().contains(key) == store.dom().contains(key),
        written(store, es)[key] == store[key],
    decreases es.len(),
{
    if es.len() > 0 {
        let rest = es.drop_first();
        assert forall|j: int| 0 <= j < rest.len() implies (#[trigger] rest[j]).key != key by {
            assert(rest[j] == es[j + 1]);
        }
        assert(es[0].key != key);
        lemma_not_written(store.insert(es[0].key, serialized(es[0])), rest, key);
    }
}

/// A panel that is committed to a store which keeps what it is given, gives its values to every
/// panel with the same keys and kinds that is then loaded from it, whatever those held before.
pub proof fn law_commit_then_load(
    store: Map<Seq<char>, Seq<char>>,
    panel: Seq<Entry>,
    other: Seq<Entry>,
    i: int,
)
    requires
        panel.len() == other.len(),
        forall|j: int| #![trigger panel[j]] #![trigger other[j]]
            0 <= j < panel.len() ==> panel[j].key == other[j].key && panel[j].kind
                == other[j].kind,
        forall|j: int| 0 <= j < panel.len() ==> restorable(#[trigger] panel[j]),
        forall|j: int, k: int|
            0 <= j < k < panel.len() ==> (#[trigger] panel[j]).key != (#[trigger] panel[k]).key,
        0 <= i < panel.len(),
    ensures
        loaded(other[i], held(written(store, panel), other[i].key)).value == panel[i].value,
{
    lemma_written(store, panel, i);
    law_value_round_trip(panel[i]);
    assert(panel[i].key == other[i].key && panel[i].kind == other[i].kind);
}

/// A value that was rejected changes nothing, and one that was accepted is valid for its kind.
pub proof fn law_set_keeps_validity(e: Entry, value: Value)
    requires
        verdict(e.kind, e.value) is Ok,
    ensures
        verdict(stored(e, value).kind, stored(e, value).value) is Ok,
        verdict(e.kind, value) is Err ==> stored(e, value) == e,
{
}

// ---------------------------------------------------------------------------
// Constructors
// ---------------------------------------------------------------------------

/// A toggle.
pub open spec fn toggle_entry(key: Seq<char>, label: Seq<char>, on: bool) -> Entry {
    Entry { key, label, kind: Kind::Toggle, value: Value::Toggle(on) }
}

/// A number in a range.
pub open spec fn range_entry(
    key: Seq<char>,
    label: Seq<char>,
    min: i64,
    max: i64,
    value: i64,
) -> Entry {
    Entry { key, label, kind: Kind::Range { min, max }, value: Value::Number(value) }
}

/// One of some options.
pub open spec fn select_entry(
    key: Seq<char>,
    label: Seq<char>,
    options: Seq<Seq<char>>,
    chosen: nat,
) -> Entry {
    Entry { key, label, kind: Kind::Select { options }, value: Value::Choice(chosen) }
}

/// The characters of each string slice of a list.
pub open spec fn labels(options: Seq<&str>) -> Seq<Seq<char>> {
    options.map_values(|o: &str| o@)
}

/// A toggle setting.
pub(crate) fn toggle(key: &str, label: &str, on: bool) -> (r: Setting)
    ensures
        r@ == toggle_entry(key@, label@, on),
{
    Setting {
        key: key.to_owned(),
        label: label.to_owned(),
        kind: SettingKind::Toggle,
        value: SettingValue::Toggle(on),
    }
}

/// A number setting.
pub fn range(key: &str, label: &str, min: i64, max: i64, value: i64) -> (r: Setting)
    ensures
        r@ == range_entry(key@, label@, min, max, value),
{
    Setting {
        key: key.to_owned(),
        label: label.to_owned(),
        kind: SettingKind::Range { min, max },
        value: SettingValue::Number(value),
    }
}

/// A setting with a fixed set of options.
pub fn select(key: &str, label: &str, options: &[&str], chosen: usize) -> (r: Setting)
    ensures
        r@ == select_entry(key@, label@, labels(options@), chosen as nat),
{
    let mut owned: Vec<String> = Vec::new();
    let mut i: usize = 0;
    while i < options.len()
        invariant
            i <= options@.len(),
            owned@.len() == i,
            forall|j: int| 0 <= j < i ==> #[trigger] owned@[j]@ == options@[j]@,
        decreases options@.len() - i,
    {
        owned.push(options[i].to_owned());
        i = i + 1;
    }
    assert(crate::lists::texts(owned@) =~= labels(options@));
    Setting {
        key: key.to_owned(),
        label: label.to_owned(),
        kind: SettingKind::Select { options: owned },
        value: SettingValue::Choice(chosen),
    }
}

/// A setting is found by its key: it is the first one that has it, and there is none where no setting
/// has it. An option is found by its label in the same way.
pub proof fn law_settings_are_found_by_key(
    es: Seq<Entry>,
    key: Seq<char>,
    options: Seq<Seq<char>>,
    label: Seq<char>,
)
    ensures
        match entry_of(es, key) {
            Some(e) => es.contains(e) && e.key == key,
            None => forall|j: int| 0 <= j < es.len() ==> (#[trigger] es[j]).key != key,
        },
        entry_at(es, key) <= es.len(),
        forall|j: int| 0 <= j < entry_at(es, key) ==> (#[trigger] es[j]).key != key,
        option_at(options, label) <= options.len(),
        option_at(options, label) < options.len() ==> options[option_at(options, label) as int]
            == label,
        forall|j: int| 0 <= j < option_at(options, label) ==> #[trigger] options[j] != label,
    decreases es.len() + options.len(),
{
    if es.len() > 0 && es[0].key != key {
        let rest = es.drop_first();
        law_settings_are_found_by_key(rest, key, options, label);
        assert forall|j: int| 0 <= j < entry_at(es, key) implies (#[trigger] es[j]).key != key by {
            if j > 0 {
                assert(rest[j - 1] == es[j]);
            }
        }
        assert forall|j: int| 0 <= j < es.len() && entry_at(es, key) >= es.len() implies (
        #[trigger] es[j]).key != key by {}
        if entry_at(es, key) < es.len() {
            assert(rest[entry_at(rest, key) as int] == es[entry_at(es, key) as int]);
        }
    } else if options.len() > 0 && options[0] != label {
        let rest = options.drop_first();
        law_settings_are_found_by_key(es, key, rest, label);
        assert forall|j: int| 0 <= j < option_at(options, label) implies #[trigger] options[j]
            != label by {
            if j > 0 {
                assert(rest[j - 1] == options[j]);
            }
        }
    }
}

/// A setting takes the values of its kind: numbers from its smallest to its largest, and choices
/// among its options. A value of another kind is refused as such.
pub proof fn law_settings_take_values_of_their_kind(kind: Kind, value: Value)
    ensures
        verdict(kind, value) is Ok <==> {
            ||| kind is Toggle && value is Toggle
            ||| kind is Text && value is Text
            ||| (kind matches Kind::Range { min, max } && value matches Value::Number(n) && min <= n
                && n <= max)
            ||| (kind matches Kind::Select { options } && value matches Value::Choice(i) && i
                < options.len())
        },
        verdict(kind, value) == Err::<(), SettingsError>(SettingsError::TypeMismatch) <==> !(kind is
            Toggle && value is Toggle) && !(kind is Text && value is Text) && !(kind is Range
            && value is Number) && !(kind is Select && value is Choice),
{
}

} // verus!
