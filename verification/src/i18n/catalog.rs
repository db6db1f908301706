//! Message catalogs and the registry that resolves a message through them.
//!
//! NexaCore ships English strings in code. A [`Catalog`] maps them to the strings
//! of one locale, and [`Catalog::parse`] reads one from catalog text. A
//! [`Localization`] holds several catalogs and an active locale, and resolves a
//! message through the active locale, then the fallback locale, then the message
//! itself.

use vstd::prelude::*;

use crate::strings::{
    find_from, from_range, is_empty, parse_digits, starts_with, str_eq, to_chars, trim_range,
};
use crate::strmap::StrMap;

verus! {

/// What a catalog holds.
pub struct CatalogView {
    /// The locale tag.
    pub locale: Seq<char>,
    /// Singular messages: source string to translation.
    pub singular: Map<Seq<char>, Seq<char>>,
    /// Plural messages: source string to the translated forms.
    pub plural: Map<Seq<char>, Seq<Seq<char>>>,
}

/// A message catalog for a single locale.
///
/// Holds singular messages (source string to translation) and plural messages
/// (source string to the list of translated forms).
#[derive(Debug, Clone, PartialEq, Eq)]
pub struct Catalog {
    locale: String,
    singular: StrMap<String>,
    plural: StrMap<Vec<String>>,
}

/// Why catalog text was rejected.
#[derive(Debug, Clone, Copy, PartialEq, Eq, Structural)]
pub struct ParseError {
    /// 1-based line number of the offending line.
    pub line: usize,
    /// What was wrong.
    pub kind: ParseErrorKind,
}

/// The class of a [`ParseError`].
#[derive(Debug, Clone, Copy, PartialEq, Eq, Structural)]
pub enum ParseErrorKind {
    /// A quoted string was missing or unbalanced.
    Malformed,
    /// An unknown leading keyword (not `msgid`/`msgid_plural`/`msgstr`).
    UnknownKeyword,
    /// A `msgstr` appeared before any `msgid`.
    OrphanMsgstr,
    /// A `msgstr[i]` index was not a number.
    BadIndex,
    /// An unsupported backslash escape.
    BadEscape,
}

// ---------------------------------------------------------------------------
// The catalog text format
// ---------------------------------------------------------------------------

/// The character that a backslash followed by `c` stands for.
pub open spec fn escape_code(c: char) -> Option<char> {
    if c == 'n' {
        Some('\n')
    } else if c == 't' {
        Some('\t')
    } else if c == '"' || c == '\\' {
        Some(c)
    } else {
        None
    }
}

/// `head` put in front of a reading.
pub open spec fn prepend(
    head: Seq<char>,
    rest: Result<Seq<char>, ParseErrorKind>,
) -> Result<Seq<char>, ParseErrorKind> {
    match rest {
        Ok(t) => Ok(head + t),
        Err(k) => Err(k),
    }
}

/// The text that the inside of a quoted literal denotes. The leftmost fault decides the error.
pub open spec fn unescape(s: Seq<char>) -> Result<Seq<char>, ParseErrorKind>
    decreases s.len(),
{
    if s.len() == 0 {
        Ok(Seq::empty())
    } else if s[0] == '\\' {
        if s.len() >= 2 && escape_code(s[1]) is Some {
            prepend(seq![escape_code(s[1])->0], unescape(s.skip(2)))
        } else {
            Err(ParseErrorKind::BadEscape)
        }
    } else if s[0] == '"' {
        Err(ParseErrorKind::Malformed)
    } else {
        prepend(seq![s[0]], unescape(s.drop_first()))
    }
}

/// The text of a double-quoted literal, with white space around it ignored.
pub open spec fn read_quoted(s: Seq<char>) -> Result<Seq<char>, ParseErrorKind> {
    let t = crate::strings::trim(s);
    if t.len() >= 2 && t[0] == '"' && t.last() == '"' {
        unescape(t.subrange(1, t.len() - 1))
    } else {
        Err(ParseErrorKind::Malformed)
    }
}

/// One line of catalog text.
pub enum PoLine {
    /// Nothing to record: a blank line, a comment, or a `msgid_plural`.
    Skip,
    /// `msgid`: a new entry.
    Id(Seq<char>),
    /// `msgstr`: the singular translation.
    Str(Seq<char>),
    /// `msgstr[i]`: one plural form.
    Form(nat, Seq<char>),
}

/// The index of a plural form.
pub open spec fn read_index(s: Seq<char>) -> Option<nat> {
    match crate::strings::read_decimal(s) {
        Some(n) => if n <= usize::MAX {
            Some(n)
        } else {
            None
        },
        None => None,
    }
}

/// The meaning of a trimmed line. `open` tells whether an entry was begun.
pub open spec fn read_line(line: Seq<char>, open: bool) -> Result<PoLine, ParseErrorKind> {
    if line.len() == 0 || line[0] == '#' {
        Ok(PoLine::Skip)
    } else if crate::strings::has_prefix(line, "msgid_plural"@) {
        match read_quoted(line.skip("msgid_plural"@.len() as int)) {
            Ok(_) => Ok(PoLine::Skip),
            Err(k) => Err(k),
        }
    } else if crate::strings::has_prefix(line, "msgid"@) {
        match read_quoted(line.skip("msgid"@.len() as int)) {
            Ok(s) => Ok(PoLine::Id(s)),
            Err(k) => Err(k),
        }
    } else if crate::strings::has_prefix(line, "msgstr["@) {
        let rest = line.skip("msgstr["@.len() as int);
        let close = crate::strings::find_char(rest, ']');
        if close >= rest.len() {
            Err(ParseErrorKind::Malformed)
        } else if read_index(rest.take(close)) is None {
            Err(ParseErrorKind::BadIndex)
        } else if !open {
            Err(ParseErrorKind::OrphanMsgstr)
        } else {
            match read_quoted(rest.skip(close + 1)) {
                Ok(s) => Ok(PoLine::Form(read_index(rest.take(close))->0, s)),
                Err(k) => Err(k),
            }
        }
    } else if crate::strings::has_prefix(line, "msgstr"@) {
        if !open {
            Err(ParseErrorKind::OrphanMsgstr)
        } else {
            match read_quoted(line.skip("msgstr"@.len() as int)) {
                Ok(s) => Ok(PoLine::Str(s)),
                Err(k) => Err(k),
            }
        }
    } else {
        Err(ParseErrorKind::UnknownKeyword)
    }
}

/// A catalog under construction, with the entry that is being read.
pub struct PoState {
    /// The finished entries.
    pub cat: CatalogView,
    /// The open entry's source string.
    pub id: Option<Seq<char>>,
    /// The open entry's singular translation.
    pub singular: Option<Seq<char>>,
    /// The open entry's plural forms, by ascending index.
    pub forms: Seq<(nat, Seq<char>)>,
}

/// `forms` with the form `i` set to `s`, kept by ascending index.
pub open spec fn put_form(forms: Seq<(nat, Seq<char>)>, i: nat, s: Seq<char>) -> Seq<
    (nat, Seq<char>),
>
    decreases forms.len(),
{
    if forms.len() == 0 || i < forms[0].0 {
        seq![(i, s)] + forms
    } else if forms[0].0 == i {
        seq![(i, s)] + forms.drop_first()
    } else {
        seq![forms[0]] + put_form(forms.drop_first(), i, s)
    }
}

/// The texts of a list of plural forms, gaps in the indexes dropped.
pub open spec fn packed(forms: Seq<(nat, Seq<char>)>) -> Seq<Seq<char>> {
    forms.map_values(|f: (nat, Seq<char>)| f.1)
}

/// The catalog once the open entry is recorded.
pub open spec fn closed_entry(st: PoState) -> CatalogView {
    match st.id {
        None => st.cat,
        Some(id) => CatalogView {
            locale: st.cat.locale,
            singular: match st.singular {
                Some(s) => st.cat.singular.insert(id, s),
                None => st.cat.singular,
            },
            plural: if st.forms.len() > 0 {
                st.cat.plural.insert(id, packed(st.forms))
            } else {
                st.cat.plural
            },
        },
    }
}

/// The state after one line.
pub open spec fn step(st: PoState, line: PoLine) -> PoState {
    match line {
        PoLine::Skip => st,
        PoLine::Id(s) => PoState {
            cat: closed_entry(st),
            id: Some(s),
            singular: None,
            forms: Seq::empty(),
        },
        PoLine::Str(s) => PoState { singular: Some(s), ..st },
        PoLine::Form(i, s) => PoState { forms: put_form(st.forms, i, s), ..st },
    }
}

/// The catalog read from `lines`, the first of which is line `lineno`, starting in `st`. The
/// first line that cannot be read decides the error.
pub open spec fn read_lines(st: PoState, lines: Seq<Seq<char>>, lineno: nat) -> Result<
    CatalogView,
    ParseError,
>
    decreases lines.len(),
{
    if lines.len() == 0 {
        Ok(closed_entry(st))
    } else {
        match read_line(crate::strings::trim(lines[0]), st.id is Some) {
            Err(kind) => Err(ParseError { line: lineno as usize, kind }),
            Ok(l) => read_lines(step(st, l), lines.drop_first(), lineno + 1),
        }
    }
}

/// An empty catalog.
pub open spec fn empty_catalog(locale: Seq<char>) -> CatalogView {
    CatalogView { locale, singular: Map::empty(), plural: Map::empty() }
}

/// The state before the first line.
pub open spec fn start(locale: Seq<char>) -> PoState {
    PoState { cat: empty_catalog(locale), id: None, singular: None, forms: Seq::empty() }
}

/// The catalog that `text` describes.
pub open spec fn parsed(locale: Seq<char>, text: Seq<char>) -> Result<CatalogView, ParseError> {
    read_lines(start(locale), crate::strings::lines(text), 1)
}

/// Whether a catalog view translates a message: an entry that is still empty does not.
pub open spec fn is_translated(c: CatalogView, msgid: Seq<char>) -> bool {
    c.singular.dom().contains(msgid) && c.singular[msgid].len() > 0
}

/// Whether a catalog view translates a plural message, in one form at least.
pub open spec fn is_plural_translated(c: CatalogView, msgid: Seq<char>) -> bool {
    c.plural.dom().contains(msgid) && exists|k: int|
        0 <= k < c.plural[msgid].len() && (#[trigger] c.plural[msgid][k]).len() > 0
}

/// The translation that a catalog view has for a message, or the message itself.
pub open spec fn lookup(c: CatalogView, msgid: Seq<char>) -> Seq<char> {
    if is_translated(c, msgid) {
        c.singular[msgid]
    } else {
        msgid
    }
}

/// The form `index` of a plural message, or its last form when there are fewer.
pub open spec fn plural_lookup(c: CatalogView, msgid: Seq<char>, index: nat) -> Option<Seq<char>> {
    if c.plural.dom().contains(msgid) && c.plural[msgid].len() > 0 {
        let forms = c.plural[msgid];
        Some(
            forms[if index < forms.len() {
                index as int
            } else {
                forms.len() - 1
            }],
        )
    } else {
        None
    }
}

impl Default for Catalog {
    /// An empty catalog whose locale tag is empty.
    fn default() -> (r: Self)
        ensures
            r.wf(),
            r@ == empty_catalog(Seq::empty()),
    {
        let r = Catalog::new("");
        proof {
            reveal_strlit("");
        }
        assert(""@ =~= Seq::empty());
        r
    }
}

impl Catalog {
    /// What the catalog holds.
    pub closed spec fn view(&self) -> CatalogView {
        CatalogView {
            locale: self.locale@,
            singular: self.singular@.map_values(|s: String| s@),
            plural: self.plural@.map_values(|v: Vec<String>| crate::lists::texts(v@)),
        }
    }

    /// Both tables are in order.
    pub closed spec fn wf(&self) -> bool {
        self.singular.wf() && self.plural.wf()
    }

    /// An empty catalog for `locale` (a tag such as `"it"` or `"pt-BR"`).
    pub fn new(locale: &str) -> (r: Self)
        ensures
            r.wf(),
            r@ == empty_catalog(locale@),
    {
        let r = Catalog {
            locale: locale.to_owned(),
            singular: StrMap::new(),
            plural: StrMap::new(),
        };
        assert(r@.singular =~= Map::empty());
        assert(r@.plural =~= Map::empty());
        r
    }

    /// The locale tag this catalog is for.
    pub fn locale(&self) -> (r: &str)
        ensures
            r@ == self@.locale,
    {
        self.locale.as_str()
    }

    /// Inserts (or replaces) a singular translation.
    pub fn insert(&mut self, msgid: &str, msgstr: &str)
        requires
            old(self).wf(),
        ensures
            final(self).wf(),
            final(self)@ == (CatalogView {
                singular: old(self)@.singular.insert(msgid@, msgstr@),
                ..old(self)@
            }),
    {
        self.insert_owned(msgid.to_owned(), msgstr.to_owned());
    }

    fn insert_owned(&mut self, msgid: String, msgstr: String)
        requires
            old(self).wf(),
        ensures
            final(self).wf(),
            final(self)@ == (CatalogView {
                singular: old(self)@.singular.insert(msgid@, msgstr@),
                ..old(self)@
            }),
    {
        self.singular.insert(msgid, msgstr);
        assert(self@.singular =~= old(self)@.singular.insert(msgid@, msgstr@));
    }

    fn insert_forms(&mut self, msgid: String, forms: Vec<String>)
        requires
            old(self).wf(),
        ensures
            final(self).wf(),
            final(self)@ == (CatalogView {
                plural: old(self)@.plural.insert(msgid@, crate::lists::texts(forms@)),
                ..old(self)@
            }),
    {
        self.plural.insert(msgid, forms);
        assert(self@.plural =~= old(self)@.plural.insert(msgid@, crate::lists::texts(forms@)));
    }

    /// Inserts (or replaces) a plural translation: `forms[i]` is form `i`.
    pub fn insert_plural(&mut self, msgid: &str, forms: &[&str])
        requires
            old(self).wf(),
        ensures
            final(self).wf(),
            final(self)@ == (CatalogView {
                plural: old(self)@.plural.insert(msgid@, forms@.map_values(|s: &str| s@)),
                ..old(self)@
            }),
    {
        let mut owned: Vec<String> = Vec::new();
        let mut i: usize = 0;
        while i < forms.len()
            invariant
                i <= forms@.len(),
                owned@.len() == i,
                forall|j: int| 0 <= j < i ==> (#[trigger] owned@[j])@ == forms@[j]@,
            decreases forms@.len() - i,
        {
            owned.push(forms[i].to_owned());
            i = i + 1;
        }
        assert(crate::lists::texts(owned@) =~= forms@.map_values(|s: &str| s@));
        self.insert_forms(msgid.to_owned(), owned);
    }

    /// Number of singular entries.
    pub fn len(&self) -> (r: usize)
        requires
            self.wf(),
        ensures
            r == self@.singular.dom().len(),
            self@.singular.dom().finite(),
    {
        assert(self@.singular.dom() =~= self.singular@.dom());
        self.singular.len()
    }

    /// `true` when the catalog has no singular entries.
    pub fn is_empty(&self) -> (r: bool)
        requires
            self.wf(),
        ensures
            r == (self@.singular.dom() =~= Set::<Seq<char>>::empty()),
    {
        let n: usize = self.len();
        proof {
            if n == 0 {
                self@.singular.dom().lemma_len0_is_empty();
            }
        }
        n == 0
    }

    /// Looks up a singular translation, or `None` when `msgid` is untranslated.
    pub fn get(&self, msgid: &str) -> (r: Option<&str>)
        requires
            self.wf(),
        ensures
            match r {
                Some(s) => self@.singular.dom().contains(msgid@) && s@ == self@.singular[msgid@],
                None => !self@.singular.dom().contains(msgid@),
            },
    {
        match self.singular.get(msgid) {
            Some(s) => Some(s.as_str()),
            None => None,
        }
    }

    /// The form `index` of a plural message, clamped to the last available form.
    ///
    /// Returns `None` when `msgid` has no plural form.
    pub fn plural_form(&self, msgid: &str, index: usize) -> (r: Option<&str>)
        requires
            self.wf(),
        ensures
            match r {
                Some(s) => plural_lookup(self@, msgid@, index as nat) == Some(s@),
                None => plural_lookup(self@, msgid@, index as nat) is None,
            },
    {
        match self.plural.get(msgid) {
            None => None,
            Some(forms) => {
                assert(self@.plural[msgid@] == crate::lists::texts(forms@));
                if forms.len() == 0 {
                    None
                } else {
                    let i: usize = if index < forms.len() {
                        index
                    } else {
                        forms.len() - 1
                    };
                    Some(forms[i].as_str())
                }
            },
        }
    }

    /// Copies every form of a plural message of `other` into this catalog, if it is translated
    /// there.
    pub fn copy_plural(&mut self, other: &Catalog, msgid: &str)
        requires
            old(self).wf(),
            other.wf(),
        ensures
            final(self).wf(),
            final(self)@ == (CatalogView {
                plural: if is_plural_translated(other@, msgid@) {
                    old(self)@.plural.insert(msgid@, other@.plural[msgid@])
                } else {
                    old(self)@.plural
                },
                ..old(self)@
            }),
    {
        if let Some(forms) = other.plural.get(msgid) {
            assert(other@.plural[msgid@] == crate::lists::texts(forms@));
            let mut owned: Vec<String> = Vec::new();
            let mut filled = false;
            let ghost texts = crate::lists::texts(forms@);
            let mut i: usize = 0;
            while i < forms.len()
                invariant
                    i <= forms@.len(),
                    texts == crate::lists::texts(forms@),
                    owned@.len() == i,
                    forall|j: int| 0 <= j < i ==> (#[trigger] owned@[j])@ == forms@[j]@,
                    filled == exists|k: int| 0 <= k < i && (#[trigger] texts[k]).len() > 0,
                decreases forms@.len() - i,
            {
                assert(texts[i as int] == forms@[i as int]@);
                if !is_empty(forms[i].as_str()) {
                    filled = true;
                }
                owned.push(forms[i].clone());
                i = i + 1;
            }
            if filled {
                assert(crate::lists::texts(owned@) =~= crate::lists::texts(forms@));
                self.insert_forms(msgid.to_owned(), owned);
            }
        }
    }

    /// Looks up a plural translation, selecting the form for count `n` via `rule`.
    ///
    /// The form index `rule(n)` is clamped to the last available form, so a
    /// catalog that only provides one form still resolves. Returns `None` when
    /// `msgid` has no plural form.
    pub fn get_plural<F: Fn(u64) -> usize>(&self, msgid: &str, n: u64, rule: F) -> (r: Option<&str>)
        requires
            self.wf(),
            call_requires(rule, (n,)),
        ensures
            exists|index: usize| #[trigger]
                call_ensures(rule, (n,), index) && match r {
                    Some(s) => plural_lookup(self@, msgid@, index as nat) == Some(s@),
                    None => plural_lookup(self@, msgid@, index as nat) is None,
                },
    {
        let index: usize = rule(n);
        self.plural_form(msgid, index)
    }

    /// Parses catalog text in the line-based format.
    ///
    /// Recognised lines (blank lines and `#`-comments are ignored):
    ///
    /// ```text
    /// msgid "source string"
    /// msgstr "translation"
    ///
    /// msgid "one item"
    /// msgid_plural "many items"
    /// msgstr[0] "un elemento"
    /// msgstr[1] "molti elementi"
    /// ```
    ///
    /// String literals are double-quoted and support the escapes `\"`, `\\`,
    /// `\n`, and `\t`. An entry ends at the next `msgid` or end of input.
    ///
    /// # Errors
    ///
    /// Returns [`ParseError`] on a malformed line (missing quotes, an unknown
    /// keyword, a bad escape, `msgstr` without a preceding `msgid`, or a
    /// `msgstr[i]` index that is not a number).
    pub fn parse(locale: &str, text: &str) -> (r: Result<Self, ParseError>)
        ensures
            match r {
                Ok(c) => c.wf() && parsed(locale@, text@) == Ok::<CatalogView, ParseError>(c@),
                Err(e) => parsed(locale@, text@) == Err::<CatalogView, ParseError>(e),
            },
    {
        let v = to_chars(text);
        let mut cat = Catalog::new(locale);
        let mut cur_id: Option<String> = None;
        let mut cur_singular: Option<String> = None;
        let mut cur_forms: Vec<(usize, String)> = Vec::new();
        let mut pos: usize = 0;
        let mut lineno: usize = 1;
        proof {
            assert(v@.skip(0) == v@);
            assert(forms_view(cur_forms@) =~= Seq::empty());
        }
        while pos < v.len()
            invariant
                pos <= v@.len(),
                lineno <= pos + 1,
                lineno >= 1,
                cat.wf(),
                v@ == text@,
                read_lines(
                    entry_state(cat@, cur_id, cur_singular, cur_forms@),
                    crate::strings::lines(v@.skip(pos as int)),
                    lineno as nat,
                ) == parsed(locale@, text@),
            decreases v@.len() - pos,
        {
            let ghost st = entry_state(cat@, cur_id, cur_singular, cur_forms@);
            let ghost here = v@.skip(pos as int);
            let eol = find_from(v.as_slice(), pos, v.len(), '\n');
            let (a, b) = trim_range(v.as_slice(), pos, eol);
            let ghost line = v@.subrange(a as int, b as int);
            proof {
                assert(v@.subrange(pos as int, v@.len() as int) == here);
                assert(here.take(eol - pos) == v@.subrange(pos as int, eol as int));
                let rest = crate::strings::lines(here).drop_first();
                assert(crate::strings::lines(here)[0] == v@.subrange(pos as int, eol as int));
                if eol < v@.len() {
                    assert(here.skip(eol - pos + 1) == v@.skip(eol + 1));
                    assert(rest == crate::strings::lines(v@.skip(eol + 1)));
                } else {
                    assert(rest == Seq::<Seq<char>>::empty());
                }
            }
            let open = cur_id.is_some();
            match scan_line(v.as_slice(), a, b, open, lineno) {
                Err(e) => {
                    return Err(e);
                },
                Ok(Scanned::Skip) => {},
                Ok(Scanned::Id(s)) => {
                    flush_entry(&mut cat, cur_id, cur_singular, &cur_forms);
                    cur_id = Some(s);
                    cur_singular = None;
                    cur_forms = Vec::new();
                    assert(forms_view(cur_forms@) =~= Seq::empty());
                },
                Ok(Scanned::Str(s)) => {
                    cur_singular = Some(s);
                },
                Ok(Scanned::Form(i, s)) => {
                    set_form(&mut cur_forms, i, s);
                },
            }
            if eol == v.len() {
                proof {
                    reveal_with_fuel(read_lines, 2);
                }
                flush_entry(&mut cat, cur_id, cur_singular, &cur_forms);
                return Ok(cat);
            }
            pos = eol + 1;
            if pos < v.len() {
                lineno = lineno + 1;
            } else {
                assert(v@.skip(pos as int) =~= Seq::empty());
                proof {
                    reveal_with_fuel(read_lines, 2);
                }
            }
        }
        proof {
            assert(v@.skip(pos as int) =~= Seq::empty());
        }
        flush_entry(&mut cat, cur_id, cur_singular, &cur_forms);
        Ok(cat)
    }
}

/// One line of catalog text, read.
enum Scanned {
    Skip,
    Id(String),
    Str(String),
    Form(usize, String),
}

/// What a line that was read means.
spec fn scanned(s: Scanned) -> PoLine {
    match s {
        Scanned::Skip => PoLine::Skip,
        Scanned::Id(t) => PoLine::Id(t@),
        Scanned::Str(t) => PoLine::Str(t@),
        Scanned::Form(i, t) => PoLine::Form(i as nat, t@),
    }
}

/// The plural forms read so far.
spec fn forms_view(f: Seq<(usize, String)>) -> Seq<(nat, Seq<char>)> {
    f.map_values(|e: (usize, String)| (e.0 as nat, e.1@))
}

/// The reading state that the loop variables stand for.
spec fn entry_state(
    cat: CatalogView,
    id: Option<String>,
    singular: Option<String>,
    forms: Seq<(usize, String)>,
) -> PoState {
    PoState {
        cat,
        id: match id {
            Some(s) => Some(s@),
            None => None,
        },
        singular: match singular {
            Some(s) => Some(s@),
            None => None,
        },
        forms: forms_view(forms),
    }
}

/// Reads the trimmed line that stands at `a .. b`.
fn scan_line(v: &[char], a: usize, b: usize, open: bool, lineno: usize) -> (r: Result<
    Scanned,
    ParseError,
>)
    requires
        a <= b <= v@.len(),
    ensures
        match r {
            Ok(s) => read_line(v@.subrange(a as int, b as int), open) == Ok::<
                PoLine,
                ParseErrorKind,
            >(scanned(s)),
            Err(e) => e.line == lineno && read_line(v@.subrange(a as int, b as int), open) == Err::<
                PoLine,
                ParseErrorKind,
            >(e.kind),
        },
{
    let ghost line = v@.subrange(a as int, b as int);
    proof {
        reveal_strlit("msgid_plural");
        reveal_strlit("msgid");
        reveal_strlit("msgstr[");
        reveal_strlit("msgstr");
        if line.len() >= 12 {
            assert(line.skip(12) == v@.subrange(a + 12, b as int));
        }
        if line.len() >= 7 {
            assert(line.skip(7) == v@.subrange(a + 7, b as int));
        }
        if line.len() >= 6 {
            assert(line.skip(6) == v@.subrange(a + 6, b as int));
        }
        if line.len() >= 5 {
            assert(line.skip(5) == v@.subrange(a + 5, b as int));
        }
    }
    if a == b || v[a] == '#' {
        return Ok(Scanned::Skip);
    }
    if starts_with(v, a, b, "msgid_plural") {
        match parse_quoted(from_range(v, a + 12, b).as_str(), lineno) {
            Ok(_) => Ok(Scanned::Skip),
            Err(e) => Err(e),
        }
    } else if starts_with(v, a, b, "msgid") {
        match parse_quoted(from_range(v, a + 5, b).as_str(), lineno) {
            Ok(s) => Ok(Scanned::Id(s)),
            Err(e) => Err(e),
        }
    } else if starts_with(v, a, b, "msgstr[") {
        let lo: usize = a + 7;
        let close = find_from(v, lo, b, ']');
        let ghost rest = line.skip(7);
        if close == b {
            return Err(ParseError { line: lineno, kind: ParseErrorKind::Malformed });
        }
        let digits: usize = if lo < close && v[lo] == '+' {
            lo + 1
        } else {
            lo
        };
        proof {
            let index = rest.take(close - lo);
            assert(index == v@.subrange(lo as int, close as int));
            if digits > lo {
                assert(index.drop_first() == v@.subrange(digits as int, close as int));
            }
            assert(rest.skip(close - lo + 1) == v@.subrange(close + 1, b as int));
        }
        match parse_digits(v, digits, close, usize::MAX as u64) {
            None => Err(ParseError { line: lineno, kind: ParseErrorKind::BadIndex }),
            Some(n) => {
                if !open {
                    return Err(ParseError { line: lineno, kind: ParseErrorKind::OrphanMsgstr });
                }
                match parse_quoted(from_range(v, close + 1, b).as_str(), lineno) {
                    Ok(s) => Ok(Scanned::Form(n as usize, s)),
                    Err(e) => Err(e),
                }
            },
        }
    } else if starts_with(v, a, b, "msgstr") {
        if !open {
            return Err(ParseError { line: lineno, kind: ParseErrorKind::OrphanMsgstr });
        }
        match parse_quoted(from_range(v, a + 6, b).as_str(), lineno) {
            Ok(s) => Ok(Scanned::Str(s)),
            Err(e) => Err(e),
        }
    } else {
        Err(ParseError { line: lineno, kind: ParseErrorKind::UnknownKeyword })
    }
}

/// Records the entry accumulated while parsing into `cat`.
fn flush_entry(
    cat: &mut Catalog,
    id: Option<String>,
    singular: Option<String>,
    forms: &Vec<(usize, String)>,
)
    requires
        old(cat).wf(),
    ensures
        final(cat).wf(),
        final(cat)@ == closed_entry(entry_state(old(cat)@, id, singular, forms@)),
{
    if let Some(msgid) = id {
        if let Some(s) = singular {
            cat.insert_owned(msgid.clone(), s);
        }
        if forms.len() > 0 {
            let mut owned: Vec<String> = Vec::new();
            let mut i: usize = 0;
            while i < forms.len()
                invariant
                    i <= forms@.len(),
                    owned@.len() == i,
                    forall|j: int| 0 <= j < i ==> (#[trigger] owned@[j])@ == forms@[j].1@,
                decreases forms@.len() - i,
            {
                owned.push(forms[i].1.clone());
                i = i + 1;
            }
            assert(crate::lists::texts(owned@) =~= packed(forms_view(forms@)));
            cat.insert_forms(msgid, owned);
        }
    }
}

/// Sets the plural form `i`, keeping the forms by ascending index.
fn set_form(forms: &mut Vec<(usize, String)>, i: usize, s: String)
    ensures
        forms_view(final(forms)@) == put_form(forms_view(old(forms)@), i as nat, s@),
{
    let ghost before = forms_view(forms@);
    let mut k: usize = 0;
    assert(before.skip(0) == before);
    assert(before.take(0) + put_form(before, i as nat, s@) == put_form(before, i as nat, s@));
    while k < forms.len() && forms[k].0 < i
        invariant
            k <= forms@.len(),
            forms@ == old(forms)@,
            before == forms_view(forms@),
            put_form(before, i as nat, s@) =~= before.take(k as int) + put_form(
                before.skip(k as int),
                i as nat,
                s@,
            ),
        decreases forms@.len() - k,
    {
        proof {
            let rest = before.skip(k as int);
            assert(rest[0] == before[k as int]);
            assert(rest.drop_first() == before.skip(k + 1));
            assert(put_form(rest, i as nat, s@) == seq![rest[0]] + put_form(
                rest.drop_first(),
                i as nat,
                s@,
            ));
            assert(before.take(k + 1) =~= before.take(k as int) + seq![rest[0]]);
        }
        k = k + 1;
    }
    let ghost rest = before.skip(k as int);
    if k < forms.len() && forms[k].0 == i {
        assert(rest[0] == before[k as int]);
        forms.set(k, (i, s));
        assert(forms_view(forms@) =~= before.take(k as int) + (seq![(i as nat, s@)]
            + rest.drop_first()));
    } else {
        assert(k < before.len() ==> rest[0] == before[k as int]);
        forms.insert(k, (i, s));
        assert(forms_view(forms@) =~= before.take(k as int) + (seq![(i as nat, s@)] + rest));
    }
}

/// Parses a single double-quoted, escape-aware string literal from `s`, with white space around it
/// ignored.
///
/// # Errors
///
/// A [`ParseError`] for `lineno` if the literal is malformed or holds an unsupported escape.
pub fn parse_quoted(s: &str, lineno: usize) -> (r: Result<String, ParseError>)
    ensures
        match r {
            Ok(t) => read_quoted(s@) == Ok::<Seq<char>, ParseErrorKind>(t@),
            Err(e) => e.line == lineno && read_quoted(s@) == Err::<Seq<char>, ParseErrorKind>(
                e.kind,
            ),
        },
{
    let v = to_chars(s);
    assert(v@.subrange(0, v@.len() as int) == s@);
    let (a, b) = trim_range(v.as_slice(), 0, v.len());
    let ghost t = v@.subrange(a as int, b as int);
    if b - a < 2 || v[a] != '"' || v[b - 1] != '"' {
        return Err(ParseError { line: lineno, kind: ParseErrorKind::Malformed });
    }
    let ghost inner = t.subrange(1, t.len() - 1);
    let end: usize = b - 1;
    let mut i: usize = a + 1;
    let mut out = String::new();
    proof {
        assert(inner == v@.subrange(a + 1, end as int));
        match unescape(inner) {
            Ok(s) => {
                assert(Seq::<char>::empty() + s == s);
            },
            Err(_) => {},
        }
    }
    while i < end
        invariant
            a + 1 <= i <= end < v@.len(),
            unescape(inner) == prepend(out@, unescape(v@.subrange(i as int, end as int))),
            read_quoted(s@) == unescape(inner),
        decreases end - i,
    {
        let ghost rest = v@.subrange(i as int, end as int);
        let ghost done = out@;
        let c = v[i];
        assert(rest[0] == c);
        if c == '\\' {
            if i + 1 >= end {
                return Err(ParseError { line: lineno, kind: ParseErrorKind::BadEscape });
            }
            let d = v[i + 1];
            assert(rest[1] == d);
            let e = if d == 'n' {
                '\n'
            } else if d == 't' {
                '\t'
            } else if d == '"' || d == '\\' {
                d
            } else {
                return Err(ParseError { line: lineno, kind: ParseErrorKind::BadEscape });
            };
            out.push(e);
            proof {
                assert(rest.skip(2) == v@.subrange(i + 2, end as int));
                lemma_prepend(done, e, unescape(rest.skip(2)));
            }
            i = i + 2;
        } else if c == '"' {
            return Err(ParseError { line: lineno, kind: ParseErrorKind::Malformed });
        } else {
            out.push(c);
            proof {
                assert(rest.drop_first() == v@.subrange(i + 1, end as int));
                lemma_prepend(done, c, unescape(rest.drop_first()));
            }
            i = i + 1;
        }
    }
    assert(out@ + Seq::<char>::empty() == out@);
    Ok(out)
}

proof fn lemma_prepend(done: Seq<char>, c: char, rest: Result<Seq<char>, ParseErrorKind>)
    ensures
        prepend(done, prepend(seq![c], rest)) == prepend(done.push(c), rest),
{
    match rest {
        Ok(t) => {
            assert(done + (seq![c] + t) == done.push(c) + t);
        },
        Err(_) => {},
    }
}

/// The default plural rule (English/Romance): form `0` for `n == 1`, form `1`
/// otherwise.
pub fn plural_rule_default(n: u64) -> (r: usize)
    ensures
        r == (if n == 1 {
            0usize
        } else {
            1usize
        }),
{
    if n != 1 {
        1
    } else {
        0
    }
}

/// Translates `msgid` against `catalog`, falling back to `msgid` itself when it
/// is untranslated.
///
/// The fallback means an in-progress translation never leaves a blank in the UI:
/// the untranslated source string shows through instead.
pub fn translate<'a>(catalog: &'a Catalog, msgid: &'a str) -> (r: &'a str)
    requires
        catalog.wf(),
    ensures
        r@ == lookup(catalog@, msgid@),
{
    match catalog.get(msgid) {
        Some(s) => if is_empty(s) {
            msgid
        } else {
            s
        },
        None => msgid,
    }
}

// ---------------------------------------------------------------------------
// Localization
// ---------------------------------------------------------------------------

/// What a localisation registry holds.
pub struct LocalizationView {
    /// The catalogs, by locale.
    pub catalogs: Map<Seq<char>, CatalogView>,
    /// The active locale.
    pub active: Seq<char>,
    /// The fallback locale.
    pub fallback: Seq<char>,
}

/// The translation through one locale of a registry, if it has one.
pub open spec fn through(l: LocalizationView, locale: Seq<char>, msgid: Seq<char>) -> Option<
    Seq<char>,
> {
    if l.catalogs.dom().contains(locale) && is_translated(l.catalogs[locale], msgid) {
        Some(l.catalogs[locale].singular[msgid])
    } else {
        None
    }
}

/// The plural translation through one locale of a registry, if it has one.
pub open spec fn through_plural(
    l: LocalizationView,
    locale: Seq<char>,
    msgid: Seq<char>,
    index: nat,
) -> Option<Seq<char>> {
    if l.catalogs.dom().contains(locale) {
        match plural_lookup(l.catalogs[locale], msgid, index) {
            Some(form) => if form.len() > 0 {
                Some(form)
            } else {
                None
            },
            None => None,
        }
    } else {
        None
    }
}

/// The first of two results that is there, or else `last`.
pub open spec fn first_of(
    a: Option<Seq<char>>,
    b: Option<Seq<char>>,
    last: Seq<char>,
) -> Seq<char> {
    match a {
        Some(s) => s,
        None => match b {
            Some(s) => s,
            None => last,
        },
    }
}

/// The translation of a message: active locale, then fallback locale, then the message.
pub open spec fn resolved(l: LocalizationView, msgid: Seq<char>) -> Seq<char> {
    first_of(through(l, l.active, msgid), through(l, l.fallback, msgid), msgid)
}

/// The plural translation of a message: active locale, then fallback locale, then the message.
pub open spec fn resolved_plural(l: LocalizationView, msgid: Seq<char>, index: nat) -> Seq<char> {
    first_of(
        through_plural(l, l.active, msgid, index),
        through_plural(l, l.fallback, msgid, index),
        msgid,
    )
}

/// A registry after switching to another locale.
pub open spec fn switched(l: LocalizationView, locale: Seq<char>) -> LocalizationView {
    LocalizationView { active: locale, ..l }
}

/// Switching the language and switching back changes no translation, and while the other language
/// is active its own translations come first.
pub proof fn law_switch_is_live_and_reversible(
    l: LocalizationView,
    locale: Seq<char>,
    msgid: Seq<char>,
    index: nat,
)
    ensures
        switched(switched(l, locale), l.active) == l,
        resolved(switched(switched(l, locale), l.active), msgid) == resolved(l, msgid),
        resolved_plural(switched(switched(l, locale), l.active), msgid, index) == resolved_plural(
            l,
            msgid,
            index,
        ),
        through(l, locale, msgid) matches Some(s) ==> resolved(switched(l, locale), msgid) == s,
{
}

/// The localisation registry: several catalogs plus an active locale, with live
/// switching.
///
/// Resolution goes through the active catalog, then the fallback catalog, then the
/// message itself, so a string missing from the active locale degrades to the
/// fallback rather than vanishing.
#[derive(Debug, Clone)]
pub struct Localization {
    catalogs: StrMap<Catalog>,
    active: String,
    fallback: String,
}

impl Default for Localization {
    /// A registry without catalogs whose locale tags are empty.
    fn default() -> (r: Self)
        ensures
            r.wf(),
            r@ == (LocalizationView {
                catalogs: Map::empty(),
                active: Seq::empty(),
                fallback: Seq::empty(),
            }),
    {
        let r = Localization::new("");
        proof {
            reveal_strlit("");
        }
        assert(""@ =~= Seq::empty());
        r
    }
}

impl Localization {
    /// What the registry holds.
    pub closed spec fn view(&self) -> LocalizationView {
        LocalizationView {
            catalogs: self.catalogs@.map_values(|c: Catalog| c@),
            active: self.active@,
            fallback: self.fallback@,
        }
    }

    /// Every catalog is well formed and stands under its own locale.
    pub closed spec fn wf(&self) -> bool {
        &&& self.catalogs.wf()
        &&& forall|k: Seq<char>| #[trigger]
            self.catalogs@.dom().contains(k) ==> self.catalogs@[k].wf() && self.catalogs@[k]@.locale
                == k
    }

    /// A registry whose fallback (and initial active) locale is `fallback`.
    pub fn new(fallback: &str) -> (r: Self)
        ensures
            r.wf(),
            r@ == (LocalizationView {
                catalogs: Map::empty(),
                active: fallback@,
                fallback: fallback@,
            }),
    {
        let r = Localization {
            catalogs: StrMap::new(),
            active: fallback.to_owned(),
            fallback: fallback.to_owned(),
        };
        assert(r@.catalogs =~= Map::empty());
        r
    }

    /// Registers (or replaces) a catalog, keyed by its locale.
    pub fn add_catalog(&mut self, catalog: Catalog)
        requires
            old(self).wf(),
            catalog.wf(),
        ensures
            final(self).wf(),
            final(self)@ == (LocalizationView {
                catalogs: old(self)@.catalogs.insert(catalog@.locale, catalog@),
                ..old(self)@
            }),
    {
        let key = catalog.locale.clone();
        self.catalogs.insert(key, catalog);
        assert(self@.catalogs =~= old(self)@.catalogs.insert(catalog@.locale, catalog@));
    }

    /// The active locale tag.
    pub fn active_locale(&self) -> (r: &str)
        ensures
            r@ == self@.active,
    {
        self.active.as_str()
    }

    /// The fallback locale tag.
    pub fn fallback_locale(&self) -> (r: &str)
        ensures
            r@ == self@.fallback,
    {
        self.fallback.as_str()
    }

    /// Whether a catalog is registered for `locale`.
    pub fn has_locale(&self, locale: &str) -> (r: bool)
        requires
            self.wf(),
        ensures
            r == self@.catalogs.dom().contains(locale@),
    {
        self.catalogs.contains_key(locale)
    }

    /// Switches the active locale live.
    ///
    /// Returns `true` when a catalog is registered for `locale`; otherwise the
    /// active locale is still set (so lookups resolve via the fallback) and
    /// `false` is returned, letting the caller flag a missing translation set.
    pub fn set_locale(&mut self, locale: &str) -> (r: bool)
        requires
            old(self).wf(),
        ensures
            final(self).wf(),
            final(self)@ == switched(old(self)@, locale@),
            r == old(self)@.catalogs.dom().contains(locale@),
    {
        self.active = locale.to_owned();
        self.has_locale(locale)
    }

    /// Translates `msgid` through the active locale, the fallback locale, and `msgid` itself. A
    /// translation that is still empty is passed over.
    pub fn translate<'a>(&'a self, msgid: &'a str) -> (r: &'a str)
        requires
            self.wf(),
        ensures
            r@ == resolved(self@, msgid@),
    {
        if let Some(c) = self.catalogs.get(self.active.as_str()) {
            assert(self@.catalogs[self.active@] == c@);
            if let Some(s) = c.get(msgid) {
                if !is_empty(s) {
                    return s;
                }
            }
        }
        if !str_eq(self.active.as_str(), self.fallback.as_str()) {
            if let Some(c) = self.catalogs.get(self.fallback.as_str()) {
                assert(self@.catalogs[self.fallback@] == c@);
                if let Some(s) = c.get(msgid) {
                    if !is_empty(s) {
                        return s;
                    }
                }
            }
        }
        msgid
    }

    /// Translates the form `index` of a plural `msgid` through the active locale, the fallback
    /// locale, and `msgid` itself. A form that is still empty is passed over.
    pub fn translate_form<'a>(&'a self, msgid: &'a str, index: usize) -> (r: &'a str)
        requires
            self.wf(),
        ensures
            r@ == resolved_plural(self@, msgid@, index as nat),
    {
        if let Some(c) = self.catalogs.get(self.active.as_str()) {
            assert(self@.catalogs[self.active@] == c@);
            if let Some(s) = c.plural_form(msgid, index) {
                if !is_empty(s) {
                    return s;
                }
            }
        }
        if !str_eq(self.active.as_str(), self.fallback.as_str()) {
            if let Some(c) = self.catalogs.get(self.fallback.as_str()) {
                assert(self@.catalogs[self.fallback@] == c@);
                if let Some(s) = c.plural_form(msgid, index) {
                    if !is_empty(s) {
                        return s;
                    }
                }
            }
        }
        msgid
    }

    /// Translates a plural `msgid` for count `n` through the active locale and the fallback locale,
    /// with the form chosen by `rule`, falling back to `msgid` when no translated form is found.
    pub fn translate_plural<'a, F: Fn(u64) -> usize>(
        &'a self,
        msgid: &'a str,
        n: u64,
        rule: F,
    ) -> (r: &'a str)
        requires
            self.wf(),
            call_requires(rule, (n,)),
        ensures
            exists|index: usize| #[trigger]
                call_ensures(rule, (n,), index) && r@ == resolved_plural(
                    self@,
                    msgid@,
                    index as nat,
                ),
    {
        let index: usize = rule(n);
        self.translate_form(msgid, index)
    }
}

/// The line that an error names is the first one that cannot be read: the lines before it are a
/// catalog, and with it they are refused in the same way, whatever follows.
pub proof fn law_the_first_bad_line_is_named(
    st: PoState,
    lines: Seq<Seq<char>>,
    more: Seq<Seq<char>>,
    lineno: nat,
)
    requires
        lineno + lines.len() <= usize::MAX,
        lineno >= 1,
    ensures
        match read_lines(st, lines, lineno) {
            Ok(_) => true,
            Err(e) => {
                let k = e.line - lineno;
                &&& 0 <= k < lines.len()
                &&& read_lines(st, lines.take(k), lineno) is Ok
                &&& read_lines(st, lines.take(k + 1) + more, lineno) == Err::<
                    CatalogView,
                    ParseError,
                >(e)
            },
        },
    decreases lines.len(),
{
    if lines.len() > 0 {
        let rest = lines.drop_first();
        match read_line(crate::strings::trim(lines[0]), st.id is Some) {
            Err(kind) => {
                let cut = lines.take(1) + more;
                assert(cut[0] == lines[0]);
                assert(lines.take(0).len() == 0);
            },
            Ok(l) => {
                law_the_first_bad_line_is_named(step(st, l), rest, more, lineno + 1);
                match read_lines(st, lines, lineno) {
                    Ok(_) => {},
                    Err(e) => {
                        let k = e.line - lineno;
                        let a = lines.take(k);
                        let b = lines.take(k + 1) + more;
                        assert(a[0] == lines[0] && b[0] == lines[0]);
                        assert(a.drop_first() =~= rest.take(k - 1));
                        assert(b.drop_first() =~= rest.take(k) + more);
                    },
                }
            },
        }
    }
}

/// A message is shown in the active language where that has a translation, else in the fallback
/// language where that has one, else as it is.
pub proof fn law_translation_falls_back(l: LocalizationView, msgid: Seq<char>, a: Seq<char>)
    requires
        a.len() > 0,
    ensures
        l.catalogs.dom().contains(l.active) && l.catalogs[l.active].singular.dom().contains(msgid)
            && l.catalogs[l.active].singular[msgid] == a ==> resolved(l, msgid) == a,
        !(l.catalogs.dom().contains(l.active) && is_translated(l.catalogs[l.active], msgid))
            && l.catalogs.dom().contains(l.fallback)
            && l.catalogs[l.fallback].singular.dom().contains(msgid)
            && l.catalogs[l.fallback].singular[msgid] == a ==> resolved(l, msgid) == a,
        !(l.catalogs.dom().contains(l.active) && is_translated(l.catalogs[l.active], msgid)) && !(
        l.catalogs.dom().contains(l.fallback) && is_translated(l.catalogs[l.fallback], msgid))
            ==> resolved(l, msgid) == msgid,
{
}

/// A plural form is chosen by its index, and past the last form the last one is taken.
pub proof fn law_plural_forms_are_chosen_by_index(c: CatalogView, msgid: Seq<char>, index: nat)
    ensures
        c.plural.dom().contains(msgid) && index < c.plural[msgid].len() ==> plural_lookup(
            c,
            msgid,
            index,
        ) == Some(c.plural[msgid][index as int]),
        c.plural.dom().contains(msgid) && 0 < c.plural[msgid].len() <= index ==> plural_lookup(
            c,
            msgid,
            index,
        ) == Some(c.plural[msgid].last()),
        !c.plural.dom().contains(msgid) || c.plural[msgid].len() == 0 ==> plural_lookup(
            c,
            msgid,
            index,
        ) is None,
{
}

/// A counted message is shown in the active language where the form there is not empty, else in the
/// fallback language where that one is not, else as it is.
pub proof fn law_plurals_fall_back(l: LocalizationView, msgid: Seq<char>, index: nat, a: Seq<char>)
    requires
        a.len() > 0,
    ensures
        ({
            let first = l.catalogs.dom().contains(l.active);
            let second = l.catalogs.dom().contains(l.fallback);
            let x = plural_lookup(l.catalogs[l.active], msgid, index);
            let y = plural_lookup(l.catalogs[l.fallback], msgid, index);
            let silent = !first || x is None || x == Some(Seq::<char>::empty());
            let mute = !second || y is None || y == Some(Seq::<char>::empty());
            &&& first && x == Some(a) ==> resolved_plural(l, msgid, index) == a
            &&& silent && second && y == Some(a) ==> resolved_plural(l, msgid, index) == a
            &&& silent && mute ==> resolved_plural(l, msgid, index) == msgid
        }),
{
}

} // verus!
