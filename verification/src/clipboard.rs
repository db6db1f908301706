//! Clipboard service: multi-format offers and per-MIME requests.
//!
//! A copy places a [`ClipboardContent`] — one logical payload available in one or more MIME
//! representations — on a [`Selection`]. A paste requests a specific MIME type and receives the
//! matching bytes, or nothing if that format is not on offer.
//!
//! Two independent selections are tracked: the explicit [`Selection::Clipboard`] (Ctrl-C / Ctrl-V)
//! and the X11-style [`Selection::Primary`] (highlight-to-select, middle-click paste). Each offer
//! bumps a serial so a consumer can tell whether the offer it is reading is still current.

use vstd::prelude::*;

use crate::strings::{decode_text, str_eq};

verus! {

/// The MIME type for UTF-8 plain text.
pub const MIME_TEXT: &'static str = "text/plain;charset=utf-8";

/// Which selection an offer or request targets.
#[derive(Debug, Clone, Copy, PartialEq, Eq, Structural)]
pub enum Selection {
    /// The explicit clipboard (copy / paste).
    Clipboard,
    /// The primary selection (highlight / middle-click paste).
    Primary,
}

/// A clipboard payload in one or more MIME representations.
#[derive(Debug, Clone, PartialEq, Eq)]
pub struct ClipboardContent {
    /// `(mime, bytes)` representations, in offer order.
    formats: Vec<(String, Vec<u8>)>,
}

/// The position of the first representation of a MIME type, or the number of representations.
pub open spec fn format_at(formats: Seq<(Seq<char>, Seq<u8>)>, mime: Seq<char>) -> nat
    decreases formats.len(),
{
    if formats.len() == 0 || formats[0].0 == mime {
        0
    } else {
        1 + format_at(formats.drop_first(), mime)
    }
}

/// The bytes of the representation of a MIME type.
pub open spec fn bytes_of(formats: Seq<(Seq<char>, Seq<u8>)>, mime: Seq<char>) -> Option<Seq<u8>> {
    let i = format_at(formats, mime) as int;
    if i < formats.len() {
        Some(formats[i].1)
    } else {
        None
    }
}

/// The plain text of a payload, if it is offered and valid UTF-8.
pub open spec fn text_of(formats: Seq<(Seq<char>, Seq<u8>)>) -> Option<Seq<char>> {
    match bytes_of(formats, MIME_TEXT@) {
        Some(b) => crate::strings::decoded(b),
        None => None,
    }
}

/// The representations with that of a MIME type added or replaced.
pub open spec fn with_bytes(
    formats: Seq<(Seq<char>, Seq<u8>)>,
    mime: Seq<char>,
    bytes: Seq<u8>,
) -> Seq<(Seq<char>, Seq<u8>)> {
    let i = format_at(formats, mime) as int;
    if i < formats.len() {
        formats.update(i, (mime, bytes))
    } else {
        formats.push((mime, bytes))
    }
}

/// Whether no MIME type has two representations.
pub open spec fn distinct_mimes(formats: Seq<(Seq<char>, Seq<u8>)>) -> bool {
    forall|i: int, j: int|
        0 <= i < j < formats.len() ==> (#[trigger] formats[i]).0 != (#[trigger] formats[j]).0
}

/// The payload that holds a text alone.
pub open spec fn plain_text(text: Seq<char>) -> Seq<(Seq<char>, Seq<u8>)> {
    seq![(MIME_TEXT@, crate::strings::utf8(text))]
}

proof fn lemma_format_at(formats: Seq<(Seq<char>, Seq<u8>)>, mime: Seq<char>)
    ensures
        format_at(formats, mime) <= formats.len(),
        forall|j: int| 0 <= j < format_at(formats, mime) ==> (#[trigger] formats[j]).0 != mime,
        format_at(formats, mime) < formats.len() ==> formats[format_at(formats, mime) as int].0
            == mime,
    decreases formats.len(),
{
    if formats.len() > 0 && formats[0].0 != mime {
        let rest = formats.drop_first();
        lemma_format_at(rest, mime);
        assert forall|j: int| 0 <= j < format_at(formats, mime) implies (#[trigger] formats[j]).0
            != mime by {
            if j > 0 {
                assert(rest[j - 1] == formats[j]);
            }
        }
    }
}

/// A representation is where its MIME type first occurs.
pub proof fn lemma_format_is_at(formats: Seq<(Seq<char>, Seq<u8>)>, mime: Seq<char>, i: int)
    requires
        0 <= i <= formats.len(),
        forall|j: int| 0 <= j < i ==> (#[trigger] formats[j]).0 != mime,
        i < formats.len() ==> formats[i].0 == mime,
    ensures
        format_at(formats, mime) == i,
{
    lemma_format_at(formats, mime);
    let k = format_at(formats, mime) as int;
    if k < i {
        assert(formats[k].0 != mime);
    }
    if i < k {
        assert(formats[i].0 != mime);
    }
}

/// A representation that was added is given back, every other one is as before, and no MIME type
/// gets two.
pub proof fn law_added_format_is_given_back(
    formats: Seq<(Seq<char>, Seq<u8>)>,
    mime: Seq<char>,
    bytes: Seq<u8>,
    other: Seq<char>,
)
    requires
        distinct_mimes(formats),
    ensures
        bytes_of(with_bytes(formats, mime, bytes), mime) == Some(bytes),
        other != mime ==> bytes_of(with_bytes(formats, mime, bytes), other) == bytes_of(
            formats,
            other,
        ),
        distinct_mimes(with_bytes(formats, mime, bytes)),
{
    let after = with_bytes(formats, mime, bytes);
    lemma_format_at(formats, mime);
    let i = format_at(formats, mime) as int;
    assert forall|p: int, q: int| 0 <= p < q < after.len() implies (#[trigger] after[p]).0 != (
    #[trigger] after[q]).0 by {
        if q < formats.len() {
            assert(formats[p].0 != formats[q].0);
        } else {
            assert(after[p] == formats[p]);
        }
    }
    lemma_format_is_at(after, mime, i);
    if other != mime {
        lemma_format_at(formats, other);
        let k = format_at(formats, other) as int;
        if k < formats.len() || i < formats.len() {
            lemma_format_is_at(after, other, k);
        } else {
            lemma_format_is_at(after, other, k + 1);
        }
    }
}

/// A text that was put into a payload is read back.
pub proof fn law_text_round_trip(text: Seq<char>)
    ensures
        text_of(plain_text(text)) == Some(text),
{
    let f = plain_text(text);
    lemma_format_is_at(f, MIME_TEXT@, 0);
    crate::strings::lemma_decoded(text);
}

/// A copy of some bytes.
pub fn copy_bytes(b: &[u8]) -> (r: Vec<u8>)
    ensures
        r@ == b@,
{
    let mut out: Vec<u8> = Vec::new();
    let mut i: usize = 0;
    while i < b.len()
        invariant
            i <= b@.len(),
            out@ == b@.take(i as int),
        decreases b@.len() - i,
    {
        out.push(b[i]);
        i = i + 1;
        assert(b@.take(i as int) =~= b@.take(i - 1).push(b@[i - 1]));
    }
    assert(b@.take(i as int) =~= b@);
    out
}

impl View for ClipboardContent {
    type V = Seq<(Seq<char>, Seq<u8>)>;

    closed spec fn view(&self) -> Seq<(Seq<char>, Seq<u8>)> {
        self.formats@.map_values(|f: (String, Vec<u8>)| (f.0@, f.1@))
    }
}

impl Default for ClipboardContent {
    fn default() -> (r: Self)
        ensures
            r@ == Seq::<(Seq<char>, Seq<u8>)>::empty(),
    {
        ClipboardContent::new()
    }
}

impl ClipboardContent {
    /// An empty payload.
    pub fn new() -> (r: Self)
        ensures
            r@ == Seq::<(Seq<char>, Seq<u8>)>::empty(),
            distinct_mimes(r@),
    {
        let r = ClipboardContent { formats: Vec::new() };
        assert(r@ =~= Seq::empty());
        r
    }

    /// A payload holding a single UTF-8 `text/plain` representation.
    pub fn text(text: &str) -> (r: Self)
        ensures
            r@ == plain_text(text@),
            distinct_mimes(r@),
    {
        let mut r = ClipboardContent::new();
        r.add_format(MIME_TEXT, text.as_bytes());
        assert(r@ =~= plain_text(text@));
        r
    }

    /// Add a representation (builder-style); replaces an existing one for the same MIME type.
    pub fn with_format(self, mime: &str, bytes: &[u8]) -> (r: Self)
        ensures
            r@ == with_bytes(self@, mime@, bytes@),
            distinct_mimes(self@) ==> distinct_mimes(r@),
    {
        let mut out = self;
        out.add_format(mime, bytes);
        out
    }

    fn position(&self, mime: &str) -> (i: usize)
        ensures
            i <= self.formats@.len(),
            i == format_at(self@, mime@),
    {
        let mut i: usize = 0;
        while i < self.formats.len() && !str_eq(self.formats[i].0.as_str(), mime)
            invariant
                i <= self.formats@.len(),
                forall|j: int| 0 <= j < i ==> (#[trigger] self@[j]).0 != mime@,
            decreases self.formats@.len() - i,
        {
            assert(self@[i as int].0 == self.formats@[i as int].0@);
            i = i + 1;
        }
        proof {
            if i < self.formats@.len() {
                assert(self@[i as int].0 == self.formats@[i as int].0@);
            }
            lemma_format_is_at(self@, mime@, i as int);
        }
        i
    }

    /// Add or replace the representation for `mime`.
    pub fn add_format(&mut self, mime: &str, bytes: &[u8])
        ensures
            final(self)@ == with_bytes(old(self)@, mime@, bytes@),
            distinct_mimes(old(self)@) ==> distinct_mimes(final(self)@),
    {
        let i: usize = self.position(mime);
        let ghost before = self@;
        let entry = (mime.to_owned(), copy_bytes(bytes));
        if i < self.formats.len() {
            self.formats.set(i, entry);
        } else {
            self.formats.push(entry);
        }
        proof {
            assert(self@ =~= with_bytes(before, mime@, bytes@));
            if distinct_mimes(before) {
                law_added_format_is_given_back(before, mime@, bytes@, mime@);
            }
        }
    }

    /// The MIME types this payload offers, in order.
    pub fn mime_types(&self) -> (r: Vec<&str>)
        ensures
            r@.map_values(|m: &str| m@) == self@.map_values(|f: (Seq<char>, Seq<u8>)| f.0),
    {
        let mut out: Vec<&str> = Vec::new();
        let mut i: usize = 0;
        while i < self.formats.len()
            invariant
                i <= self.formats@.len(),
                out@.len() == i,
                forall|j: int| 0 <= j < i ==> #[trigger] out@[j]@ == self.formats@[j].0@,
            decreases self.formats@.len() - i,
        {
            out.push(self.formats[i].0.as_str());
            i = i + 1;
        }
        assert(out@.map_values(|m: &str| m@) =~= self@.map_values(
            |f: (Seq<char>, Seq<u8>)| f.0,
        ));
        out
    }

    /// The bytes of the `mime` representation, if present.
    pub fn get(&self, mime: &str) -> (r: Option<&[u8]>)
        ensures
            match r {
                Some(b) => bytes_of(self@, mime@) == Some(b@),
                None => bytes_of(self@, mime@) is None,
            },
    {
        let i: usize = self.position(mime);
        if i < self.formats.len() {
            Some(self.formats[i].1.as_slice())
        } else {
            None
        }
    }

    /// The `text/plain` representation decoded as UTF-8, if present and valid.
    pub fn as_text(&self) -> (r: Option<&str>)
        ensures
            match r {
                Some(s) => text_of(self@) == Some(s@),
                None => text_of(self@) is None,
            },
    {
        match self.get(MIME_TEXT) {
            Some(b) => decode_text(b),
            None => None,
        }
    }

    /// Whether the payload has no representations.
    pub fn is_empty(&self) -> (r: bool)
        ensures
            r == (self@.len() == 0),
    {
        self.formats.len() == 0
    }
}

/// The offers of a service.
pub struct Board {
    /// What is on the clipboard.
    pub clipboard: Option<Seq<(Seq<char>, Seq<u8>)>>,
    /// What is on the primary selection.
    pub primary: Option<Seq<(Seq<char>, Seq<u8>)>>,
    /// The serial of the most recent offer.
    pub serial: u64,
}

impl Board {
    /// What is on a selection.
    pub open spec fn on(self, selection: Selection) -> Option<Seq<(Seq<char>, Seq<u8>)>> {
        match selection {
            Selection::Clipboard => self.clipboard,
            Selection::Primary => self.primary,
        }
    }

    /// The offers with that of one selection replaced.
    pub open spec fn put(
        self,
        selection: Selection,
        content: Option<Seq<(Seq<char>, Seq<u8>)>>,
    ) -> Board {
        match selection {
            Selection::Clipboard => Board { clipboard: content, ..self },
            Selection::Primary => Board { primary: content, ..self },
        }
    }

    /// The offers after a new one.
    pub open spec fn offered(
        self,
        selection: Selection,
        content: Seq<(Seq<char>, Seq<u8>)>,
    ) -> Board {
        Board {
            serial: if self.serial == u64::MAX {
                0
            } else {
                (self.serial + 1) as u64
            },
            ..self.put(selection, Some(content))
        }
    }

    /// The plain text on a selection.
    pub open spec fn text_on(self, selection: Selection) -> Option<Seq<char>> {
        match self.on(selection) {
            Some(c) => text_of(c),
            None => None,
        }
    }
}

/// An offer is what the selection holds, the other selection is untouched, and the serial tells the
/// offer from the one before.
pub proof fn law_selections_are_independent(
    b: Board,
    selection: Selection,
    other: Selection,
    content: Seq<(Seq<char>, Seq<u8>)>,
)
    requires
        selection != other,
    ensures
        b.offered(selection, content).on(selection) == Some(content),
        b.offered(selection, content).on(other) == b.on(other),
        b.offered(selection, content).serial != b.serial,
        b.put(selection, None).on(selection) is None,
        b.put(selection, None).on(other) == b.on(other),
{
}

/// Holds the current clipboard and primary-selection offers.
#[derive(Debug, Clone)]
pub struct ClipboardService {
    clipboard: Option<ClipboardContent>,
    primary: Option<ClipboardContent>,
    serial: u64,
}

/// What an optional payload holds.
pub open spec fn maybe_content(c: Option<ClipboardContent>) -> Option<
    Seq<(Seq<char>, Seq<u8>)>,
> {
    match c {
        Some(x) => Some(x@),
        None => None,
    }
}

impl View for ClipboardService {
    type V = Board;

    closed spec fn view(&self) -> Board {
        Board {
            clipboard: maybe_content(self.clipboard),
            primary: maybe_content(self.primary),
            serial: self.serial,
        }
    }
}

impl Default for ClipboardService {
    fn default() -> (r: Self)
        ensures
            r@ == (Board { clipboard: None, primary: None, serial: 0 }),
    {
        ClipboardService::new()
    }
}

impl ClipboardService {
    /// An empty service (both selections cleared).
    pub fn new() -> (r: Self)
        ensures
            r@ == (Board { clipboard: None, primary: None, serial: 0 }),
    {
        ClipboardService { clipboard: None, primary: None, serial: 0 }
    }

    fn slot(&self, selection: Selection) -> (r: Option<&ClipboardContent>)
        ensures
            match r {
                Some(c) => self@.on(selection) == Some(c@),
                None => self@.on(selection) is None,
            },
    {
        match selection {
            Selection::Clipboard => match &self.clipboard {
                Some(c) => Some(c),
                None => None,
            },
            Selection::Primary => match &self.primary {
                Some(c) => Some(c),
                None => None,
            },
        }
    }

    /// Place `content` on `selection`, replacing any previous offer, and return the new serial
    /// identifying this offer.
    pub fn offer(&mut self, selection: Selection, content: ClipboardContent) -> (r: u64)
        ensures
            final(self)@ == old(self)@.offered(selection, content@),
            r == final(self)@.serial,
    {
        self.serial = self.serial.wrapping_add(1);
        match selection {
            Selection::Clipboard => {
                self.clipboard = Some(content);
            },
            Selection::Primary => {
                self.primary = Some(content);
            },
        }
        self.serial
    }

    /// The MIME types currently offered on `selection` (empty if none).
    pub fn formats(&self, selection: Selection) -> (r: Vec<&str>)
        ensures
            r@.map_values(|m: &str| m@) == (match self@.on(selection) {
                Some(c) => c.map_values(|f: (Seq<char>, Seq<u8>)| f.0),
                None => Seq::empty(),
            }),
    {
        match self.slot(selection) {
            Some(c) => c.mime_types(),
            None => {
                let none: Vec<&str> = Vec::new();
                assert(none@.map_values(|m: &str| m@) =~= Seq::empty());
                none
            },
        }
    }

    /// Request the `mime` representation of the current `selection` offer.
    pub fn request(&self, selection: Selection, mime: &str) -> (r: Option<&[u8]>)
        ensures
            ({
                let owed = match self@.on(selection) {
                    Some(c) => bytes_of(c, mime@),
                    None => None,
                };
                match r {
                    Some(b) => owed == Some(b@),
                    None => owed is None,
                }
            }),
    {
        match self.slot(selection) {
            Some(c) => c.get(mime),
            None => None,
        }
    }

    /// Convenience: request the `text/plain` representation as UTF-8.
    pub fn request_text(&self, selection: Selection) -> (r: Option<&str>)
        ensures
            match r {
                Some(s) => self@.text_on(selection) == Some(s@),
                None => self@.text_on(selection) is None,
            },
    {
        match self.slot(selection) {
            Some(c) => c.as_text(),
            None => None,
        }
    }

    /// Whether `selection` currently holds an offer.
    pub fn has_content(&self, selection: Selection) -> (r: bool)
        ensures
            r == (self@.on(selection) is Some),
    {
        self.slot(selection).is_some()
    }

    /// Clear the offer on `selection`.
    pub fn clear(&mut self, selection: Selection)
        ensures
            final(self)@ == old(self)@.put(selection, None),
    {
        match selection {
            Selection::Clipboard => {
                self.clipboard = None;
            },
            Selection::Primary => {
                self.primary = None;
            },
        }
    }

    /// The serial of the most recent offer (0 before any offer).
    pub fn current_serial(&self) -> (r: u64)
        ensures
            r == self@.serial,
    {
        self.serial
    }
}

/// Adding a format keeps the bytes of all others, and what is offered is a new offer.
pub proof fn law_other_formats_are_kept(
    formats: Seq<(Seq<char>, Seq<u8>)>,
    mime: Seq<char>,
    bytes: Seq<u8>,
    other: Seq<char>,
)
    requires
        other != mime,
    ensures
        bytes_of(with_bytes(formats, mime, bytes), other) == bytes_of(formats, other),
    decreases formats.len(),
{
    let after = with_bytes(formats, mime, bytes);
    if formats.len() == 0 {
        assert(after.drop_first() =~= Seq::empty());
        assert(after[0].0 == mime);
        reveal_with_fuel(format_at, 2);
    } else {
        let rest = formats.drop_first();
        law_other_formats_are_kept(rest, mime, bytes, other);
        if formats[0].0 == mime {
            assert(after.drop_first() =~= rest);
        } else {
            assert(after[0] == formats[0]);
            assert(after.drop_first() =~= with_bytes(rest, mime, bytes));
        }
        let i = format_at(formats, other) as int;
        let j = format_at(after, other) as int;
        if i > 0 && i < formats.len() {
            assert(formats[i] == rest[i - 1]);
        }
        if j > 0 && j < after.len() {
            assert(after[j] == after.drop_first()[j - 1]);
        }
    }
}

} // verus!
