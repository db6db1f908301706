//! Client-side text editing: cut / copy / paste against the clipboard.
//!
//! A [`TextBuffer`] holds editable content with a caret and an optional selection, and
//! [`TextBuffer::copy`] / [`TextBuffer::cut`] / [`TextBuffer::paste`] move text between the buffer
//! and a [`ClipboardService`].

use vstd::prelude::*;

use crate::clipboard::{ClipboardContent, ClipboardService, Selection};
use crate::strings::{from_chars, from_range, to_chars};

verus! {

/// An editable text buffer with a caret and an optional selection.
///
/// Positions are character indices (not byte offsets). The caret sits in `[0, len]`; a selection
/// spans the ordered range between the caret and the anchor.
#[derive(Debug, Clone, PartialEq, Eq)]
pub struct TextBuffer {
    chars: Vec<char>,
    cursor: usize,
    anchor: Option<usize>,
}

/// What a buffer holds.
#[verifier::ext_equal]
pub struct Text {
    /// The characters.
    pub chars: Seq<char>,
    /// The position of the caret.
    pub caret: int,
    /// The other end of the selection.
    pub anchor: Option<int>,
}

impl View for TextBuffer {
    type V = Text;

    closed spec fn view(&self) -> Text {
        Text {
            chars: self.chars@,
            caret: self.cursor as int,
            anchor: match self.anchor {
                Some(a) => Some(a as int),
                None => None,
            },
        }
    }
}

/// `n`, but at most `limit`.
pub open spec fn clamped(n: int, limit: int) -> int {
    if n < limit {
        n
    } else {
        limit
    }
}

impl Text {
    /// Whether caret and anchor lie within the text.
    pub open spec fn valid(self) -> bool {
        &&& 0 <= self.caret <= self.chars.len()
        &&& self.anchor matches Some(a) ==> 0 <= a <= self.chars.len()
    }

    /// The ordered bounds of the selection, if it is not empty.
    pub open spec fn selected(self) -> Option<(int, int)> {
        match self.anchor {
            Some(a) => if a < self.caret {
                Some((a, self.caret))
            } else if self.caret < a {
                Some((self.caret, a))
            } else {
                None
            },
            None => None,
        }
    }

    /// The selected text.
    pub open spec fn excerpt(self) -> Seq<char> {
        let (lo, hi) = self.selected()->Some_0;
        self.chars.subrange(lo, hi)
    }

    /// The text without the selection, the caret where it began. An empty selection changes
    /// nothing.
    pub open spec fn without_selection(self) -> Text {
        match self.selected() {
            Some((lo, hi)) => Text {
                chars: self.chars.take(lo) + self.chars.skip(hi),
                caret: lo,
                anchor: None,
            },
            None => self,
        }
    }

    /// The text with some more at the caret, in place of the selection, and the caret behind it.
    pub open spec fn inserted(self, text: Seq<char>) -> Text {
        let t = self.without_selection();
        Text {
            chars: t.chars.take(t.caret) + text + t.chars.skip(t.caret),
            caret: t.caret + text.len(),
            anchor: None,
        }
    }
}

/// Inserting what was cut, without moving the caret, gives the text back.
pub proof fn law_cut_then_insert_restores(t: Text)
    requires
        t.valid(),
        t.selected() is Some,
    ensures
        t.without_selection().inserted(t.excerpt()).chars == t.chars,
{
    let (lo, hi) = t.selected()->Some_0;
    let cut = t.without_selection();
    assert(cut.chars.take(lo) =~= t.chars.take(lo));
    assert(cut.chars.skip(lo) =~= t.chars.skip(hi));
    assert(t.chars.take(lo) + t.excerpt() + t.chars.skip(hi) =~= t.chars);
}

/// Every edit leaves caret and anchor within the text.
pub proof fn law_edits_keep_the_caret_inside(t: Text, text: Seq<char>)
    requires
        t.valid(),
    ensures
        t.without_selection().valid(),
        t.inserted(text).valid(),
        t.inserted(text).chars.len() == t.without_selection().chars.len() + text.len(),
{
}

impl Default for TextBuffer {
    fn default() -> (r: Self)
        ensures
            r@ == (Text { chars: Seq::empty(), caret: 0, anchor: None }),
    {
        TextBuffer::new()
    }
}

impl TextBuffer {
    /// An empty buffer with the caret at the start.
    pub fn new() -> (r: Self)
        ensures
            r@ == (Text { chars: Seq::empty(), caret: 0, anchor: None }),
            r@.valid(),
    {
        TextBuffer { chars: Vec::new(), cursor: 0, anchor: None }
    }

    /// A buffer initialised with `text`, caret at the end, no selection.
    pub fn from_text(text: &str) -> (r: Self)
        ensures
            r@ == (Text { chars: text@, caret: text@.len() as int, anchor: None }),
            r@.valid(),
    {
        let chars = to_chars(text);
        let cursor: usize = chars.len();
        TextBuffer { chars, cursor, anchor: None }
    }

    /// The full content as a `String`.
    pub fn text(&self) -> (r: String)
        ensures
            r@ == self@.chars,
    {
        from_chars(self.chars.as_slice())
    }

    /// Length in characters.
    pub fn len(&self) -> (r: usize)
        ensures
            r == self@.chars.len(),
    {
        self.chars.len()
    }

    /// Whether the buffer is empty.
    pub fn is_empty(&self) -> (r: bool)
        ensures
            r == (self@.chars.len() == 0),
    {
        self.chars.len() == 0
    }

    /// Caret position (character index).
    pub fn cursor(&self) -> (r: usize)
        ensures
            r == self@.caret,
    {
        self.cursor
    }

    /// Move the caret to `pos` (clamped) and drop any selection.
    pub fn set_cursor(&mut self, pos: usize)
        ensures
            final(self)@ == (Text {
                caret: clamped(pos as int, old(self)@.chars.len() as int),
                anchor: None,
                ..old(self)@
            }),
            final(self)@.valid(),
    {
        let len: usize = self.chars.len();
        self.cursor = if pos < len {
            pos
        } else {
            len
        };
        self.anchor = None;
    }

    /// Select the range `[start, end)` (order-independent); the caret ends at `end`. Both bounds
    /// are clamped to the buffer length.
    pub fn select_range(&mut self, start: usize, end: usize)
        ensures
            final(self)@ == (Text {
                caret: clamped(end as int, old(self)@.chars.len() as int),
                anchor: Some(clamped(start as int, old(self)@.chars.len() as int)),
                ..old(self)@
            }),
            final(self)@.valid(),
    {
        let len: usize = self.chars.len();
        self.anchor = Some(
            if start < len {
                start
            } else {
                len
            },
        );
        self.cursor = if end < len {
            end
        } else {
            len
        };
    }

    /// The ordered selection bounds `(lo, hi)`, or `None` when nothing is selected (no anchor, or an
    /// empty range).
    pub fn selection(&self) -> (r: Option<(usize, usize)>)
        ensures
            match r {
                Some((lo, hi)) => self@.selected() == Some((lo as int, hi as int)),
                None => self@.selected() is None,
            },
    {
        match self.anchor {
            Some(a) => if a < self.cursor {
                Some((a, self.cursor))
            } else if self.cursor < a {
                Some((self.cursor, a))
            } else {
                None
            },
            None => None,
        }
    }

    /// The selected text, if any.
    pub fn selected_text(&self) -> (r: Option<String>)
        requires
            self@.valid(),
        ensures
            match r {
                Some(s) => self@.selected() is Some && s@ == self@.excerpt(),
                None => self@.selected() is None,
            },
    {
        match self.selection() {
            Some((lo, hi)) => Some(from_range(self.chars.as_slice(), lo, hi)),
            None => None,
        }
    }

    /// Replaces the characters `lo .. hi` by some others, and puts the caret behind them.
    fn replace(&mut self, lo: usize, hi: usize, with: &[char])
        requires
            lo <= hi <= old(self)@.chars.len(),
        ensures
            final(self)@ == (Text {
                chars: old(self)@.chars.take(lo as int) + with@ + old(self)@.chars.skip(hi as int),
                caret: lo + with@.len(),
                anchor: None,
            }),
    {
        let ghost chars = self.chars@;
        let mut out: Vec<char> = Vec::new();
        let mut i: usize = 0;
        while i < lo
            invariant
                i <= lo <= chars.len(),
                chars == self.chars@,
                out@ == chars.take(i as int),
            decreases lo - i,
        {
            out.push(self.chars[i]);
            i = i + 1;
            assert(chars.take(i as int) =~= chars.take(i - 1).push(chars[i - 1]));
        }
        let mut j: usize = 0;
        assert(chars.take(lo as int) + with@.take(0) =~= chars.take(lo as int));
        while j < with.len()
            invariant
                j <= with@.len(),
                lo <= chars.len(),
                out@ == chars.take(lo as int) + with@.take(j as int),
            decreases with@.len() - j,
        {
            out.push(with[j]);
            j = j + 1;
            assert(chars.take(lo as int) + with@.take(j as int) =~= (chars.take(lo as int)
                + with@.take(j - 1)).push(with@[j - 1]));
        }
        let caret: usize = out.len();
        let mut k: usize = hi;
        let ghost head = chars.take(lo as int) + with@;
        assert(out@ =~= head + chars.subrange(hi as int, hi as int));
        while k < self.chars.len()
            invariant
                hi <= k <= chars.len(),
                chars == self.chars@,
                out@ == head + chars.subrange(hi as int, k as int),
            decreases chars.len() - k,
        {
            out.push(self.chars[k]);
            k = k + 1;
            assert(head + chars.subrange(hi as int, k as int) =~= (head + chars.subrange(
                hi as int,
                k - 1,
            )).push(chars[k - 1]));
        }
        assert(chars.subrange(hi as int, k as int) =~= chars.skip(hi as int));
        self.chars = out;
        self.cursor = caret;
        self.anchor = None;
    }

    /// Delete the current selection, placing the caret at its start. Returns `true` if anything was
    /// removed.
    pub fn delete_selection(&mut self) -> (r: bool)
        requires
            old(self)@.valid(),
        ensures
            final(self)@ == old(self)@.without_selection(),
            final(self)@.valid(),
            r == (old(self)@.selected() is Some),
    {
        match self.selection() {
            Some((lo, hi)) => {
                let none: [char; 0] = [];
                self.replace(lo, hi, &none);
                assert(self@.chars =~= old(self)@.without_selection().chars);
                true
            },
            None => false,
        }
    }

    /// Insert `text` at the caret, replacing any active selection first. The caret ends just after
    /// the inserted text.
    pub fn insert_str(&mut self, text: &str)
        requires
            old(self)@.valid(),
        ensures
            final(self)@ == old(self)@.inserted(text@),
            final(self)@.valid(),
    {
        self.delete_selection();
        let at: usize = self.cursor;
        let inserted = to_chars(text);
        self.replace(at, at, inserted.as_slice());
    }

    /// Copy the selection onto `selection` of `svc`. Returns `true` if there was a selection to copy
    /// (the buffer is left unchanged).
    pub fn copy(&self, svc: &mut ClipboardService, selection: Selection) -> (r: bool)
        requires
            self@.valid(),
        ensures
            r == (self@.selected() is Some),
            final(svc)@ == (if r {
                old(svc)@.offered(selection, crate::clipboard::plain_text(self@.excerpt()))
            } else {
                old(svc)@
            }),
    {
        match self.selected_text() {
            Some(text) => {
                svc.offer(selection, ClipboardContent::text(text.as_str()));
                true
            },
            None => false,
        }
    }

    /// Cut the selection: copy it onto `svc`, then delete it from the buffer. Returns `true` if
    /// there was a selection.
    pub fn cut(&mut self, svc: &mut ClipboardService, selection: Selection) -> (r: bool)
        requires
            old(self)@.valid(),
        ensures
            r == (old(self)@.selected() is Some),
            final(svc)@ == (if r {
                old(svc)@.offered(selection, crate::clipboard::plain_text(old(self)@.excerpt()))
            } else {
                old(svc)@
            }),
            final(self)@ == old(self)@.without_selection(),
            final(self)@.valid(),
    {
        if !self.copy(svc, selection) {
            return false;
        }
        self.delete_selection();
        true
    }

    /// Paste the `text/plain` content of `selection` at the caret, replacing any active selection.
    /// Returns `true` if the clipboard held text.
    pub fn paste(&mut self, svc: &ClipboardService, selection: Selection) -> (r: bool)
        requires
            old(self)@.valid(),
        ensures
            final(self)@.valid(),
            match svc@.text_on(selection) {
                Some(text) => r && final(self)@ == old(self)@.inserted(text),
                None => !r && final(self)@ == old(self)@,
            },
    {
        match svc.request_text(selection) {
            Some(text) => {
                self.insert_str(text);
                true
            },
            None => false,
        }
    }
}

/// What one buffer copies, another pastes from the same selection, and from no other.
pub proof fn law_paste_gives_what_was_copied(
    source: Text,
    board: crate::clipboard::Board,
    selection: Selection,
    other: Selection,
)
    requires
        source.valid(),
        source.selected() is Some,
        selection != other,
    ensures
        ({
            let after = board.offered(
                selection,
                crate::clipboard::plain_text(source.excerpt()),
            );
            &&& after.text_on(selection) == Some(source.excerpt())
            &&& after.text_on(other) == board.text_on(other)
        }),
{
    crate::clipboard::law_text_round_trip(source.excerpt());
}

/// What is inserted stands where the selection was, or at the caret without one, and the caret stands
/// behind it; what was before and behind it stays.
pub proof fn law_insertion_takes_the_place_of_the_selection(
    t: Text,
    lo: int,
    hi: int,
    text: Seq<char>,
)
    requires
        t.valid(),
        0 <= lo <= hi <= t.chars.len(),
        t.caret == lo && t.anchor == Some(hi) || t.caret == hi && t.anchor == Some(lo) || t.caret
            == lo == hi && t.anchor is None,
    ensures
        t.inserted(text).chars == t.chars.take(lo) + text + t.chars.skip(hi),
        t.inserted(text).caret == lo + text.len(),
        t.inserted(text).selected() is None,
        lo < hi ==> t.selected() == Some((lo, hi)) && t.excerpt() == t.chars.subrange(lo, hi),
{
    let w = t.without_selection();
    if lo < hi {
        assert(w.chars.take(lo) =~= t.chars.take(lo));
        assert(w.chars.skip(lo) =~= t.chars.skip(hi));
    }
}

} // verus!
