//! The string extraction pipeline: collect the strings that are marked for
//! translation, emit a catalog template for translators, and merge new extractions
//! with existing translations.

use vstd::prelude::*;

use crate::i18n::catalog::{Catalog, CatalogView, PoLine, PoState};
use crate::strings::{find_from, is_empty, skip_whitespace, starts_with, str_eq, to_chars};

verus! {

/// A translatable message discovered by [`extract_messages`].
#[derive(Debug, Clone, PartialEq, Eq)]
pub struct ExtractedMessage {
    /// The source string (the singular form).
    pub msgid: String,
    /// The plural form, when the string was marked as a plural.
    pub plural: Option<String>,
}

/// A translatable message.
pub struct MessageView {
    /// The source string.
    pub msgid: Seq<char>,
    /// The plural form.
    pub plural: Option<Seq<char>>,
}

impl ExtractedMessage {
    /// The message.
    pub open spec fn view(&self) -> MessageView {
        MessageView {
            msgid: self.msgid@,
            plural: match self.plural {
                Some(p) => Some(p@),
                None => None,
            },
        }
    }
}

/// The messages of a list.
pub open spec fn messages(v: Seq<ExtractedMessage>) -> Seq<MessageView> {
    v.map_values(|m: ExtractedMessage| m@)
}

// ---------------------------------------------------------------------------
// Scanning source text
// ---------------------------------------------------------------------------

/// Whether `c` can continue an identifier (`[A-Za-z0-9_]`).
pub open spec fn is_ident(c: char) -> bool {
    'a' <= c <= 'z' || 'A' <= c <= 'Z' || '0' <= c <= '9' || c == '_'
}

/// The position just after the string literal whose inside goes on at `i`, or the end of the text.
pub open spec fn string_end(s: Seq<char>, i: int, escaped: bool) -> int
    decreases s.len() - i,
{
    if i >= s.len() {
        s.len() as int
    } else if escaped {
        string_end(s, i + 1, false)
    } else if s[i] == '\\' {
        string_end(s, i + 1, true)
    } else if s[i] == '"' {
        i + 1
    } else {
        string_end(s, i + 1, false)
    }
}

/// The position just after the line that goes on at `i`.
pub open spec fn line_end(s: Seq<char>, i: int) -> int {
    let j = i + crate::strings::find_char(s.skip(i), '\n');
    if j < s.len() {
        j + 1
    } else {
        s.len() as int
    }
}

/// The position just after the first `*/` from `i` on, or the end of the text.
pub open spec fn block_end(s: Seq<char>, i: int) -> int
    decreases s.len() - i,
{
    if i + 1 >= s.len() {
        s.len() as int
    } else if s[i] == '*' && s[i + 1] == '/' {
        i + 2
    } else {
        block_end(s, i + 1)
    }
}

/// If an invocation of `name!(` begins at `i`, the position just after its `(`.
pub open spec fn call_open(s: Seq<char>, i: int, name: Seq<char>) -> Option<int> {
    let bang = i + name.len();
    if i > 0 && is_ident(s[i - 1]) {
        None
    } else if !crate::strings::has_prefix(s.skip(i), name) || bang >= s.len() || s[bang] != '!' {
        None
    } else {
        let rest = crate::strings::trim_start(s.skip(bang + 1));
        if rest.len() > 0 && rest[0] == '(' {
            Some(s.len() - rest.len() + 1)
        } else {
            None
        }
    }
}

/// The position of the `)` that closes the argument list going on at `i`, at the given depth of
/// nesting, inside or outside a string literal.
pub open spec fn args_close(
    s: Seq<char>,
    i: int,
    depth: int,
    in_str: bool,
    escaped: bool,
) -> Option<int>
    decreases s.len() - i,
{
    if i >= s.len() {
        None
    } else if in_str {
        if escaped {
            args_close(s, i + 1, depth, true, false)
        } else if s[i] == '\\' {
            args_close(s, i + 1, depth, true, true)
        } else {
            args_close(s, i + 1, depth, s[i] != '"', false)
        }
    } else if s[i] == '"' {
        args_close(s, i + 1, depth, true, escaped)
    } else if s[i] == '(' {
        args_close(s, i + 1, depth + 1, false, escaped)
    } else if s[i] == ')' {
        if depth == 1 {
            Some(i)
        } else {
            args_close(s, i + 1, depth - 1, false, escaped)
        }
    } else {
        args_close(s, i + 1, depth, false, escaped)
    }
}

/// The character that an escaped `c` stands for in a literal.
pub open spec fn unescaped(c: char) -> char {
    if c == 'n' {
        '\n'
    } else if c == 't' {
        '\t'
    } else {
        c
    }
}

/// The text of the literal whose inside goes on at `i`, after `done`.
pub open spec fn literal(s: Seq<char>, i: int, escaped: bool, done: Seq<char>) -> Seq<char>
    decreases s.len() - i,
{
    if i >= s.len() {
        done
    } else if escaped {
        literal(s, i + 1, false, done.push(unescaped(s[i])))
    } else if s[i] == '\\' {
        literal(s, i + 1, true, done)
    } else if s[i] == '"' {
        done
    } else {
        literal(s, i + 1, false, done.push(s[i]))
    }
}

/// The string literals of `s` from `i` on, in order, after `done`.
pub open spec fn literals(s: Seq<char>, i: int, done: Seq<Seq<char>>) -> Seq<Seq<char>>
    decreases s.len() - i,
    via literals_decreases
{
    if i >= s.len() {
        done
    } else if s[i] != '"' {
        literals(s, i + 1, done)
    } else {
        literals(
            s,
            string_end(s, i + 1, false),
            done.push(literal(s, i + 1, false, Seq::empty())),
        )
    }
}

#[via_fn]
proof fn literals_decreases(s: Seq<char>, i: int, done: Seq<Seq<char>>) {
    if i < s.len() {
        lemma_string_end(s, i + 1, false);
    }
}

proof fn lemma_string_end(s: Seq<char>, i: int, escaped: bool)
    requires
        i <= s.len(),
    ensures
        i <= string_end(s, i, escaped) <= s.len(),
    decreases s.len() - i,
{
    if i < s.len() {
        if escaped {
            lemma_string_end(s, i + 1, false);
        } else if s[i] == '\\' {
            lemma_string_end(s, i + 1, true);
        } else if s[i] != '"' {
            lemma_string_end(s, i + 1, false);
        }
    }
}

proof fn lemma_block_end(s: Seq<char>, i: int)
    ensures
        i <= s.len() ==> i <= block_end(s, i) <= s.len(),
        i > s.len() ==> block_end(s, i) == s.len(),
    decreases s.len() - i,
{
    if i + 1 < s.len() && !(s[i] == '*' && s[i + 1] == '/') {
        lemma_block_end(s, i + 1);
    }
}

proof fn lemma_args_close(s: Seq<char>, i: int, depth: int, in_str: bool, escaped: bool)
    requires
        0 <= i,
    ensures
        args_close(s, i, depth, in_str, escaped) matches Some(j) ==> i <= j < s.len(),
    decreases s.len() - i,
{
    if i < s.len() {
        if in_str {
            if escaped {
                lemma_args_close(s, i + 1, depth, true, false);
            } else if s[i] == '\\' {
                lemma_args_close(s, i + 1, depth, true, true);
            } else {
                lemma_args_close(s, i + 1, depth, s[i] != '"', false);
            }
        } else if s[i] == '"' {
            lemma_args_close(s, i + 1, depth, true, escaped);
        } else if s[i] == '(' {
            lemma_args_close(s, i + 1, depth + 1, false, escaped);
        } else if s[i] == ')' {
            if depth != 1 {
                lemma_args_close(s, i + 1, depth - 1, false, escaped);
            }
        } else {
            lemma_args_close(s, i + 1, depth, false, escaped);
        }
    }
}

proof fn lemma_trim_start_len(s: Seq<char>)
    ensures
        crate::strings::trim_start(s).len() <= s.len(),
    decreases s.len(),
{
    if s.len() > 0 && crate::strings::is_white_space(s[0]) {
        lemma_trim_start_len(s.drop_first());
    }
}

proof fn lemma_call_open(s: Seq<char>, i: int, name: Seq<char>)
    requires
        0 <= i <= s.len(),
    ensures
        call_open(s, i, name) matches Some(j) ==> i < j <= s.len(),
{
    let bang = i + name.len();
    if bang < s.len() {
        lemma_trim_start_len(s.skip(bang + 1));
    }
}

/// The string literals in the arguments of an invocation of `name` at `i`, and the position after
/// the invocation.
pub open spec fn call_at(s: Seq<char>, i: int, name: Seq<char>) -> Option<(Seq<Seq<char>>, int)> {
    match call_open(s, i, name) {
        None => None,
        Some(open) => match args_close(s, open, 1, false, false) {
            None => None,
            Some(close) => Some((literals(s.subrange(open, close), 0, Seq::empty()), close + 1)),
        },
    }
}

/// What stands at position `i` of source text: a message or nothing, and where to go on. String
/// literals and comments are passed over.
pub open spec fn token(s: Seq<char>, i: int) -> (Option<MessageView>, int) {
    if s[i] == '"' {
        (None, string_end(s, i + 1, false))
    } else if s[i] == '/' && i + 1 < s.len() && s[i + 1] == '/' {
        (None, line_end(s, i))
    } else if s[i] == '/' && i + 1 < s.len() && s[i + 1] == '*' {
        (None, block_end(s, i + 2))
    } else {
        match call_at(s, i, "tr_plural"@) {
            Some((lits, next)) => (
                if lits.len() >= 2 {
                    Some(MessageView { msgid: lits[0], plural: Some(lits[1]) })
                } else {
                    None
                },
                next,
            ),
            None => match call_at(s, i, "tr"@) {
                Some((lits, next)) => (
                    if lits.len() >= 1 {
                        Some(MessageView { msgid: lits[0], plural: None })
                    } else {
                        None
                    },
                    next,
                ),
                None => (None, i + 1),
            },
        }
    }
}

proof fn lemma_token(s: Seq<char>, i: int)
    requires
        0 <= i < s.len(),
    ensures
        i < token(s, i).1 <= s.len(),
{
    lemma_string_end(s, i + 1, false);
    lemma_block_end(s, i + 2);
    crate::strings::lemma_find_char(s.skip(i), '\n');
    lemma_call_open(s, i, "tr_plural"@);
    lemma_call_open(s, i, "tr"@);
    if let Some(open) = call_open(s, i, "tr_plural"@) {
        lemma_args_close(s, open, 1, false, false);
    }
    if let Some(open) = call_open(s, i, "tr"@) {
        lemma_args_close(s, open, 1, false, false);
    }
}

/// Whether a list of messages has one with the given source string.
pub open spec fn has_id(ms: Seq<MessageView>, id: Seq<char>) -> bool {
    exists|k: int| 0 <= k < ms.len() && (#[trigger] ms[k]).msgid == id
}

/// `ms` with a message added, unless its source string is there already.
pub open spec fn added(ms: Seq<MessageView>, m: Option<MessageView>) -> Seq<MessageView> {
    match m {
        Some(x) => if has_id(ms, x.msgid) {
            ms
        } else {
            ms.push(x)
        },
        None => ms,
    }
}

/// The messages of source text from position `i` on, after `done`.
pub open spec fn collected(s: Seq<char>, i: int, done: Seq<MessageView>) -> Seq<MessageView>
    decreases s.len() - i,
    via collected_decreases
{
    if i < 0 || i >= s.len() {
        done
    } else {
        collected(s, token(s, i).1, added(done, token(s, i).0))
    }
}

#[via_fn]
proof fn collected_decreases(s: Seq<char>, i: int, done: Seq<MessageView>) {
    if 0 <= i < s.len() {
        lemma_token(s, i);
    }
}

/// No source string occurs twice.
pub open spec fn distinct_ids(ms: Seq<MessageView>) -> bool {
    forall|a: int, b: int|
        #![trigger ms[a], ms[b]]
        0 <= a < b < ms.len() ==> ms[a].msgid != ms[b].msgid
}

fn is_ident_char(c: char) -> (r: bool)
    ensures
        r == is_ident(c),
{
    ('a' <= c && c <= 'z') || ('A' <= c && c <= 'Z') || ('0' <= c && c <= '9') || c == '_'
}

/// The position just after the string literal whose inside starts at `i`.
fn skip_string(v: &[char], i: usize) -> (r: usize)
    requires
        i <= v@.len(),
    ensures
        r == string_end(v@, i as int, false),
        i <= r <= v@.len(),
{
    let mut j: usize = i;
    let mut escaped = false;
    while j < v.len()
        invariant
            i <= j <= v@.len(),
            string_end(v@, j as int, escaped) == string_end(v@, i as int, false),
        decreases v@.len() - j,
    {
        let c = v[j];
        j = j + 1;
        if escaped {
            escaped = false;
        } else if c == '\\' {
            escaped = true;
        } else if c == '"' {
            return j;
        }
    }
    j
}

/// The position just after the line comment at `i`.
fn skip_line_comment(v: &[char], i: usize) -> (r: usize)
    requires
        i < v@.len(),
    ensures
        r == line_end(v@, i as int),
        r <= v@.len(),
{
    let j = find_from(v, i, v.len(), '\n');
    assert(v@.skip(i as int) == v@.subrange(i as int, v@.len() as int));
    if j < v.len() {
        j + 1
    } else {
        j
    }
}

/// The position just after the first `*/` from `i` on.
fn skip_block_comment(v: &[char], i: usize) -> (r: usize)
    requires
        i <= v@.len(),
    ensures
        r == block_end(v@, i as int),
        r <= v@.len(),
{
    let mut j: usize = i;
    while j < v.len() && j + 1 < v.len()
        invariant
            i <= j <= v@.len(),
            block_end(v@, j as int) == block_end(v@, i as int),
        decreases v@.len() - j,
    {
        if v[j] == '*' && v[j + 1] == '/' {
            return j + 2;
        }
        j = j + 1;
    }
    v.len()
}

/// If an invocation of `name!(` begins at `i`, the position just after its `(`.
fn macro_at(v: &[char], i: usize, name: &str) -> (r: Option<usize>)
    requires
        i < v@.len(),
    ensures
        match r {
            Some(j) => call_open(v@, i as int, name@) == Some(j as int) && i < j <= v@.len(),
            None => call_open(v@, i as int, name@) is None,
        },
{
    assert(v@.skip(i as int) == v@.subrange(i as int, v@.len() as int));
    if i > 0 && is_ident_char(v[i - 1]) {
        return None;
    }
    if !starts_with(v, i, v.len(), name) {
        return None;
    }
    let n: usize = name.unicode_len();
    let bang: usize = i + n;
    if bang >= v.len() || v[bang] != '!' {
        return None;
    }
    let open = skip_whitespace(v, bang + 1, v.len());
    proof {
        assert(v@.skip(bang + 1) == v@.subrange(bang + 1, v@.len() as int));
    }
    let ghost rest = v@.subrange(open as int, v@.len() as int);
    if open < v.len() && v[open] == '(' {
        assert(rest[0] == v@[open as int]);
        Some(open + 1)
    } else {
        assert(open < v@.len() ==> rest[0] == v@[open as int]);
        None
    }
}

/// The position of the `)` that closes the argument list starting at `open`, with string literals
/// respected.
fn capture_args(v: &[char], open: usize) -> (r: Option<usize>)
    requires
        1 <= open <= v@.len(),
    ensures
        match r {
            Some(j) => args_close(v@, open as int, 1, false, false) == Some(j as int) && open <= j
                < v@.len(),
            None => args_close(v@, open as int, 1, false, false) is None,
        },
{
    let mut i: usize = open;
    let mut depth: usize = 1;
    let mut in_str = false;
    let mut escaped = false;
    while i < v.len()
        invariant
            1 <= open <= i <= v@.len(),
            1 <= depth <= 1 + i - open,
            in_str || !escaped,
            args_close(v@, i as int, depth as int, in_str, escaped) == args_close(
                v@,
                open as int,
                1,
                false,
                false,
            ),
        decreases v@.len() - i,
    {
        let c = v[i];
        if in_str {
            if escaped {
                escaped = false;
            } else if c == '\\' {
                escaped = true;
            } else if c == '"' {
                in_str = false;
            }
        } else if c == '"' {
            in_str = true;
        } else if c == '(' {
            depth = depth + 1;
        } else if c == ')' {
            if depth == 1 {
                return Some(i);
            }
            depth = depth - 1;
        }
        i = i + 1;
    }
    None
}

/// Every double-quoted, escape-aware string literal at `lo .. hi`, in order.
fn string_literals(v: &[char], lo: usize, hi: usize) -> (r: Vec<String>)
    requires
        lo <= hi <= v@.len(),
    ensures
        crate::lists::texts(r@) == literals(
            v@.subrange(lo as int, hi as int),
            0,
            Seq::empty(),
        ),
{
    let ghost s = v@.subrange(lo as int, hi as int);
    let mut out: Vec<String> = Vec::new();
    let mut i: usize = lo;
    assert(crate::lists::texts(out@) =~= Seq::empty());
    while i < hi
        invariant
            lo <= i <= hi <= v@.len(),
            s == v@.subrange(lo as int, hi as int),
            literals(s, i - lo, crate::lists::texts(out@)) == literals(s, 0, Seq::empty()),
        decreases hi - i,
    {
        let c = v[i];
        assert(s[i - lo] == c);
        i = i + 1;
        if c == '"' {
            let ghost from = i - lo;
            let mut lit = String::new();
            let mut escaped = false;
            let mut open = true;
            while i < hi && open
                invariant
                    lo < i <= hi <= v@.len(),
                    s == v@.subrange(lo as int, hi as int),
                    from <= i - lo,
                    open ==> literal(s, i - lo, escaped, lit@) == literal(
                        s,
                        from,
                        false,
                        Seq::empty(),
                    ),
                    open ==> string_end(s, i - lo, escaped) == string_end(s, from, false),
                    !open ==> lit@ == literal(s, from, false, Seq::empty()),
                    !open ==> i - lo == string_end(s, from, false),
                decreases hi - i + (if open {
                    1int
                } else {
                    0int
                }),
            {
                let d = v[i];
                assert(s[i - lo] == d);
                i = i + 1;
                if escaped {
                    if d == 'n' {
                        lit.push('\n');
                    } else if d == 't' {
                        lit.push('\t');
                    } else {
                        lit.push(d);
                    }
                    escaped = false;
                } else if d == '\\' {
                    escaped = true;
                } else if d == '"' {
                    open = false;
                } else {
                    lit.push(d);
                }
            }
            let ghost before = crate::lists::texts(out@);
            out.push(lit);
            assert(crate::lists::texts(out@) =~= before.push(lit@));
        }
    }
    out
}

/// The arguments' string literals of an invocation of `name` at `i`, and the position after it.
fn call_literals(v: &[char], i: usize, name: &str) -> (r: Option<(Vec<String>, usize)>)
    requires
        i < v@.len(),
    ensures
        match r {
            Some((lits, next)) => call_at(v@, i as int, name@) == Some(
                (crate::lists::texts(lits@), next as int),
            ) && i < next <= v@.len(),
            None => call_at(v@, i as int, name@) is None,
        },
{
    assert(v.len() == v@.len());
    match macro_at(v, i, name) {
        None => None,
        Some(open) => match capture_args(v, open) {
            None => None,
            Some(close) => Some((string_literals(v, open, close), close + 1)),
        },
    }
}

/// Adds a message, unless its source string is there already.
fn add_message(out: &mut Vec<ExtractedMessage>, m: ExtractedMessage)
    ensures
        messages(final(out)@) == added(messages(old(out)@), Some(m@)),
{
    let ghost ms = messages(out@);
    let mut k: usize = 0;
    while k < out.len()
        invariant
            k <= out@.len(),
            out@ == old(out)@,
            ms == messages(out@),
            forall|j: int| 0 <= j < k ==> (#[trigger] ms[j]).msgid != m@.msgid,
        decreases out@.len() - k,
    {
        assert(ms[k as int] == out@[k as int]@);
        if str_eq(out[k].msgid.as_str(), m.msgid.as_str()) {
            assert(has_id(ms, m@.msgid));
            return;
        }
        k = k + 1;
    }
    out.push(m);
    assert(messages(out@) =~= ms.push(m@));
}

/// Scans source text for `tr!` / `tr_plural!` markers and collects the
/// translatable strings, in source order and de-duplicated by source string.
///
/// String literals and `//` / `/* */` comments in the source are skipped, so a
/// `tr!(…)` that only appears inside a string or a comment is not mistaken for a
/// real call.
pub fn extract_messages(source: &str) -> (r: Vec<ExtractedMessage>)
    ensures
        messages(r@) == collected(source@, 0, Seq::empty()),
        distinct_ids(messages(r@)),
{
    let v = to_chars(source);
    let mut out: Vec<ExtractedMessage> = Vec::new();
    let mut i: usize = 0;
    assert(messages(out@) =~= Seq::empty());
    while i < v.len()
        invariant
            i <= v@.len(),
            v@ == source@,
            collected(v@, i as int, messages(out@)) == collected(source@, 0, Seq::empty()),
            distinct_ids(messages(out@)),
        decreases v@.len() - i,
    {
        proof {
            lemma_token(v@, i as int);
        }
        let ghost here = i as int;
        let ghost before = messages(out@);
        let c = v[i];
        let d = if i + 1 < v.len() {
            v[i + 1]
        } else {
            '\0'
        };
        if c == '"' {
            i = skip_string(v.as_slice(), i + 1);
        } else if c == '/' && d == '/' {
            i = skip_line_comment(v.as_slice(), i);
        } else if c == '/' && d == '*' {
            i = skip_block_comment(v.as_slice(), i + 2);
        } else if let Some((lits, next)) = call_literals(v.as_slice(), i, "tr_plural") {
            if lits.len() >= 2 {
                let m = ExtractedMessage {
                    msgid: lits[0].clone(),
                    plural: Some(lits[1].clone()),
                };
                assert(token(v@, here).0 == Some(m@));
                add_message(&mut out, m);
            }
            i = next;
        } else if let Some((lits, next)) = call_literals(v.as_slice(), i, "tr") {
            if lits.len() >= 1 {
                let m = ExtractedMessage { msgid: lits[0].clone(), plural: None };
                assert(token(v@, here).0 == Some(m@));
                add_message(&mut out, m);
            }
            i = next;
        } else {
            i = i + 1;
        }
        assert(i == token(v@, here).1);
        assert(messages(out@) == added(before, token(v@, here).0));
    }
    out
}

// ---------------------------------------------------------------------------
// Templates and merging
// ---------------------------------------------------------------------------

/// How one character is written in a quoted literal.
pub open spec fn escape_char(c: char) -> Seq<char> {
    if c == '"' {
        seq!['\\', '"']
    } else if c == '\\' {
        seq!['\\', '\\']
    } else if c == '\n' {
        seq!['\\', 'n']
    } else if c == '\t' {
        seq!['\\', 't']
    } else {
        seq![c]
    }
}

/// How a text is written in a quoted literal.
pub open spec fn escaped(s: Seq<char>) -> Seq<char>
    decreases s.len(),
{
    if s.len() == 0 {
        Seq::empty()
    } else {
        escape_char(s[0]) + escaped(s.drop_first())
    }
}

/// The template entry of a message: its strings, with an empty translation.
pub open spec fn template_entry(m: MessageView) -> Seq<char> {
    let id = "msgid \""@ + escaped(m.msgid) + "\"\n"@;
    match m.plural {
        Some(p) => id + "msgid_plural \""@ + escaped(p) + "\"\nmsgstr[0] \"\"\nmsgstr[1] \"\"\n\n"@,
        None => id + "msgstr \"\"\n\n"@,
    }
}

/// The template of a list of messages.
pub open spec fn template(ms: Seq<MessageView>) -> Seq<char>
    decreases ms.len(),
{
    if ms.len() == 0 {
        Seq::empty()
    } else {
        template(ms.drop_last()) + template_entry(ms.last())
    }
}

/// Escapes a text for a double-quoted literal of a catalog: the inverse of the unescaping in
/// [`Catalog::parse`].
pub fn escape_po(s: &str) -> (r: String)
    ensures
        r@ == escaped(s@),
{
    let v = to_chars(s);
    let mut out = String::new();
    let mut i: usize = 0;
    assert(v@.skip(0) == v@);
    assert(out@ + escaped(s@) == escaped(s@));
    while i < v.len()
        invariant
            i <= v@.len(),
            v@ == s@,
            escaped(s@) == out@ + escaped(v@.skip(i as int)),
        decreases v@.len() - i,
    {
        let ghost rest = v@.skip(i as int);
        let ghost before = out@;
        let c = v[i];
        proof {
            assert(rest[0] == c);
            assert(rest.drop_first() == v@.skip(i + 1));
            assert(before + (escape_char(c) + escaped(v@.skip(i + 1))) == (before + escape_char(c))
                + escaped(v@.skip(i + 1)));
        }
        if c == '"' {
            out.push('\\');
            out.push('"');
        } else if c == '\\' {
            out.push('\\');
            out.push('\\');
        } else if c == '\n' {
            out.push('\\');
            out.push('n');
        } else if c == '\t' {
            out.push('\\');
            out.push('t');
        } else {
            out.push(c);
        }
        assert(out@ == before + escape_char(c));
        i = i + 1;
    }
    assert(out@ + Seq::<char>::empty() == out@);
    out
}

/// Generates a catalog template from extracted messages: one entry per message
/// with an empty translation, ready for a translator to fill.
pub fn generate_pot(messages: &[ExtractedMessage]) -> (r: String)
    ensures
        r@ == template(self::messages(messages@)),
{
    let ghost ms = self::messages(messages@);
    let mut out = String::new();
    let mut i: usize = 0;
    while i < messages.len()
        invariant
            i <= messages@.len(),
            ms == self::messages(messages@),
            out@ == template(ms.take(i as int)),
        decreases messages@.len() - i,
    {
        let ghost before = out@;
        let m = &messages[i];
        assert(ms[i as int] == m@);
        out.push_str("msgid \"");
        out.push_str(escape_po(m.msgid.as_str()).as_str());
        out.push_str("\"\n");
        let ghost id = "msgid \""@ + escaped(m@.msgid) + "\"\n"@;
        assert(out@ == before + id);
        match &m.plural {
            Some(p) => {
                out.push_str("msgid_plural \"");
                out.push_str(escape_po(p.as_str()).as_str());
                out.push_str("\"\nmsgstr[0] \"\"\nmsgstr[1] \"\"\n\n");
            },
            None => {
                out.push_str("msgstr \"\"\n\n");
            },
        }
        assert(out@ == before + template_entry(m@));
        i = i + 1;
        assert(ms.take(i as int).drop_last() == ms.take(i - 1));
    }
    assert(ms.take(ms.len() as int) == ms);
    out
}

/// Whether a list of messages has a singular (or plural) message with the given source string.
pub open spec fn asks_for(ms: Seq<MessageView>, id: Seq<char>, plural: bool) -> bool {
    exists|k: int|
        0 <= k < ms.len() && (#[trigger] ms[k]).msgid == id && (ms[k].plural is Some) == plural
}

/// The singular translations of a catalog, cut down to the messages that are asked for.
pub open spec fn kept(c: CatalogView, ms: Seq<MessageView>) -> Map<Seq<char>, Seq<char>> {
    Map::new(
        |id: Seq<char>| crate::i18n::catalog::is_translated(c, id) && asks_for(ms, id, false),
        |id: Seq<char>| c.singular[id],
    )
}

/// The plural translations of a catalog, cut down to the messages that are asked for.
pub open spec fn kept_forms(c: CatalogView, ms: Seq<MessageView>) -> Map<
    Seq<char>,
    Seq<Seq<char>>,
> {
    Map::new(
        |id: Seq<char>|
            crate::i18n::catalog::is_plural_translated(c, id) && asks_for(ms, id, true),
        |id: Seq<char>| c.plural[id],
    )
}

/// Merges freshly extracted strings with an existing translated catalog.
///
/// The result carries a translation for every current message that `existing`
/// already had (human work is preserved), drops entries no longer present in the
/// sources, and omits new and untranslated ones: at runtime those fall back to the
/// source string, and they appear in the [`generate_pot`] template for a translator
/// to complete.
pub fn merge(existing: &Catalog, messages: &[ExtractedMessage]) -> (r: Catalog)
    requires
        existing.wf(),
    ensures
        r.wf(),
        r@.locale == existing@.locale,
        r@.singular == kept(existing@, self::messages(messages@)),
        r@.plural == kept_forms(existing@, self::messages(messages@)),
{
    let ghost ms = self::messages(messages@);
    let mut merged = Catalog::new(existing.locale());
    let mut i: usize = 0;
    proof {
        assert(merged@.singular =~= kept(existing@, ms.take(0)));
        assert(merged@.plural =~= kept_forms(existing@, ms.take(0)));
    }
    while i < messages.len()
        invariant
            i <= messages@.len(),
            existing.wf(),
            merged.wf(),
            ms == self::messages(messages@),
            merged@.locale == existing@.locale,
            merged@.singular == kept(existing@, ms.take(i as int)),
            merged@.plural == kept_forms(existing@, ms.take(i as int)),
        decreases messages@.len() - i,
    {
        let m = &messages[i];
        proof {
            assert(ms[i as int] == m@);
            let a = ms.take(i as int);
            let b = ms.take(i + 1);
            assert(b[i as int] == m@);
            assert forall|id: Seq<char>, p: bool| #[trigger]
                asks_for(b, id, p) == (asks_for(a, id, p) || (id == m@.msgid && p
                    == m@.plural is Some)) by {
                if asks_for(a, id, p) {
                    let k = choose|k: int|
                        0 <= k < a.len() && (#[trigger] a[k]).msgid == id && (a[k].plural is Some)
                            == p;
                    assert(b[k] == a[k]);
                }
                if asks_for(b, id, p) && !(id == m@.msgid && p == m@.plural is Some) {
                    let k = choose|k: int|
                        0 <= k < b.len() && (#[trigger] b[k]).msgid == id && (b[k].plural is Some)
                            == p;
                    assert(a[k] == b[k]);
                }
            }
        }
        if m.plural.is_some() {
            merged.copy_plural(existing, m.msgid.as_str());
        } else if let Some(s) = existing.get(m.msgid.as_str()) {
            if !is_empty(s) {
                merged.insert(m.msgid.as_str(), s);
            }
        }
        i = i + 1;
        assert(merged@.singular =~= kept(existing@, ms.take(i as int)));
        assert(merged@.plural =~= kept_forms(existing@, ms.take(i as int)));
    }
    assert(ms.take(ms.len() as int) == ms);
    merged
}

/// What is escaped for a template is read back as it was.
pub proof fn law_escape_round_trip(s: Seq<char>)
    ensures
        crate::i18n::catalog::unescape(escaped(s)) == Ok::<
            Seq<char>,
            crate::i18n::ParseErrorKind,
        >(s),
    decreases s.len(),
{
    if s.len() > 0 {
        let rest = escaped(s.drop_first());
        let e = escape_char(s[0]);
        law_escape_round_trip(s.drop_first());
        assert((e + rest)[0] == e[0]);
        if e.len() == 2 {
            assert((e + rest)[1] == e[1]);
            assert((e + rest).skip(2) == rest);
        } else {
            assert((e + rest).drop_first() == rest);
        }
        assert(seq![s[0]] + s.drop_first() == s);
    } else {
        assert(s =~= Seq::empty());
    }
}

/// How a text is written as a quoted literal.
pub open spec fn quoted(s: Seq<char>) -> Seq<char> {
    seq!['"'] + escaped(s) + seq!['"']
}

/// A quoted, escaped text is read back as it was, with nothing lost to trimming, whatever white
/// space stands around it.
pub proof fn law_quoted_round_trip(before: Seq<char>, s: Seq<char>, after: Seq<char>)
    requires
        crate::strings::is_blank(before),
        crate::strings::is_blank(after),
    ensures
        crate::i18n::catalog::read_quoted(before + quoted(s) + after) == Ok::<
            Seq<char>,
            crate::i18n::ParseErrorKind,
        >(s),
{
    law_escape_round_trip(s);
    let t = quoted(s);
    crate::strings::lemma_trim_blank(before, t, after);
    assert(t.subrange(1, t.len() - 1) == escaped(s));
}

proof fn lemma_escaped_is_one_line(s: Seq<char>)
    ensures
        forall|i: int| 0 <= i < escaped(s).len() ==> escaped(s)[i] != '\n',
    decreases s.len(),
{
    if s.len() > 0 {
        let head = escape_char(s[0]);
        let rest = escaped(s.drop_first());
        lemma_escaped_is_one_line(s.drop_first());
        assert forall|i: int| 0 <= i < escaped(s).len() implies escaped(s)[i] != '\n' by {
            if i < head.len() {
                assert(escaped(s)[i] == head[i]);
            } else {
                assert(escaped(s)[i] == rest[i - head.len()]);
            }
        }
    }
}

/// A reader's state with the entry of a message open, its translation still empty.
spec fn opened(st: PoState, m: MessageView) -> PoState {
    PoState {
        cat: crate::i18n::catalog::closed_entry(st),
        id: Some(m.msgid),
        singular: if m.plural is Some {
            None
        } else {
            Some(Seq::empty())
        },
        forms: if m.plural is Some {
            seq![(0nat, Seq::empty()), (1nat, Seq::empty())]
        } else {
            Seq::empty()
        },
    }
}

/// The state in which the template of some messages leaves a reader.
spec fn after_template(locale: Seq<char>, ms: Seq<MessageView>) -> PoState
    decreases ms.len(),
{
    if ms.len() == 0 {
        crate::i18n::catalog::start(locale)
    } else {
        opened(after_template(locale, ms.drop_last()), ms.last())
    }
}

/// The lines of a template entry.
spec fn entry_lines(m: MessageView) -> Seq<Seq<char>> {
    match m.plural {
        Some(p) => seq![
            "msgid "@ + quoted(m.msgid),
            "msgid_plural "@ + quoted(p),
            "msgstr[0] \"\""@,
            "msgstr[1] \"\""@,
            Seq::empty(),
        ],
        None => seq!["msgid "@ + quoted(m.msgid), "msgstr \"\""@, Seq::empty()],
    }
}

/// The lines of a template.
spec fn template_lines(ms: Seq<MessageView>) -> Seq<Seq<char>>
    decreases ms.len(),
{
    if ms.len() == 0 {
        Seq::empty()
    } else {
        template_lines(ms.drop_last()) + entry_lines(ms.last())
    }
}

proof fn lemma_id_line(keyword: Seq<char>, s: Seq<char>)
    requires
        forall|i: int| 0 <= i < keyword.len() ==> keyword[i] != '\n',
    ensures
        forall|i: int|
            0 <= i < (keyword + quoted(s)).len() ==> (keyword + quoted(s))[i] != '\n',
{
    lemma_escaped_is_one_line(s);
    let line = keyword + quoted(s);
    assert forall|i: int| 0 <= i < line.len() implies line[i] != '\n' by {
        if i < keyword.len() {
            assert(line[i] == keyword[i]);
        } else {
            let k = i - keyword.len();
            assert(line[i] == quoted(s)[k]);
            if 0 < k < quoted(s).len() - 1 {
                assert(quoted(s)[k] == escaped(s)[k - 1]);
            }
        }
    }
}

proof fn lemma_entry_lines(m: MessageView, rest: Seq<char>)
    ensures
        crate::strings::lines(template_entry(m) + rest) == entry_lines(m) + crate::strings::lines(
            rest,
        ),
{
    let nl = seq!['\n'];
    let none = Seq::<char>::empty();
    reveal_strlit("msgid ");
    reveal_strlit("msgid \"");
    reveal_strlit("\"\n");
    lemma_id_line("msgid "@, m.msgid);
    let l0 = "msgid "@ + quoted(m.msgid);
    match m.plural {
        Some(p) => {
            reveal_strlit("msgid_plural ");
            reveal_strlit("msgid_plural \"");
            reveal_strlit("\"\nmsgstr[0] \"\"\nmsgstr[1] \"\"\n\n");
            reveal_strlit("msgstr[0] \"\"");
            reveal_strlit("msgstr[1] \"\"");
            lemma_id_line("msgid_plural "@, p);
            let l1 = "msgid_plural "@ + quoted(p);
            let l2 = "msgstr[0] \"\""@;
            let l3 = "msgstr[1] \"\""@;
            let r4 = none + nl + rest;
            let r3 = l3 + nl + r4;
            let r2 = l2 + nl + r3;
            let r1 = l1 + nl + r2;
            assert(template_entry(m) + rest =~= l0 + nl + r1);
            crate::strings::lemma_first_line(l0, r1);
            crate::strings::lemma_first_line(l1, r2);
            crate::strings::lemma_first_line(l2, r3);
            crate::strings::lemma_first_line(l3, r4);
            crate::strings::lemma_first_line(none, rest);
            let more = crate::strings::lines(rest);
            assert(seq![l0] + (seq![l1] + (seq![l2] + (seq![l3] + (seq![none] + more))))
                =~= entry_lines(m) + more);
        },
        None => {
            reveal_strlit("msgstr \"\"\n\n");
            reveal_strlit("msgstr \"\"");
            let l1 = "msgstr \"\""@;
            let r2 = none + nl + rest;
            let r1 = l1 + nl + r2;
            assert(template_entry(m) + rest =~= l0 + nl + r1);
            crate::strings::lemma_first_line(l0, r1);
            crate::strings::lemma_first_line(l1, r2);
            crate::strings::lemma_first_line(none, rest);
            let more = crate::strings::lines(rest);
            assert(seq![l0] + (seq![l1] + (seq![none] + more)) =~= entry_lines(m) + more);
        },
    }
}

proof fn lemma_template_lines(ms: Seq<MessageView>, rest: Seq<char>)
    ensures
        crate::strings::lines(template(ms) + rest) == template_lines(ms) + crate::strings::lines(
            rest,
        ),
    decreases ms.len(),
{
    let more = crate::strings::lines(rest);
    if ms.len() == 0 {
        assert(template(ms) + rest == rest);
        assert(template_lines(ms) + more == more);
    } else {
        let head = ms.drop_last();
        let e = template_entry(ms.last());
        lemma_template_lines(head, e + rest);
        lemma_entry_lines(ms.last(), rest);
        crate::lists::lemma_assoc(template(head), e, rest);
        crate::lists::lemma_assoc(template_lines(head), entry_lines(ms.last()), more);
    }
}

/// What a template line means to a reader with an open entry: a `msgid` line starts the entry of
/// its text, and a `msgid_plural` line is passed over.
proof fn lemma_read_id_lines(s: Seq<char>, open: bool)
    ensures
        crate::strings::trim("msgid "@ + quoted(s)) == "msgid "@ + quoted(s),
        crate::i18n::catalog::read_line("msgid "@ + quoted(s), open) == Ok::<
            PoLine,
            crate::i18n::ParseErrorKind,
        >(PoLine::Id(s)),
        crate::strings::trim("msgid_plural "@ + quoted(s)) == "msgid_plural "@ + quoted(s),
        crate::i18n::catalog::read_line("msgid_plural "@ + quoted(s), open) == Ok::<
            PoLine,
            crate::i18n::ParseErrorKind,
        >(PoLine::Skip),
{
    reveal_strlit("msgid ");
    reveal_strlit("msgid");
    reveal_strlit("msgid_plural ");
    reveal_strlit("msgid_plural");
    let gap = seq![' '];
    let none = Seq::<char>::empty();
    law_quoted_round_trip(gap, s, none);
    assert(gap + quoted(s) + none == gap + quoted(s));
    let a = "msgid "@ + quoted(s);
    let b = "msgid_plural "@ + quoted(s);
    assert(a.last() == '"' && b.last() == '"');
    crate::strings::lemma_trim_fixed(a);
    crate::strings::lemma_trim_fixed(b);
    assert(a[5] == ' ');
    assert("msgid_plural"@[5] == '_');
    if a.len() >= 12 {
        assert(a.take(12)[5] == ' ');
    }
    assert(a.take(5) =~= "msgid"@);
    assert(a.skip(5) =~= gap + quoted(s));
    assert(b.take(12) =~= "msgid_plural"@);
    assert(b.skip(12) =~= gap + quoted(s));
}

/// An empty translation, alone or as one of the first two forms, is read as such.
proof fn lemma_read_empty_lines()
    ensures
        crate::strings::trim("msgstr \"\""@) == "msgstr \"\""@,
        crate::i18n::catalog::read_line("msgstr \"\""@, true) == Ok::<
            PoLine,
            crate::i18n::ParseErrorKind,
        >(PoLine::Str(Seq::empty())),
        crate::strings::trim("msgstr[0] \"\""@) == "msgstr[0] \"\""@,
        crate::i18n::catalog::read_line("msgstr[0] \"\""@, true) == Ok::<
            PoLine,
            crate::i18n::ParseErrorKind,
        >(PoLine::Form(0, Seq::empty())),
        crate::strings::trim("msgstr[1] \"\""@) == "msgstr[1] \"\""@,
        crate::i18n::catalog::read_line("msgstr[1] \"\""@, true) == Ok::<
            PoLine,
            crate::i18n::ParseErrorKind,
        >(PoLine::Form(1, Seq::empty())),
{
    reveal_strlit("msgid");
    reveal_strlit("msgid_plural");
    reveal_strlit("msgstr");
    reveal_strlit("msgstr[");
    reveal_strlit("msgstr \"\"");
    reveal_strlit("msgstr[0] \"\"");
    reveal_strlit("msgstr[1] \"\"");
    let gap = seq![' '];
    let none = Seq::<char>::empty();
    law_quoted_round_trip(gap, none, none);
    assert(gap + quoted(none) + none =~= seq![' ', '"', '"']);
    let a = "msgstr \"\""@;
    crate::strings::lemma_trim_fixed(a);
    assert(a[3] == 's' && "msgid"@[3] == 'i' && "msgid_plural"@[3] == 'i');
    assert(a.take(5)[3] == 's');
    assert(a.take(6) =~= "msgstr"@);
    assert(a.take(7)[6] == ' ' && "msgstr["@[6] == '[');
    assert(a.skip(6) =~= seq![' ', '"', '"']);
    let form = seq!['m', 's', 'g', 's', 't', 'r', '[', '0', ']', ' ', '"', '"'];
    assert("msgstr[0] \"\""@ =~= form);
    assert("msgstr[1] \"\""@ =~= form.update(7, '1'));
    assert(form.update(7, '1') =~= seq![
        'm',
        's',
        'g',
        's',
        't',
        'r',
        '[',
        '1',
        ']',
        ' ',
        '"',
        '"',
    ]);
    lemma_read_form_line("msgstr[0] \"\""@, '0', 0);
    lemma_read_form_line("msgstr[1] \"\""@, '1', 1);
}

proof fn lemma_read_form_line(line: Seq<char>, digit: char, index: nat)
    requires
        line == seq!['m', 's', 'g', 's', 't', 'r', '[', digit, ']', ' ', '"', '"'],
        (digit == '0' && index == 0) || (digit == '1' && index == 1),
    ensures
        crate::strings::trim(line) == line,
        crate::i18n::catalog::read_line(line, true) == Ok::<
            PoLine,
            crate::i18n::ParseErrorKind,
        >(PoLine::Form(index, Seq::empty())),
{
    reveal_strlit("msgid");
    reveal_strlit("msgid_plural");
    reveal_strlit("msgstr[");
    let gap = seq![' '];
    let none = Seq::<char>::empty();
    law_quoted_round_trip(gap, none, none);
    assert(gap + quoted(none) + none =~= seq![' ', '"', '"']);
    crate::strings::lemma_trim_fixed(line);
    assert(line.take(5)[3] == 's' && line.take(12)[3] == 's');
    assert("msgid"@[3] == 'i' && "msgid_plural"@[3] == 'i');
    assert(line.take(7) =~= "msgstr["@);
    let rest = line.skip(7);
    crate::strings::lemma_find_char_at(rest, ']', 1);
    let d = rest.take(1);
    assert(d =~= seq![digit]);
    assert(d.drop_last() =~= Seq::empty());
    reveal_with_fuel(crate::strings::decimal_value, 2);
    assert(crate::strings::all_digits(d));
    assert(rest.skip(2) =~= seq![' ', '"', '"']);
}

/// One more line is read, and it is `what`.
proof fn lemma_step(st: PoState, line: Seq<char>, tail: Seq<Seq<char>>, lineno: nat, what: PoLine)
    requires
        crate::i18n::catalog::read_line(crate::strings::trim(line), st.id is Some) == Ok::<
            PoLine,
            crate::i18n::ParseErrorKind,
        >(what),
    ensures
        crate::i18n::catalog::read_lines(st, seq![line] + tail, lineno)
            == crate::i18n::catalog::read_lines(
            crate::i18n::catalog::step(st, what),
            tail,
            lineno + 1,
        ),
{
    let all = seq![line] + tail;
    assert(all[0] == line);
    assert(all.drop_first() == tail);
}

/// The first two forms, both empty, as they are recorded.
proof fn lemma_two_forms()
    ensures
        crate::i18n::catalog::put_form(
            crate::i18n::catalog::put_form(Seq::empty(), 0, Seq::empty()),
            1,
            Seq::empty(),
        ) == seq![(0nat, Seq::<char>::empty()), (1nat, Seq::<char>::empty())],
{
    reveal_with_fuel(crate::i18n::catalog::put_form, 3);
    let none = Seq::<char>::empty();
    let one = crate::i18n::catalog::put_form(Seq::empty(), 0, none);
    assert(one =~= seq![(0nat, none)]);
    assert(one.drop_first() =~= Seq::empty());
    assert(crate::i18n::catalog::put_form(one.drop_first(), 1, none) =~= seq![(1nat, none)]);
    assert(crate::i18n::catalog::put_form(one, 1, none) =~= seq![(0nat, none), (1nat, none)]);
}

/// An empty line is passed over.
proof fn lemma_read_blank(open: bool)
    ensures
        crate::i18n::catalog::read_line(crate::strings::trim(Seq::empty()), open) == Ok::<
            PoLine,
            crate::i18n::ParseErrorKind,
        >(PoLine::Skip),
{
}

#[verifier::spinoff_prover]
proof fn lemma_read_plural_entry(
    st: PoState,
    m: MessageView,
    p: Seq<char>,
    tail: Seq<Seq<char>>,
    lineno: nat,
)
    requires
        m.plural == Some(p),
    ensures
        crate::i18n::catalog::read_lines(st, entry_lines(m) + tail, lineno)
            == crate::i18n::catalog::read_lines(opened(st, m), tail, lineno + 5),
{
    let none = Seq::<char>::empty();
    let l0 = "msgid "@ + quoted(m.msgid);
    let l1 = "msgid_plural "@ + quoted(p);
    let l2 = "msgstr[0] \"\""@;
    let l3 = "msgstr[1] \"\""@;
    let t4 = seq![none] + tail;
    let t3 = seq![l3] + t4;
    let t2 = seq![l2] + t3;
    let t1 = seq![l1] + t2;
    assert(entry_lines(m) + tail =~= seq![l0] + t1);
    let s1 = crate::i18n::catalog::step(st, PoLine::Id(m.msgid));
    let s2 = crate::i18n::catalog::step(s1, PoLine::Form(0, none));
    let s3 = crate::i18n::catalog::step(s2, PoLine::Form(1, none));
    lemma_two_forms();
    assert(s3 == opened(st, m));
    lemma_read_id_lines(m.msgid, st.id is Some);
    lemma_read_id_lines(p, true);
    lemma_read_empty_lines();
    lemma_read_blank(true);
    lemma_step(st, l0, t1, lineno, PoLine::Id(m.msgid));
    lemma_step(s1, l1, t2, lineno + 1, PoLine::Skip);
    lemma_step(s1, l2, t3, lineno + 2, PoLine::Form(0, none));
    lemma_step(s2, l3, t4, lineno + 3, PoLine::Form(1, none));
    lemma_step(s3, none, tail, lineno + 4, PoLine::Skip);
}

#[verifier::spinoff_prover]
proof fn lemma_read_singular_entry(
    st: PoState,
    m: MessageView,
    tail: Seq<Seq<char>>,
    lineno: nat,
)
    requires
        m.plural is None,
    ensures
        crate::i18n::catalog::read_lines(st, entry_lines(m) + tail, lineno)
            == crate::i18n::catalog::read_lines(opened(st, m), tail, lineno + 3),
{
    let none = Seq::<char>::empty();
    let l0 = "msgid "@ + quoted(m.msgid);
    let l1 = "msgstr \"\""@;
    let t2 = seq![none] + tail;
    let t1 = seq![l1] + t2;
    assert(entry_lines(m) + tail =~= seq![l0] + t1);
    let s1 = crate::i18n::catalog::step(st, PoLine::Id(m.msgid));
    let s2 = crate::i18n::catalog::step(s1, PoLine::Str(none));
    assert(s2 == opened(st, m));
    lemma_read_id_lines(m.msgid, st.id is Some);
    lemma_read_empty_lines();
    lemma_read_blank(true);
    lemma_step(st, l0, t1, lineno, PoLine::Id(m.msgid));
    lemma_step(s1, l1, t2, lineno + 1, PoLine::Str(none));
    lemma_step(s2, none, tail, lineno + 2, PoLine::Skip);
}

/// A template entry leaves an entry open whose translation is empty.
proof fn lemma_read_entry(st: PoState, m: MessageView, tail: Seq<Seq<char>>, lineno: nat)
    ensures
        crate::i18n::catalog::read_lines(st, entry_lines(m) + tail, lineno)
            == crate::i18n::catalog::read_lines(
            opened(st, m),
            tail,
            lineno + entry_lines(m).len(),
        ),
{
    match m.plural {
        Some(p) => lemma_read_plural_entry(st, m, p, tail, lineno),
        None => lemma_read_singular_entry(st, m, tail, lineno),
    }
}

proof fn lemma_read_template(locale: Seq<char>, ms: Seq<MessageView>, tail: Seq<Seq<char>>)
    ensures
        crate::i18n::catalog::read_lines(
            crate::i18n::catalog::start(locale),
            template_lines(ms) + tail,
            1,
        ) == crate::i18n::catalog::read_lines(
            after_template(locale, ms),
            tail,
            1 + template_lines(ms).len(),
        ),
    decreases ms.len(),
{
    if ms.len() == 0 {
        assert(template_lines(ms) + tail == tail);
    } else {
        let head = ms.drop_last();
        let entry = entry_lines(ms.last());
        lemma_read_template(locale, head, entry + tail);
        crate::lists::lemma_assoc(template_lines(head), entry, tail);
        lemma_read_entry(
            after_template(locale, head),
            ms.last(),
            tail,
            1 + template_lines(head).len(),
        );
    }
}

/// A catalog in which every message of a list has an entry and nothing is translated yet.
pub open spec fn untranslated(locale: Seq<char>, ms: Seq<MessageView>) -> CatalogView {
    CatalogView {
        locale,
        singular: Map::new(|id: Seq<char>| asks_for(ms, id, false), |id: Seq<char>| Seq::empty()),
        plural: Map::new(
            |id: Seq<char>| asks_for(ms, id, true),
            |id: Seq<char>| seq![Seq::empty(), Seq::empty()],
        ),
    }
}

/// The number of messages without a plural form.
pub open spec fn singular_count(ms: Seq<MessageView>) -> nat
    decreases ms.len(),
{
    if ms.len() == 0 {
        0
    } else {
        singular_count(ms.drop_last()) + (if ms.last().plural is Some {
            0nat
        } else {
            1
        })
    }
}

proof fn lemma_asks_for_last(ms: Seq<MessageView>, id: Seq<char>, plural: bool)
    requires
        ms.len() > 0,
    ensures
        asks_for(ms, id, plural) == (asks_for(ms.drop_last(), id, plural) || (ms.last().msgid == id
            && (ms.last().plural is Some) == plural)),
{
    let head = ms.drop_last();
    if asks_for(head, id, plural) {
        let k = choose|k: int|
            0 <= k < head.len() && (#[trigger] head[k]).msgid == id && (head[k].plural is Some)
                == plural;
        assert(ms[k] == head[k]);
    }
    if asks_for(ms, id, plural) {
        let k = choose|k: int|
            0 <= k < ms.len() && (#[trigger] ms[k]).msgid == id && (ms[k].plural is Some) == plural;
        if k < ms.len() - 1 {
            assert(head[k] == ms[k]);
        }
    }
}

proof fn lemma_after_template(locale: Seq<char>, ms: Seq<MessageView>)
    ensures
        crate::i18n::catalog::closed_entry(after_template(locale, ms)) == untranslated(locale, ms),
    decreases ms.len(),
{
    let c = crate::i18n::catalog::closed_entry(after_template(locale, ms));
    let u = untranslated(locale, ms);
    if ms.len() > 0 {
        lemma_after_template(locale, ms.drop_last());
        assert forall|id: Seq<char>, plural: bool| #[trigger]
            asks_for(ms, id, plural) == (asks_for(ms.drop_last(), id, plural) || (ms.last().msgid
                == id && (ms.last().plural is Some) == plural)) by {
            lemma_asks_for_last(ms, id, plural);
        }
        if ms.last().plural is Some {
            assert(crate::i18n::catalog::packed(after_template(locale, ms).forms)
                =~= seq![Seq::empty(), Seq::empty()]);
        }
    }
    assert(c.singular =~= u.singular);
    assert(c.plural =~= u.plural);
}

proof fn lemma_singular_count(locale: Seq<char>, ms: Seq<MessageView>)
    requires
        distinct_ids(ms),
    ensures
        untranslated(locale, ms).singular.dom().finite(),
        untranslated(locale, ms).singular.dom().len() == singular_count(ms),
    decreases ms.len(),
{
    let all = untranslated(locale, ms).singular.dom();
    if ms.len() == 0 {
        assert(all =~= Set::empty());
    } else {
        let head = ms.drop_last();
        let last = ms.last();
        let before = untranslated(locale, head).singular.dom();
        assert forall|i: int, j: int|
            #![trigger head[i], head[j]]
            0 <= i < j < head.len() implies head[i].msgid != head[j].msgid by {
            assert(ms[i] == head[i] && ms[j] == head[j]);
        }
        lemma_singular_count(locale, head);
        assert forall|id: Seq<char>| #[trigger]
            all.contains(id) == (before.contains(id) || (last.msgid == id && last.plural is None)) by {
            lemma_asks_for_last(ms, id, false);
        }
        if last.plural is Some {
            assert(all =~= before);
        } else {
            assert(!before.contains(last.msgid));
            assert(all =~= before.insert(last.msgid));
        }
    }
}

/// A generated template is read back as a catalog: every message has its entry, whatever
/// characters it holds, and every translation in it is empty, so that the source strings show
/// through.
pub proof fn law_template_parses_back(locale: Seq<char>, ms: Seq<MessageView>)
    ensures
        crate::i18n::catalog::parsed(locale, template(ms)) == Ok::<
            CatalogView,
            crate::i18n::ParseError,
        >(untranslated(locale, ms)),
        distinct_ids(ms) ==> untranslated(locale, ms).singular.dom().len() == singular_count(ms),
        forall|k: int|
            0 <= k < ms.len() && (#[trigger] ms[k]).plural is None ==> {
                let c = untranslated(locale, ms);
                &&& c.singular.dom().contains(ms[k].msgid)
                &&& c.singular[ms[k].msgid] == Seq::<char>::empty()
                &&& crate::i18n::catalog::lookup(c, ms[k].msgid) == ms[k].msgid
            },
        forall|k: int, index: nat|
            #![trigger ms[k], crate::i18n::catalog::plural_lookup(
                untranslated(locale, ms),
                ms[k].msgid,
                index,
            )]
            0 <= k < ms.len() && ms[k].plural is Some ==> crate::i18n::catalog::plural_lookup(
                untranslated(locale, ms),
                ms[k].msgid,
                index,
            ) == Some(Seq::<char>::empty()),
        forall|k: int|
            0 <= k < ms.len() && (#[trigger] ms[k]).plural is Some && distinct_ids(ms)
                ==> !untranslated(locale, ms).singular.dom().contains(ms[k].msgid),
{
    let none = Seq::<char>::empty();
    lemma_template_lines(ms, none);
    assert(template(ms) + none == template(ms));
    assert(crate::strings::lines(none) =~= Seq::empty());
    lemma_read_template(locale, ms, Seq::empty());
    lemma_after_template(locale, ms);
    if distinct_ids(ms) {
        lemma_singular_count(locale, ms);
    }
    assert forall|k: int| 0 <= k < ms.len() implies asks_for(
        ms,
        (#[trigger] ms[k]).msgid,
        ms[k].plural is Some,
    ) by {}
    assert forall|k: int|
        0 <= k < ms.len() && (#[trigger] ms[k]).plural is Some && distinct_ids(
            ms,
        ) implies !asks_for(ms, ms[k].msgid, false) by {
        if asks_for(ms, ms[k].msgid, false) {
            let j = choose|j: int|
                0 <= j < ms.len() && (#[trigger] ms[j]).msgid == ms[k].msgid && (ms[j].plural
                    is Some) == false;
            assert(j != k);
        }
    }
}

// ---------------------------------------------------------------------------
// What extraction finds
// ---------------------------------------------------------------------------

/// A piece of the arguments of a marker.
pub enum Arg {
    /// Source text without quotes and parentheses.
    Code(Seq<char>),
    /// A string literal with the given text.
    Literal(Seq<char>),
    /// Arguments in parentheses.
    Nested(Seq<Arg>),
}

/// How a piece of arguments is written.
pub open spec fn arg_text(a: Arg) -> Seq<char>
    decreases a,
{
    match a {
        Arg::Code(c) => c,
        Arg::Literal(t) => quoted(t),
        Arg::Nested(v) => seq!['('] + args_text(v) + seq![')'],
    }
}

/// How arguments are written.
pub open spec fn args_text(v: Seq<Arg>) -> Seq<char>
    decreases v,
{
    if v.len() == 0 {
        Seq::empty()
    } else {
        arg_text(v[0]) + args_text(v.drop_first())
    }
}

/// Whether the plain source text in a piece of arguments holds no quotes and no parentheses.
pub open spec fn arg_fits(a: Arg) -> bool
    decreases a,
{
    match a {
        Arg::Code(c) => !c.contains('"') && !c.contains('(') && !c.contains(')'),
        Arg::Literal(_) => true,
        Arg::Nested(v) => args_fit(v),
    }
}

/// Whether the plain source text in arguments holds no quotes and no parentheses.
pub open spec fn args_fit(v: Seq<Arg>) -> bool
    decreases v,
{
    v.len() == 0 || arg_fits(v[0]) && args_fit(v.drop_first())
}

/// The texts of the string literals in a piece of arguments.
pub open spec fn arg_literals(a: Arg) -> Seq<Seq<char>>
    decreases a,
{
    match a {
        Arg::Code(_) => Seq::empty(),
        Arg::Literal(t) => seq![t],
        Arg::Nested(v) => args_literals(v),
    }
}

/// The texts of the string literals in arguments, in order, nested ones included.
pub open spec fn args_literals(v: Seq<Arg>) -> Seq<Seq<char>>
    decreases v,
{
    if v.len() == 0 {
        Seq::empty()
    } else {
        arg_literals(v[0]) + args_literals(v.drop_first())
    }
}

/// A piece of source text.
pub enum Chunk {
    /// Plain code: no quotes, slashes or exclamation marks, and no identifier at its end.
    Code(Seq<char>),
    /// A string literal with the given text.
    Text(Seq<char>),
    /// A line comment.
    LineComment(Seq<char>),
    /// A block comment.
    BlockComment(Seq<char>),
    /// A marker, with white space before its arguments.
    Marker {
        /// Whether it marks a plural.
        plural: bool,
        /// The white space.
        blank: Seq<char>,
        /// The arguments.
        args: Seq<Arg>,
    },
}

/// The name of a marker.
pub open spec fn marker_name(plural: bool) -> Seq<char> {
    if plural {
        "tr_plural"@
    } else {
        "tr"@
    }
}

/// How a piece of source text is written.
pub open spec fn chunk_text(c: Chunk) -> Seq<char> {
    match c {
        Chunk::Code(t) => t,
        Chunk::Text(t) => quoted(t),
        Chunk::LineComment(t) => seq!['/', '/'] + t + seq!['\n'],
        Chunk::BlockComment(t) => seq!['/', '*'] + t + seq!['*', '/'],
        Chunk::Marker { plural, blank, args } => marker_name(plural) + (seq!['!'] + (blank + (seq![
            '(',
        ] + (args_text(args) + seq![')'])))),
    }
}

/// Whether a `*/` stands at `j`.
pub open spec fn ends_comment(t: Seq<char>, j: int) -> bool {
    0 <= j < t.len() - 1 && t[j] == '*' && t[j + 1] == '/'
}

/// Whether a `*/` stands anywhere.
pub open spec fn holds_end(t: Seq<char>) -> bool {
    exists|j: int| ends_comment(t, j)
}

/// Whether a piece of source text is what it says.
pub open spec fn chunk_fits(c: Chunk) -> bool {
    match c {
        Chunk::Code(t) => t.len() > 0 && !is_ident(t.last()) && !t.contains('"') && !t.contains('/')
            && !t.contains('!'),
        Chunk::Text(_) => true,
        Chunk::LineComment(t) => !t.contains('\n'),
        Chunk::BlockComment(t) => !holds_end(t),
        Chunk::Marker { plural: _, blank, args } => crate::strings::is_blank(blank) && args_fit(
            args,
        ),
    }
}

/// The message that a piece of source text marks: the first literal in the arguments of a marker,
/// with the second as its plural form if it marks a plural.
pub open spec fn chunk_message(c: Chunk) -> Option<MessageView> {
    match c {
        Chunk::Marker { plural, blank: _, args } => {
            let texts = args_literals(args);
            if plural && texts.len() >= 2 {
                Some(MessageView { msgid: texts[0], plural: Some(texts[1]) })
            } else if !plural && texts.len() >= 1 {
                Some(MessageView { msgid: texts[0], plural: None })
            } else {
                None
            }
        },
        _ => None,
    }
}

/// How source text is written.
pub open spec fn source_text(cs: Seq<Chunk>) -> Seq<char>
    decreases cs.len(),
{
    if cs.len() == 0 {
        Seq::empty()
    } else {
        chunk_text(cs[0]) + source_text(cs.drop_first())
    }
}

/// The messages that source text marks, in order.
pub open spec fn marked(cs: Seq<Chunk>) -> Seq<MessageView>
    decreases cs.len(),
{
    if cs.len() == 0 {
        Seq::empty()
    } else {
        match chunk_message(cs[0]) {
            Some(m) => seq![m] + marked(cs.drop_first()),
            None => marked(cs.drop_first()),
        }
    }
}

/// Whether `r` lists the messages of `ms`, in order, each source string once: where it occurs
/// first.
pub open spec fn lists_once(ms: Seq<MessageView>, r: Seq<MessageView>, places: Seq<int>) -> bool {
    &&& places.len() == r.len()
    &&& forall|i: int, j: int| 0 <= i < j < r.len() ==> #[trigger] places[i] < #[trigger] places[j]
    &&& forall|i: int|
        0 <= i < r.len() ==> 0 <= #[trigger] places[i] < ms.len() && r[i] == ms[places[i]]
    &&& forall|j: int| 0 <= j < ms.len() ==> is_listed(r, places, (#[trigger] ms[j]).msgid, j)
    &&& distinct_ids(r)
}

/// Whether `r` has a source string, from a place no later than `j`.
pub open spec fn is_listed(
    r: Seq<MessageView>,
    places: Seq<int>,
    id: Seq<char>,
    j: int,
) -> bool {
    exists|i: int| 0 <= i < r.len() && places[i] <= j && (#[trigger] r[i]).msgid == id
}

/// Whether `x` stands in `s` from position `i` on.
spec fn stands(s: Seq<char>, i: int, x: Seq<char>) -> bool {
    &&& 0 <= i
    &&& i + x.len() <= s.len()
    &&& forall|k: int| 0 <= k < x.len() ==> s[i + k] == #[trigger] x[k]
}

proof fn lemma_stands_concat(s: Seq<char>, i: int, a: Seq<char>, b: Seq<char>)
    requires
        stands(s, i, a + b),
    ensures
        stands(s, i, a),
        stands(s, i + a.len(), b),
{
    let x = a + b;
    assert forall|k: int| 0 <= k < a.len() implies s[i + k] == #[trigger] a[k] by {
        assert(x[k] == a[k]);
    }
    assert forall|k: int| 0 <= k < b.len() implies s[i + a.len() + k] == #[trigger] b[k] by {
        assert(x[a.len() + k] == b[k]);
    }
}

/// What a reader of string literals makes of an escaped text and the quote behind it.
proof fn lemma_read_literal(s: Seq<char>, i: int, t: Seq<char>, depth: int, done: Seq<char>)
    requires
        stands(s, i, escaped(t) + seq!['"']),
    ensures
        string_end(s, i, false) == i + escaped(t).len() + 1,
        literal(s, i, false, done) == done + t,
        args_close(s, i, depth, true, false) == args_close(
            s,
            i + escaped(t).len() + 1,
            depth,
            false,
            false,
        ),
    decreases t.len(),
{
    let e = escaped(t);
    lemma_stands_concat(s, i, e, seq!['"']);
    if t.len() == 0 {
        assert(s[i + 0] == seq!['"'][0]);
        assert(done + t == done);
    } else {
        let head = escape_char(t[0]);
        let rest = t.drop_first();
        assert(e + seq!['"'] =~= head + (escaped(rest) + seq!['"']));
        lemma_stands_concat(s, i, head, escaped(rest) + seq!['"']);
        lemma_read_literal(s, i + head.len(), rest, depth, done.push(t[0]));
        assert(done.push(t[0]) + rest =~= done + t);
        assert(s[i + 0] == head[0]);
        if head.len() == 2 {
            assert(s[i + 1] == head[1]);
            assert(string_end(s, i, false) == string_end(s, i + 1, true));
            assert(string_end(s, i + 1, true) == string_end(s, i + 2, false));
            assert(literal(s, i, false, done) == literal(s, i + 1, true, done));
            assert(literal(s, i + 1, true, done) == literal(s, i + 2, false, done.push(t[0])));
            assert(args_close(s, i, depth, true, false) == args_close(s, i + 1, depth, true, true));
            assert(args_close(s, i + 1, depth, true, true) == args_close(
                s,
                i + 2,
                depth,
                true,
                false,
            ));
        } else {
            assert(head =~= seq![t[0]]);
        }
    }
}

/// Plain source text neither closes an argument list nor holds a literal.
proof fn lemma_plain_arg(s: Seq<char>, i: int, c: Seq<char>, depth: int, done: Seq<Seq<char>>)
    requires
        stands(s, i, c),
        !c.contains('"'),
        !c.contains('('),
        !c.contains(')'),
    ensures
        args_close(s, i, depth, false, false) == args_close(s, i + c.len(), depth, false, false),
        literals(s, i, done) == literals(s, i + c.len(), done),
    decreases c.len(),
{
    if c.len() > 0 {
        let rest = c.drop_first();
        assert(c =~= seq![c[0]] + rest);
        lemma_stands_concat(s, i, seq![c[0]], rest);
        assert(s[i + 0] == c[0]);
        assert(c.contains(c[0]));
        assert forall|x: char| #[trigger] rest.contains(x) implies c.contains(x) by {
            let k = choose|k: int| 0 <= k < rest.len() && rest[k] == x;
            assert(c[k + 1] == x);
        }
        lemma_plain_arg(s, i + 1, rest, depth, done);
    }
}

/// A whole piece of arguments leaves the depth of nesting as it was, and its literals are read.
proof fn lemma_arg(s: Seq<char>, i: int, a: Arg, depth: int, done: Seq<Seq<char>>)
    requires
        stands(s, i, arg_text(a)),
        arg_fits(a),
        depth >= 1,
    ensures
        args_close(s, i, depth, false, false) == args_close(
            s,
            i + arg_text(a).len(),
            depth,
            false,
            false,
        ),
        literals(s, i, done) == literals(s, i + arg_text(a).len(), done + arg_literals(a)),
    decreases a,
{
    match a {
        Arg::Code(c) => {
            lemma_plain_arg(s, i, c, depth, done);
            assert(done + arg_literals(a) == done);
        },
        Arg::Literal(t) => {
            let inside = escaped(t) + seq!['"'];
            assert(quoted(t) =~= seq!['"'] + inside);
            lemma_stands_concat(s, i, seq!['"'], inside);
            assert(s[i + 0] == seq!['"'][0]);
            lemma_read_literal(s, i + 1, t, depth, Seq::empty());
            assert(Seq::<char>::empty() + t == t);
            assert(done.push(t) =~= done + arg_literals(a));
        },
        Arg::Nested(v) => {
            let inside = args_text(v);
            assert(arg_text(a) =~= seq!['('] + (inside + seq![')']));
            lemma_stands_concat(s, i, seq!['('], inside + seq![')']);
            lemma_stands_concat(s, i + 1, inside, seq![')']);
            let close = i + 1 + inside.len();
            assert(s[i + 0] == seq!['('][0]);
            assert(s[close + 0] == seq![')'][0]);
            lemma_args(s, i + 1, v, depth + 1, done);
        },
    }
}

proof fn lemma_args(s: Seq<char>, i: int, v: Seq<Arg>, depth: int, done: Seq<Seq<char>>)
    requires
        stands(s, i, args_text(v)),
        args_fit(v),
        depth >= 1,
    ensures
        args_close(s, i, depth, false, false) == args_close(
            s,
            i + args_text(v).len(),
            depth,
            false,
            false,
        ),
        literals(s, i, done) == literals(s, i + args_text(v).len(), done + args_literals(v)),
    decreases v,
{
    if v.len() == 0 {
        assert(done + args_literals(v) == done);
    } else {
        let rest = v.drop_first();
        let head = arg_text(v[0]);
        lemma_stands_concat(s, i, head, args_text(rest));
        lemma_arg(s, i, v[0], depth, done);
        lemma_args(s, i + head.len(), rest, depth, done + arg_literals(v[0]));
        crate::lists::lemma_assoc(done, arg_literals(v[0]), args_literals(rest));
    }
}

/// Whether an identifier cannot go on at `i`.
spec fn is_boundary(s: Seq<char>, i: int) -> bool {
    0 <= i && (i > 0 ==> !is_ident(s[i - 1]))
}

proof fn lemma_marker_names()
    ensures
        "tr"@ == seq!['t', 'r'],
        "tr_plural"@ == seq!['t', 'r', '_', 'p', 'l', 'u', 'r', 'a', 'l'],
{
    reveal_strlit("tr");
    reveal_strlit("tr_plural");
    assert("tr"@ =~= seq!['t', 'r']);
    assert("tr_plural"@ =~= seq!['t', 'r', '_', 'p', 'l', 'u', 'r', 'a', 'l']);
}

/// A marker is read as what it marks, and reading goes on behind it.
proof fn lemma_marker(s: Seq<char>, i: int, plural: bool, blank: Seq<char>, args: Seq<Arg>)
    requires
        ({
            let c = Chunk::Marker { plural, blank, args };
            chunk_fits(c) && stands(s, i, chunk_text(c))
        }),
        is_boundary(s, i),
    ensures
        ({
            let c = Chunk::Marker { plural, blank, args };
            token(s, i) == (chunk_message(c), i + chunk_text(c).len())
        }),
{
    let name = marker_name(plural);
    lemma_marker_names();
    let body = args_text(args);
    let r3 = body + seq![')'];
    let r2 = seq!['('] + r3;
    let r1 = blank + r2;
    let r0 = seq!['!'] + r1;
    lemma_stands_concat(s, i, name, r0);
    let bang = i + name.len();
    lemma_stands_concat(s, bang, seq!['!'], r1);
    lemma_stands_concat(s, bang + 1, blank, r2);
    let paren = bang + 1 + blank.len();
    lemma_stands_concat(s, paren, seq!['('], r3);
    let open = paren + 1;
    lemma_stands_concat(s, open, body, seq![')']);
    let close = open + body.len();
    assert(s[bang + 0] == seq!['!'][0]);
    assert(s[paren + 0] == seq!['('][0]);
    assert(s[close + 0] == seq![')'][0]);
    assert(s.skip(i).take(name.len() as int) =~= name);
    // Where the arguments begin.
    let rest = s.skip(paren);
    assert(s.skip(bang + 1) =~= blank + rest);
    assert(rest[0] == '(');
    crate::strings::lemma_trim_start_blank(blank, rest);
    assert(call_open(s, i, name) == Some(open));
    // Where they end.
    lemma_args(s, open, args, 1, Seq::empty());
    assert(args_close(s, open, 1, false, false) == Some(close));
    // What they hold.
    let inner = s.subrange(open, close);
    assert(inner =~= body);
    assert(stands(inner, 0, body));
    lemma_args(inner, 0, args, 1, Seq::empty());
    assert(Seq::<Seq<char>>::empty() + args_literals(args) == args_literals(args));
    assert(call_at(s, i, name) == Some((args_literals(args), close + 1)));
    assert(s[i + 0] == name[0]);
    if !plural {
        assert(s[i + 2] == '!');
        assert(call_open(s, i, "tr_plural"@) is None) by {
            if crate::strings::has_prefix(s.skip(i), "tr_plural"@) {
                assert(s.skip(i).take(9)[2] == s[i + 2]);
            }
        }
    }
    assert(close + 1 - i == chunk_text(Chunk::Marker { plural, blank, args }).len());
}

/// Plain code holds no marker.
proof fn lemma_no_marker(s: Seq<char>, i: int, c: Seq<char>, o: int, name: Seq<char>)
    requires
        stands(s, i, c),
        chunk_fits(Chunk::Code(c)),
        0 <= o < c.len(),
        name.len() > 0,
        forall|k: int| 0 <= k < name.len() ==> is_ident(#[trigger] name[k]),
    ensures
        call_open(s, i + o, name) is None,
{
    let at = i + o;
    let bang = at + name.len();
    let end = i + c.len();
    if crate::strings::has_prefix(s.skip(at), name) && bang < s.len() && s[bang] == '!' {
        if bang < end {
            assert(s[i + (bang - i)] == c[bang - i]);
            assert(c.contains('!'));
        } else {
            let k = end - 1 - at;
            assert(s.skip(at).take(name.len() as int)[k] == name[k]);
            assert(s[i + (c.len() - 1)] == c[c.len() - 1]);
            assert(is_ident(name[k]));
        }
    }
}

proof fn lemma_code(s: Seq<char>, i: int, c: Seq<char>, o: int, done: Seq<MessageView>)
    requires
        stands(s, i, c),
        chunk_fits(Chunk::Code(c)),
        0 <= o <= c.len(),
    ensures
        collected(s, i + o, done) == collected(s, i + c.len(), done),
    decreases c.len() - o,
{
    if o < c.len() {
        lemma_marker_names();
        lemma_no_marker(s, i, c, o, "tr"@);
        lemma_no_marker(s, i, c, o, "tr_plural"@);
        assert(s[i + o] == c[o]);
        assert(c.contains(c[o]));
        assert(token(s, i + o) == (None::<MessageView>, i + o + 1));
        lemma_code(s, i, c, o + 1, done);
    }
}

proof fn lemma_block_comment(s: Seq<char>, i: int, t: Seq<char>, o: int)
    requires
        stands(s, i, t + seq!['*', '/']),
        !holds_end(t),
        0 <= o <= t.len(),
    ensures
        block_end(s, i + o) == i + t.len() + 2,
    decreases t.len() - o,
{
    let x = t + seq!['*', '/'];
    assert(s[i + o] == x[o]);
    assert(s[i + (o + 1)] == x[o + 1]);
    if o < t.len() {
        if o < t.len() - 1 {
            assert(t[o] == x[o] && t[o + 1] == x[o + 1]);
            assert(!ends_comment(t, o));
        }
        lemma_block_comment(s, i, t, o + 1);
    }
}

/// A piece of source text is read as what it says, and what follows begins at a boundary.
proof fn lemma_chunk(s: Seq<char>, i: int, c: Chunk, done: Seq<MessageView>)
    requires
        stands(s, i, chunk_text(c)),
        chunk_fits(c),
        is_boundary(s, i),
    ensures
        collected(s, i, done) == collected(s, i + chunk_text(c).len(), added(done, chunk_message(c))),
        is_boundary(s, i + chunk_text(c).len()),
{
    let x = chunk_text(c);
    match c {
        Chunk::Code(t) => {
            lemma_code(s, i, t, 0, done);
            assert(s[i + (t.len() - 1)] == t[t.len() - 1]);
        },
        Chunk::Text(t) => {
            let inside = escaped(t) + seq!['"'];
            assert(x =~= seq!['"'] + inside);
            lemma_stands_concat(s, i, seq!['"'], inside);
            assert(s[i + 0] == seq!['"'][0]);
            lemma_read_literal(s, i + 1, t, 1, Seq::empty());
            assert(s[i + (x.len() - 1)] == x[x.len() - 1]);
        },
        Chunk::LineComment(t) => {
            assert(s[i + 0] == x[0] && s[i + 1] == x[1]);
            let n = x.len() - 1;
            let rest = s.skip(i);
            assert(rest[n] == s[i + n] && s[i + n] == x[n]);
            assert forall|j: int| 0 <= j < n implies rest[j] != '\n' by {
                assert(rest[j] == s[i + j] && s[i + j] == x[j]);
                if j >= 2 {
                    assert(x[j] == t[j - 2]);
                    assert(t.contains(t[j - 2]));
                }
            }
            crate::strings::lemma_find_char_at(rest, '\n', n);
        },
        Chunk::BlockComment(t) => {
            assert(s[i + 0] == x[0] && s[i + 1] == x[1]);
            assert(x =~= seq!['/', '*'] + (t + seq!['*', '/']));
            lemma_stands_concat(s, i, seq!['/', '*'], t + seq!['*', '/']);
            lemma_block_comment(s, i + 2, t, 0);
            assert(s[i + (x.len() - 1)] == x[x.len() - 1]);
        },
        Chunk::Marker { plural, blank, args } => {
            lemma_marker(s, i, plural, blank, args);
            assert(s[i + (x.len() - 1)] == x[x.len() - 1]);
            assert(x.len() > 0);
        },
    }
}

/// `done` with some messages added, one after the other.
spec fn all_added(done: Seq<MessageView>, ms: Seq<MessageView>) -> Seq<MessageView>
    decreases ms.len(),
{
    if ms.len() == 0 {
        done
    } else {
        added(all_added(done, ms.drop_last()), Some(ms.last()))
    }
}

proof fn lemma_all_added_first(done: Seq<MessageView>, m: MessageView, ms: Seq<MessageView>)
    ensures
        all_added(done, seq![m] + ms) == all_added(added(done, Some(m)), ms),
    decreases ms.len(),
{
    let all = seq![m] + ms;
    if ms.len() == 0 {
        assert(all =~= seq![m]);
        assert(all.drop_last() =~= Seq::empty());
        reveal_with_fuel(all_added, 2);
    } else {
        lemma_all_added_first(done, m, ms.drop_last());
        assert(all.drop_last() =~= seq![m] + ms.drop_last());
        assert(all.last() == ms.last());
    }
}

proof fn lemma_chunks(s: Seq<char>, i: int, cs: Seq<Chunk>, done: Seq<MessageView>)
    requires
        stands(s, i, source_text(cs)),
        forall|k: int| 0 <= k < cs.len() ==> chunk_fits(#[trigger] cs[k]),
        is_boundary(s, i),
    ensures
        collected(s, i, done) == collected(
            s,
            i + source_text(cs).len(),
            all_added(done, marked(cs)),
        ),
    decreases cs.len(),
{
    if cs.len() > 0 {
        let rest = cs.drop_first();
        let head = chunk_text(cs[0]);
        lemma_stands_concat(s, i, head, source_text(rest));
        lemma_chunk(s, i, cs[0], done);
        assert forall|k: int| 0 <= k < rest.len() implies chunk_fits(#[trigger] rest[k]) by {
            assert(rest[k] == cs[k + 1]);
        }
        lemma_chunks(s, i + head.len(), rest, added(done, chunk_message(cs[0])));
        if let Some(m) = chunk_message(cs[0]) {
            lemma_all_added_first(done, m, marked(rest));
        }
    }
}

#[verifier::spinoff_prover]
proof fn lemma_listed_again(ms: Seq<MessageView>, r: Seq<MessageView>, places: Seq<int>)
    requires
        ms.len() > 0,
        lists_once(ms.drop_last(), r, places),
        has_id(r, ms.last().msgid),
    ensures
        lists_once(ms, r, places),
{
    let head = ms.drop_last();
    assert forall|i: int| 0 <= i < r.len() implies 0 <= #[trigger] places[i] < ms.len() && r[i]
        == ms[places[i]] by {
        assert(0 <= places[i] < head.len() && r[i] == head[places[i]]);
    }
    assert forall|j: int| 0 <= j < ms.len() implies is_listed(
        r,
        places,
        (#[trigger] ms[j]).msgid,
        j,
    ) by {
        if j < head.len() {
            assert(is_listed(r, places, head[j].msgid, j));
        } else {
            let i = choose|i: int| 0 <= i < r.len() && (#[trigger] r[i]).msgid == ms.last().msgid;
            assert(0 <= places[i] < head.len());
            assert(r[i].msgid == ms[j].msgid);
        }
    }
}

#[verifier::spinoff_prover]
proof fn lemma_listed_new(ms: Seq<MessageView>, r: Seq<MessageView>, places: Seq<int>)
    requires
        ms.len() > 0,
        lists_once(ms.drop_last(), r, places),
        !has_id(r, ms.last().msgid),
    ensures
        lists_once(ms, r.push(ms.last()), places.push(ms.len() - 1)),
{
    let head = ms.drop_last();
    let all = r.push(ms.last());
    let at = places.push(ms.len() - 1);
    assert forall|i: int| 0 <= i < all.len() implies 0 <= #[trigger] at[i] < ms.len() && all[i]
        == ms[at[i]] by {
        if i < r.len() {
            assert(0 <= places[i] < head.len() && r[i] == head[places[i]]);
        }
    }
    assert forall|i: int, j: int| 0 <= i < j < all.len() implies #[trigger] at[i]
        < #[trigger] at[j] by {
        assert(0 <= places[i] < head.len());
        if j < r.len() {
            assert(places[i] < places[j]);
        }
    }
    assert forall|j: int| 0 <= j < ms.len() implies is_listed(
        all,
        at,
        (#[trigger] ms[j]).msgid,
        j,
    ) by {
        if j < head.len() {
            assert(is_listed(r, places, head[j].msgid, j));
            let i = choose|i: int|
                0 <= i < r.len() && places[i] <= j && (#[trigger] r[i]).msgid == head[j].msgid;
            assert(all[i] == r[i] && at[i] == places[i]);
        } else {
            assert(all[r.len() as int] == ms[j] && at[r.len() as int] == j);
        }
    }
    assert forall|a: int, b: int|
        #![trigger all[a], all[b]]
        0 <= a < b < all.len() implies all[a].msgid != all[b].msgid by {
        assert(all[a] == r[a]);
        if b < r.len() {
            assert(all[b] == r[b]);
        }
    }
}

proof fn lemma_lists_once(ms: Seq<MessageView>) -> (places: Seq<int>)
    ensures
        lists_once(ms, all_added(Seq::empty(), ms), places),
    decreases ms.len(),
{
    if ms.len() == 0 {
        Seq::empty()
    } else {
        let before = lemma_lists_once(ms.drop_last());
        let r = all_added(Seq::empty(), ms.drop_last());
        if has_id(r, ms.last().msgid) {
            lemma_listed_again(ms, r, before);
            before
        } else {
            lemma_listed_new(ms, r, before);
            before.push(ms.len() - 1)
        }
    }
}

/// Extraction finds exactly what is marked. The arguments of a marker end at the parenthesis that
/// balances the one they began with, whatever calls and literals stand between; their first literal
/// is the message and their second its plural form. String literals and comments are passed over,
/// and each source string is listed once, where it first occurs.
pub proof fn law_extraction_finds_what_is_marked(cs: Seq<Chunk>)
    requires
        forall|k: int| 0 <= k < cs.len() ==> chunk_fits(#[trigger] cs[k]),
    ensures
        exists|places: Seq<int>| #[trigger]
            lists_once(marked(cs), collected(source_text(cs), 0, Seq::empty()), places),
{
    let s = source_text(cs);
    assert(stands(s, 0, s));
    lemma_chunks(s, 0, cs, Seq::empty());
    let places = lemma_lists_once(marked(cs));
    assert(lists_once(marked(cs), collected(s, 0, Seq::empty()), places));
}

// ---------------------------------------------------------------------------
// How a catalog is written
// ---------------------------------------------------------------------------

/// An entry of a catalog, with its plural forms in the order in which they are written.
pub struct Entry {
    /// The comments above the entry.
    pub comments: Seq<Seq<char>>,
    /// The source string.
    pub msgid: Seq<char>,
    /// The source string of the plural.
    pub plural: Option<Seq<char>>,
    /// The singular translation.
    pub singular: Option<Seq<char>>,
    /// The plural translations with their indices.
    pub forms: Seq<(nat, Seq<char>)>,
}

/// The lines of some comments.
pub open spec fn comment_lines(comments: Seq<Seq<char>>) -> Seq<Seq<char>> {
    comments.map_values(|c: Seq<char>| seq!['#'] + c)
}

/// The line of a plural translation.
pub open spec fn form_line(f: (nat, Seq<char>)) -> Seq<char> {
    "msgstr["@ + crate::strings::decimal(f.0) + "] "@ + quoted(f.1)
}

/// The lines of some plural translations.
pub open spec fn form_lines(forms: Seq<(nat, Seq<char>)>) -> Seq<Seq<char>> {
    forms.map_values(|f: (nat, Seq<char>)| form_line(f))
}

/// A line with a keyword and a text, or no line.
pub open spec fn keyword_line(keyword: Seq<char>, s: Option<Seq<char>>) -> Seq<Seq<char>> {
    match s {
        Some(t) => seq![keyword + quoted(t)],
        None => Seq::empty(),
    }
}

/// The lines of an entry, a blank one behind it.
pub open spec fn written_entry(e: Entry) -> Seq<Seq<char>> {
    comment_lines(e.comments) + (seq!["msgid "@ + quoted(e.msgid)] + (keyword_line(
        "msgid_plural "@,
        e.plural,
    ) + (keyword_line("msgstr "@, e.singular) + (form_lines(e.forms) + seq![Seq::empty()]))))
}

/// The lines of a catalog.
pub open spec fn written_catalog(es: Seq<Entry>) -> Seq<Seq<char>>
    decreases es.len(),
{
    if es.len() == 0 {
        Seq::empty()
    } else {
        written_catalog(es.drop_last()) + written_entry(es.last())
    }
}

/// Lines as a text.
pub open spec fn lines_text(ls: Seq<Seq<char>>) -> Seq<char>
    decreases ls.len(),
{
    if ls.len() == 0 {
        Seq::empty()
    } else {
        ls[0] + seq!['\n'] + lines_text(ls.drop_first())
    }
}

/// Whether an entry can be written: comments stand on one line each, and no form occurs twice.
pub open spec fn entry_fits(e: Entry) -> bool {
    &&& forall|k: int| 0 <= k < e.comments.len() ==> !(#[trigger] e.comments[k]).contains('\n')
    &&& forall|k: int| 0 <= k < e.forms.len() ==> (#[trigger] e.forms[k]).0 <= usize::MAX
    &&& forall|a: int, b: int|
        #![trigger e.forms[a], e.forms[b]]
        0 <= a < b < e.forms.len() ==> e.forms[a].0 != e.forms[b].0
}

/// Whether `order` names all forms, by ascending index.
pub open spec fn orders(forms: Seq<(nat, Seq<char>)>, order: Seq<int>) -> bool {
    &&& order.len() == forms.len()
    &&& forall|p: int| 0 <= p < order.len() ==> 0 <= #[trigger] order[p] < forms.len()
    &&& forall|p: int, q: int|
        #![trigger order[p], order[q]]
        0 <= p < q < order.len() ==> forms[order[p]].0 < forms[order[q]].0
}

/// Whether `texts` are the forms by ascending index.
pub open spec fn by_index(forms: Seq<(nat, Seq<char>)>, texts: Seq<Seq<char>>) -> bool {
    exists|order: Seq<int>| #[trigger]
        orders(forms, order) && texts == Seq::new(order.len(), |p: int| forms[order[p]].1)
}

/// Whether a catalog holds what an entry says and no more.
pub open spec fn holds_entry(c: CatalogView, e: Entry) -> bool {
    &&& match e.singular {
        Some(s) => c.singular.dom().contains(e.msgid) && c.singular[e.msgid] == s,
        None => !c.singular.dom().contains(e.msgid),
    }
    &&& if e.forms.len() > 0 {
        c.plural.dom().contains(e.msgid) && by_index(e.forms, c.plural[e.msgid])
    } else {
        !c.plural.dom().contains(e.msgid)
    }
}

/// Whether some entry has the source string `id`.
pub open spec fn has_entry(es: Seq<Entry>, id: Seq<char>) -> bool {
    exists|k: int| 0 <= k < es.len() && (#[trigger] es[k]).msgid == id
}

/// Whether a catalog holds what the entries say and nothing else.
pub open spec fn holds_entries(c: CatalogView, es: Seq<Entry>) -> bool {
    &&& forall|k: int| 0 <= k < es.len() ==> holds_entry(c, #[trigger] es[k])
    &&& forall|id: Seq<char>| #[trigger] c.singular.dom().contains(id) ==> has_entry(es, id)
    &&& forall|id: Seq<char>| #[trigger] c.plural.dom().contains(id) ==> has_entry(es, id)
}

proof fn lemma_lines_of_text(ls: Seq<Seq<char>>)
    requires
        forall|k: int, i: int|
            0 <= k < ls.len() && 0 <= i < ls[k].len() ==> #[trigger] ls[k][i] != '\n',
    ensures
        crate::strings::lines(lines_text(ls)) == ls,
    decreases ls.len(),
{
    if ls.len() == 0 {
        assert(ls =~= Seq::empty());
    } else {
        let rest = ls.drop_first();
        assert forall|k: int, i: int|
            0 <= k < rest.len() && 0 <= i < rest[k].len() implies #[trigger] rest[k][i] != '\n' by {
            assert(rest[k] == ls[k + 1]);
            assert(ls[k + 1][i] != '\n');
        }
        lemma_lines_of_text(rest);
        assert forall|i: int| 0 <= i < ls[0].len() implies ls[0][i] != '\n' by {}
        crate::strings::lemma_first_line(ls[0], lines_text(rest));
        assert(seq![ls[0]] + rest =~= ls);
    }
}

proof fn lemma_read_comment(c: Seq<char>, open: bool)
    ensures
        crate::i18n::catalog::read_line(crate::strings::trim(seq!['#'] + c), open) == Ok::<
            PoLine,
            crate::i18n::ParseErrorKind,
        >(PoLine::Skip),
{
    let line = seq!['#'] + c;
    let t = crate::strings::trim(line);
    let (a, b) = crate::strings::law_trimming_takes_white_space(line);
    assert(line[0] == '#');
    if a.len() > 0 {
        assert(line[0] == a[0]);
        assert(crate::strings::is_white_space(a[0]));
    }
    if t.len() > 0 {
        assert(line[0] == t[0]);
    }
}

proof fn lemma_read_str(s: Seq<char>)
    ensures
        crate::i18n::catalog::read_line(crate::strings::trim("msgstr "@ + quoted(s)), true) == Ok::<
            PoLine,
            crate::i18n::ParseErrorKind,
        >(PoLine::Str(s)),
{
    reveal_strlit("msgid");
    reveal_strlit("msgid_plural");
    reveal_strlit("msgstr");
    reveal_strlit("msgstr[");
    reveal_strlit("msgstr ");
    let gap = seq![' '];
    let none = Seq::<char>::empty();
    law_quoted_round_trip(gap, s, none);
    assert(gap + quoted(s) + none == gap + quoted(s));
    let line = "msgstr "@ + quoted(s);
    assert(line.last() == '"');
    assert(line[0] == 'm');
    crate::strings::lemma_trim_fixed(line);
    assert(line[3] == 's' && "msgid"@[3] == 'i' && "msgid_plural"@[3] == 'i');
    assert(line.take(5)[3] == 's');
    if line.len() >= 12 {
        assert(line.take(12)[3] == 's');
    }
    assert(line.take(7)[6] == ' ' && "msgstr["@[6] == '[');
    assert(line.take(6) =~= "msgstr"@);
    assert(line.skip(6) =~= gap + quoted(s));
}

#[verifier::spinoff_prover]
proof fn lemma_read_form(f: (nat, Seq<char>))
    requires
        f.0 <= usize::MAX,
    ensures
        crate::i18n::catalog::read_line(crate::strings::trim(form_line(f)), true) == Ok::<
            PoLine,
            crate::i18n::ParseErrorKind,
        >(PoLine::Form(f.0, f.1)),
        forall|i: int| 0 <= i < form_line(f).len() ==> form_line(f)[i] != '\n',
{
    reveal_strlit("msgid");
    reveal_strlit("msgid_plural");
    reveal_strlit("msgstr[");
    reveal_strlit("] ");
    let gap = seq![' '];
    let none = Seq::<char>::empty();
    let d = crate::strings::decimal(f.0);
    law_quoted_round_trip(gap, f.1, none);
    assert(gap + quoted(f.1) + none == gap + quoted(f.1));
    crate::strings::lemma_decimal_round_trip(f.0);
    let line = form_line(f);
    let rest = d + ("] "@ + quoted(f.1));
    assert(line =~= "msgstr["@ + rest);
    assert(line.last() == '"');
    assert(line[0] == 'm');
    crate::strings::lemma_trim_fixed(line);
    assert(line[3] == 's' && "msgid"@[3] == 'i' && "msgid_plural"@[3] == 'i');
    assert(line.take(5)[3] == 's');
    if line.len() >= 12 {
        assert(line.take(12)[3] == 's');
    }
    assert(line.take(7) =~= "msgstr["@);
    assert(line.skip(7) =~= rest);
    let n = d.len() as int;
    assert forall|j: int| 0 <= j < n implies rest[j] != ']' by {
        assert(crate::strings::is_digit(d[j]));
    }
    assert(rest[n] == ']');
    crate::strings::lemma_find_char_at(rest, ']', n);
    assert(rest.take(n) =~= d);
    assert(crate::strings::is_digit(d[0]));
    assert(rest.skip(n + 1) =~= gap + quoted(f.1));
    let keyword = "msgstr["@ + d + "] "@;
    assert forall|i: int| 0 <= i < keyword.len() implies keyword[i] != '\n' by {
        if 7 <= i < 7 + n {
            assert(keyword[i] == d[i - 7]);
            assert(crate::strings::is_digit(d[i - 7]));
        }
    }
    lemma_id_line(keyword, f.1);
}

/// The forms as they are recorded.
spec fn recorded(forms: Seq<(nat, Seq<char>)>) -> Seq<(nat, Seq<char>)>
    decreases forms.len(),
{
    if forms.len() == 0 {
        Seq::empty()
    } else {
        crate::i18n::catalog::put_form(recorded(forms.drop_last()), forms.last().0, forms.last().1)
    }
}

/// A reader's state with an entry open.
spec fn entered(st: PoState, e: Entry) -> PoState {
    PoState {
        cat: crate::i18n::catalog::closed_entry(st),
        id: Some(e.msgid),
        singular: e.singular,
        forms: recorded(e.forms),
    }
}

proof fn lemma_skip_comments(
    st: PoState,
    comments: Seq<Seq<char>>,
    tail: Seq<Seq<char>>,
    lineno: nat,
)
    ensures
        crate::i18n::catalog::read_lines(st, comment_lines(comments) + tail, lineno) == crate::i18n::catalog::read_lines(
            st,
            tail,
            lineno + comments.len(),
        ),
    decreases comments.len(),
{
    if comments.len() == 0 {
        assert(comment_lines(comments) + tail =~= tail);
    } else {
        let rest = comments.drop_first();
        let line = seq!['#'] + comments[0];
        lemma_read_comment(comments[0], st.id is Some);
        let more = comment_lines(rest) + tail;
        assert(comment_lines(comments) + tail =~= seq![line] + more);
        lemma_step(st, line, more, lineno, PoLine::Skip);
        lemma_skip_comments(st, rest, tail, lineno + 1);
    }
}

proof fn lemma_read_forms(
    st: PoState,
    forms: Seq<(nat, Seq<char>)>,
    tail: Seq<Seq<char>>,
    lineno: nat,
)
    requires
        st.id is Some,
        st.forms == Seq::<(nat, Seq<char>)>::empty(),
        forall|k: int| 0 <= k < forms.len() ==> (#[trigger] forms[k]).0 <= usize::MAX,
    ensures
        crate::i18n::catalog::read_lines(st, form_lines(forms) + tail, lineno) == crate::i18n::catalog::read_lines(
            PoState { forms: recorded(forms), ..st },
            tail,
            lineno + forms.len(),
        ),
    decreases forms.len(),
{
    if forms.len() == 0 {
        assert(form_lines(forms) + tail =~= tail);
    } else {
        let head = forms.drop_last();
        let f = forms.last();
        assert(forms[forms.len() - 1].0 <= usize::MAX);
        assert forall|k: int| 0 <= k < head.len() implies (#[trigger] head[k]).0 <= usize::MAX by {
            assert(head[k] == forms[k]);
        }
        let more = seq![form_line(f)] + tail;
        lemma_read_forms(st, head, more, lineno);
        assert(form_lines(forms) + tail =~= form_lines(head) + more);
        lemma_read_form(f);
        lemma_step(
            PoState { forms: recorded(head), ..st },
            form_line(f),
            tail,
            lineno + head.len(),
            PoLine::Form(f.0, f.1),
        );
    }
}

#[verifier::spinoff_prover]
proof fn lemma_read_written_entry(st: PoState, e: Entry, tail: Seq<Seq<char>>, lineno: nat)
    requires
        entry_fits(e),
    ensures
        crate::i18n::catalog::read_lines(st, written_entry(e) + tail, lineno) == crate::i18n::catalog::read_lines(
            entered(st, e),
            tail,
            lineno + written_entry(e).len(),
        ),
{
    let none = Seq::<char>::empty();
    let l0 = "msgid "@ + quoted(e.msgid);
    let p = keyword_line("msgid_plural "@, e.plural);
    let s = keyword_line("msgstr "@, e.singular);
    let f = form_lines(e.forms);
    let c = comment_lines(e.comments);
    let t4 = seq![none] + tail;
    let t3 = f + t4;
    let t2 = s + t3;
    let t1 = p + t2;
    let t0 = seq![l0] + t1;
    assert(written_entry(e) + tail =~= c + t0);
    let n0 = lineno + e.comments.len();
    lemma_skip_comments(st, e.comments, t0, lineno);
    let s1 = crate::i18n::catalog::step(st, PoLine::Id(e.msgid));
    lemma_read_id_lines(e.msgid, st.id is Some);
    lemma_step(st, l0, t1, n0, PoLine::Id(e.msgid));
    match e.plural {
        Some(t) => {
            lemma_read_id_lines(t, true);
            lemma_step(s1, "msgid_plural "@ + quoted(t), t2, n0 + 1, PoLine::Skip);
        },
        None => {
            assert(t1 =~= t2);
        },
    }
    let n2 = n0 + 1 + p.len();
    let s2 = PoState { singular: e.singular, ..s1 };
    match e.singular {
        Some(t) => {
            lemma_read_str(t);
            lemma_step(s1, "msgstr "@ + quoted(t), t3, n2, PoLine::Str(t));
        },
        None => {
            assert(t2 =~= t3);
            assert(s2 == s1);
        },
    }
    let n3 = n2 + s.len();
    lemma_read_forms(s2, e.forms, t4, n3);
    let s3 = entered(st, e);
    assert(PoState { forms: recorded(e.forms), ..s2 } == s3);
    lemma_read_blank(true);
    lemma_step(s3, none, tail, n3 + e.forms.len(), PoLine::Skip);
}

/// The state in which the lines of a catalog leave a reader.
spec fn after_entries(locale: Seq<char>, es: Seq<Entry>) -> PoState
    decreases es.len(),
{
    if es.len() == 0 {
        crate::i18n::catalog::start(locale)
    } else {
        entered(after_entries(locale, es.drop_last()), es.last())
    }
}

proof fn lemma_read_written(locale: Seq<char>, es: Seq<Entry>, tail: Seq<Seq<char>>)
    requires
        forall|k: int| 0 <= k < es.len() ==> entry_fits(#[trigger] es[k]),
    ensures
        crate::i18n::catalog::read_lines(crate::i18n::catalog::start(locale), written_catalog(es) + tail, 1) == crate::i18n::catalog::read_lines(
            after_entries(locale, es),
            tail,
            1 + written_catalog(es).len(),
        ),
    decreases es.len(),
{
    if es.len() == 0 {
        assert(written_catalog(es) + tail =~= tail);
    } else {
        let head = es.drop_last();
        assert forall|k: int| 0 <= k < head.len() implies entry_fits(#[trigger] head[k]) by {
            assert(head[k] == es[k]);
        }
        let entry = written_entry(es.last());
        assert(entry_fits(es[es.len() - 1]));
        lemma_read_written(locale, head, entry + tail);
        crate::lists::lemma_assoc(written_catalog(head), entry, tail);
        lemma_read_written_entry(
            after_entries(locale, head),
            es.last(),
            tail,
            1 + written_catalog(head).len(),
        );
    }
}

/// A form takes the place that its index gives it: the forms stay by ascending index, one that was
/// there under the same index is replaced, and the others stay as they are.
pub proof fn law_forms_are_kept_in_order(
    fs: Seq<(nat, Seq<char>)>,
    i: nat,
    s: Seq<char>,
) -> (p: int)
    requires
        forall|a: int, b: int|
            #![trigger fs[a], fs[b]]
            0 <= a < b < fs.len() ==> fs[a].0 < fs[b].0,
    ensures
        0 <= p <= fs.len(),
        forall|q: int| 0 <= q < p ==> (#[trigger] fs[q]).0 < i,
        forall|q: int| p <= q < fs.len() ==> i <= (#[trigger] fs[q]).0,
        crate::i18n::catalog::put_form(fs, i, s) == (if p < fs.len() && fs[p].0 == i {
            fs.update(p, (i, s))
        } else {
            fs.insert(p, (i, s))
        }),
    decreases fs.len(),
{
    let done = crate::i18n::catalog::put_form(fs, i, s);
    if fs.len() == 0 || i < fs[0].0 {
        assert(done =~= fs.insert(0, (i, s)));
        0
    } else if fs[0].0 == i {
        assert(done =~= fs.update(0, (i, s)));
        0
    } else {
        let rest = fs.drop_first();
        assert forall|a: int, b: int|
            #![trigger rest[a], rest[b]]
            0 <= a < b < rest.len() implies rest[a].0 < rest[b].0 by {
            assert(rest[a] == fs[a + 1] && rest[b] == fs[b + 1]);
        }
        let p = law_forms_are_kept_in_order(rest, i, s);
        assert forall|q: int| 0 <= q < p + 1 implies (#[trigger] fs[q]).0 < i by {
            if q > 0 {
                assert(fs[q] == rest[q - 1]);
            }
        }
        assert forall|q: int| p + 1 <= q < fs.len() implies i <= (#[trigger] fs[q]).0 by {
            assert(fs[q] == rest[q - 1]);
        }
        if p < rest.len() && rest[p].0 == i {
            assert(done =~= fs.update(p + 1, (i, s)));
        } else {
            assert(done =~= fs.insert(p + 1, (i, s)));
        }
        p + 1
    }
}

proof fn lemma_recorded(forms: Seq<(nat, Seq<char>)>) -> (order: Seq<int>)
    requires
        forall|a: int, b: int|
            #![trigger forms[a], forms[b]]
            0 <= a < b < forms.len() ==> forms[a].0 != forms[b].0,
    ensures
        orders(forms, order),
        recorded(forms) == Seq::new(order.len(), |p: int| forms[order[p]]),
    decreases forms.len(),
{
    if forms.len() == 0 {
        let order = Seq::<int>::empty();
        assert(recorded(forms) =~= Seq::new(order.len(), |p: int| forms[order[p]]));
        order
    } else {
        let head = forms.drop_last();
        let n = forms.len() - 1;
        let f = forms[n];
        let before = lemma_recorded(head);
        let fs = recorded(head);
        assert forall|a: int, b: int|
            #![trigger fs[a], fs[b]]
            0 <= a < b < fs.len() implies fs[a].0 < fs[b].0 by {
            assert(fs[a] == head[before[a]] && fs[b] == head[before[b]]);
        }
        let p = law_forms_are_kept_in_order(fs, f.0, f.1);
        if p < fs.len() {
            assert(fs[p] == head[before[p]]);
            assert(head[before[p]] == forms[before[p]]);
        }
        let order = before.insert(p, n);
        assert forall|q: int| 0 <= q < order.len() implies 0 <= #[trigger] order[q]
            < forms.len() by {
            if q < p {
                assert(order[q] == before[q]);
            } else if q > p {
                assert(order[q] == before[q - 1]);
            }
        }
        let done = Seq::new(order.len(), |q: int| forms[order[q]]);
        assert(recorded(forms) =~= fs.insert(p, f));
        assert forall|q: int| 0 <= q < order.len() implies #[trigger] done[q] == fs.insert(
            p,
            f,
        )[q] by {
            if q < p {
                assert(order[q] == before[q]);
                assert(fs[q] == head[before[q]]);
            } else if q > p {
                assert(order[q] == before[q - 1]);
                assert(fs[q - 1] == head[before[q - 1]]);
            }
        }
        assert(recorded(forms) =~= done);
        assert forall|a: int, b: int|
            #![trigger order[a], order[b]]
            0 <= a < b < order.len() implies forms[order[a]].0 < forms[order[b]].0 by {
            let all = fs.insert(p, f);
            assert(done[a] == all[a] && done[b] == all[b]);
            if b < p {
                assert(fs[a].0 < fs[b].0);
            } else if b == p {
                assert(fs[a].0 < f.0);
            } else if a > p {
                assert(fs[a - 1].0 < fs[b - 1].0);
            } else if a == p {
                assert(f.0 <= fs[b - 1].0);
                assert(fs[b - 1] == head[before[b - 1]]);
                assert(head[before[b - 1]] == forms[before[b - 1]]);
            } else {
                assert(fs[a].0 < fs[b - 1].0);
            }
        }
        order
    }
}

proof fn lemma_holds_entries(locale: Seq<char>, es: Seq<Entry>)
    requires
        forall|k: int| 0 <= k < es.len() ==> entry_fits(#[trigger] es[k]),
        forall|a: int, b: int|
            #![trigger es[a], es[b]]
            0 <= a < b < es.len() ==> es[a].msgid != es[b].msgid,
    ensures
        holds_entries(crate::i18n::catalog::closed_entry(after_entries(locale, es)), es),
        crate::i18n::catalog::closed_entry(after_entries(locale, es)).locale == locale,
    decreases es.len(),
{
    if es.len() > 0 {
        let head = es.drop_last();
        let e = es.last();
        let n = es.len() - 1;
        assert forall|k: int| 0 <= k < head.len() implies entry_fits(#[trigger] head[k]) by {
            assert(head[k] == es[k]);
        }
        assert forall|a: int, b: int|
            #![trigger head[a], head[b]]
            0 <= a < b < head.len() implies head[a].msgid != head[b].msgid by {
            assert(head[a] == es[a] && head[b] == es[b]);
        }
        lemma_holds_entries(locale, head);
        let before = crate::i18n::catalog::closed_entry(after_entries(locale, head));
        let c = crate::i18n::catalog::closed_entry(after_entries(locale, es));
        assert(entry_fits(es[n]));
        let order = lemma_recorded(e.forms);
        assert(crate::i18n::catalog::packed(recorded(e.forms)) =~= Seq::new(
            order.len(),
            |p: int| e.forms[order[p]].1,
        ));
        assert(recorded(e.forms).len() == e.forms.len());
        if has_entry(head, e.msgid) {
            let k = choose|k: int| 0 <= k < head.len() && (#[trigger] head[k]).msgid == e.msgid;
            assert(head[k] == es[k] && e == es[n]);
        }
        assert(!has_entry(head, e.msgid));
        assert forall|k: int| 0 <= k < es.len() implies holds_entry(c, #[trigger] es[k]) by {
            if k < n {
                assert(head[k] == es[k]);
                assert(holds_entry(before, head[k]));
                assert(es[k].msgid != es[n].msgid);
            }
        }
        assert forall|id: Seq<char>| has_entry(head, id) || id == e.msgid implies has_entry(
            es,
            id,
        ) by {
            if has_entry(head, id) {
                let k = choose|k: int| 0 <= k < head.len() && (#[trigger] head[k]).msgid == id;
                assert(es[k] == head[k]);
            } else {
                assert(es[n].msgid == id);
            }
        }
    }
}

proof fn lemma_entry_is_lines(e: Entry)
    requires
        entry_fits(e),
    ensures
        forall|k: int, i: int|
            0 <= k < written_entry(e).len() && 0 <= i < written_entry(e)[k].len()
                ==> #[trigger] written_entry(e)[k][i] != '\n',
{
    reveal_strlit("msgid ");
    reveal_strlit("msgid_plural ");
    reveal_strlit("msgstr ");
    let all = written_entry(e);
    let c = e.comments.len() as int;
    let p = keyword_line("msgid_plural "@, e.plural);
    let s = keyword_line("msgstr "@, e.singular);
    lemma_id_line("msgid "@, e.msgid);
    assert forall|k: int, i: int|
        0 <= k < all.len() && 0 <= i < all[k].len() implies #[trigger] all[k][i] != '\n' by {
        let f = c + 1 + p.len() + s.len();
        if k < c {
            assert(all[k] == seq!['#'] + e.comments[k]);
            assert(!e.comments[k].contains('\n'));
            if i > 0 {
                assert(all[k][i] == e.comments[k][i - 1]);
            }
        } else if k == c {
            assert(all[k] == "msgid "@ + quoted(e.msgid));
        } else if k < c + 1 + p.len() {
            assert(all[k] == p[k - c - 1]);
            lemma_id_line("msgid_plural "@, e.plural->0);
        } else if k < f {
            assert(all[k] == s[k - c - 1 - p.len()]);
            lemma_id_line("msgstr "@, e.singular->0);
        } else if k < f + e.forms.len() {
            assert(all[k] == form_line(e.forms[k - f]));
            lemma_read_form(e.forms[k - f]);
        } else {
            assert(all[k] == Seq::<char>::empty());
        }
    }
}

proof fn lemma_catalog_is_lines(es: Seq<Entry>)
    requires
        forall|k: int| 0 <= k < es.len() ==> entry_fits(#[trigger] es[k]),
    ensures
        forall|k: int, i: int|
            0 <= k < written_catalog(es).len() && 0 <= i < written_catalog(es)[k].len()
                ==> #[trigger] written_catalog(es)[k][i] != '\n',
    decreases es.len(),
{
    if es.len() > 0 {
        let head = es.drop_last();
        assert forall|k: int| 0 <= k < head.len() implies entry_fits(#[trigger] head[k]) by {
            assert(head[k] == es[k]);
        }
        lemma_catalog_is_lines(head);
        assert(entry_fits(es[es.len() - 1]));
        lemma_entry_is_lines(es.last());
        let a = written_catalog(head);
        let b = written_entry(es.last());
        let all = written_catalog(es);
        assert forall|k: int, i: int|
            0 <= k < all.len() && 0 <= i < all[k].len() implies #[trigger] all[k][i] != '\n' by {
            if k < a.len() {
                assert(all[k] == a[k]);
                assert(a[k][i] != '\n');
            } else {
                assert(all[k] == b[k - a.len()]);
                assert(b[k - a.len()][i] != '\n');
            }
        }
    }
}

/// A catalog is read as it is written: every entry has the translations below it, the plural forms
/// by their indices in whatever order they stand, comments and blank lines say nothing, and nothing
/// else comes into the catalog.
pub proof fn law_catalog_is_read_as_written(locale: Seq<char>, es: Seq<Entry>)
    requires
        forall|k: int| 0 <= k < es.len() ==> entry_fits(#[trigger] es[k]),
        forall|a: int, b: int|
            #![trigger es[a], es[b]]
            0 <= a < b < es.len() ==> es[a].msgid != es[b].msgid,
    ensures
        crate::i18n::catalog::parsed(locale, lines_text(written_catalog(es))) matches Ok(c) && c.locale == locale
            && holds_entries(c, es),
{
    lemma_catalog_is_lines(es);
    lemma_lines_of_text(written_catalog(es));
    lemma_read_written(locale, es, Seq::empty());
    assert(written_catalog(es) + Seq::<Seq<char>>::empty() =~= written_catalog(es));
    lemma_holds_entries(locale, es);
}

proof fn lemma_marker_prefix(s: Seq<char>, i: int, name: Seq<char>)
    requires
        0 <= i < s.len(),
    ensures
        crate::strings::has_prefix(s.skip(i), name) && i + name.len() < s.len() && s[i + name.len()]
            == '!' <==> crate::strings::has_prefix(s.skip(i), name + seq!['!']),
{
    let t = s.skip(i);
    let n = name.len() as int;
    let all = name + seq!['!'];
    if crate::strings::has_prefix(t, name) && i + n < s.len() && s[i + n] == '!' {
        assert forall|j: int| 0 <= j < all.len() implies t.take(n + 1)[j] == #[trigger] all[j] by {
            if j < n {
                assert(t.take(n)[j] == name[j]);
            }
        }
        assert(t.take(n + 1) =~= all);
    }
    if crate::strings::has_prefix(t, all) {
        assert(t.take(n + 1)[n] == '!');
        assert forall|j: int| 0 <= j < n implies t.take(n)[j] == #[trigger] name[j] by {
            assert(t.take(n + 1)[j] == all[j]);
        }
        assert(t.take(n) =~= name);
    }
}

/// Only a marker marks a message: its whole name stands there, with an exclamation mark behind it and
/// no identifier that goes on into it. Where no marker, literal or comment begins, the next character
/// is looked at.
pub proof fn law_only_markers_mark(s: Seq<char>, i: int)
    requires
        0 <= i < s.len(),
    ensures
        token(s, i).0 matches Some(m) ==> (i == 0 || !is_ident(s[i - 1]))
            && crate::strings::has_prefix(
            s.skip(i),
            marker_name(m.plural is Some) + seq!['!'],
        ),
        s[i] != '"' && !(s[i] == '/' && i + 1 < s.len() && (s[i + 1] == '/' || s[i + 1] == '*')) && ((
        i > 0 && is_ident(s[i - 1])) || (!crate::strings::has_prefix(
            s.skip(i),
            marker_name(true) + seq!['!'],
        ) && !crate::strings::has_prefix(s.skip(i), marker_name(false) + seq!['!']))) ==> token(
            s,
            i,
        ) == (None::<MessageView>, i + 1),
{
    lemma_marker_prefix(s, i, "tr_plural"@);
    lemma_marker_prefix(s, i, "tr"@);
}

/// Merging keeps the translation of every message that is still marked, drops what is marked no
/// more, and adds nothing.
pub proof fn law_merging_keeps_translations(
    c: CatalogView,
    ms: Seq<MessageView>,
    id: Seq<char>,
    k: int,
)
    ensures
        0 <= k < ms.len() && ms[k].plural is None && c.singular.dom().contains(ms[k].msgid)
            && c.singular[ms[k].msgid].len() > 0 ==> kept(c, ms).dom().contains(ms[k].msgid)
            && kept(c, ms)[ms[k].msgid] == c.singular[ms[k].msgid],
        0 <= k < ms.len() && ms[k].plural is Some && c.plural.dom().contains(ms[k].msgid) && (exists|
            j: int,
        |
            0 <= j < c.plural[ms[k].msgid].len() && (#[trigger] c.plural[ms[k].msgid][j]).len() > 0)
            ==> kept_forms(c, ms).dom().contains(ms[k].msgid) && kept_forms(c, ms)[ms[k].msgid]
            == c.plural[ms[k].msgid],
        (forall|j: int| 0 <= j < ms.len() ==> (#[trigger] ms[j]).msgid != id) ==> !kept(
            c,
            ms,
        ).dom().contains(id) && !kept_forms(c, ms).dom().contains(id),
        kept(c, ms).dom().contains(id) ==> c.singular.dom().contains(id) && kept(c, ms)[id]
            == c.singular[id] && c.singular[id].len() > 0,
        kept_forms(c, ms).dom().contains(id) ==> c.plural.dom().contains(id) && kept_forms(c, ms)[id]
            == c.plural[id],
{
    if 0 <= k < ms.len() {
        assert(asks_for(ms, ms[k].msgid, ms[k].plural is Some));
    }
}

} // verus!
