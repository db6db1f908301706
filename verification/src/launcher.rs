//! App launcher and global search index with fuzzy ranking.
//!
//! The launcher reads installed-app metadata, builds a search index over apps, files and settings,
//! and ranks matches with a subsequence fuzzy scorer that rewards word-boundary and
//! consecutive-character hits.

use vstd::prelude::*;

use crate::lists::copy_texts;
use crate::strings::{
    find_from, from_range, is_empty, split_lines, split_range, str_eq, str_order,
    to_ascii_lower, to_chars, trim_range, Order,
};

verus! {

/// Installed-app metadata (a parsed app manifest).
#[derive(Debug, Clone, PartialEq, Eq)]
pub struct AppEntry {
    /// Reverse-DNS application id (e.g. `org.nexacore.editor`).
    pub id: String,
    /// Display name.
    pub name: String,
    /// Executable / launch target.
    pub executable: String,
    /// Icon name (may be empty).
    pub icon: String,
    /// Search keywords.
    pub keywords: Vec<String>,
}

/// What an app manifest says, as far as it has been read.
#[verifier::ext_equal]
pub struct Manifest {
    /// The application id.
    pub id: Option<Seq<char>>,
    /// The display name.
    pub name: Option<Seq<char>>,
    /// The launch target.
    pub executable: Option<Seq<char>>,
    /// The icon name.
    pub icon: Seq<char>,
    /// The search keywords.
    pub keywords: Seq<Seq<char>>,
}

impl AppEntry {
    /// The manifest that describes the entry.
    pub open spec fn manifest(&self) -> Manifest {
        Manifest {
            id: Some(self.id@),
            name: Some(self.name@),
            executable: Some(self.executable@),
            icon: self.icon@,
            keywords: crate::lists::texts(self.keywords@),
        }
    }
}

/// The manifest before its first line.
pub open spec fn blank_manifest() -> Manifest {
    Manifest { id: None, name: None, executable: None, icon: Seq::empty(), keywords: Seq::empty() }
}

/// The trimmed pieces that are not empty.
pub open spec fn trimmed(pieces: Seq<Seq<char>>) -> Seq<Seq<char>>
    decreases pieces.len(),
{
    if pieces.len() == 0 {
        Seq::empty()
    } else {
        let first = crate::strings::trim(pieces[0]);
        if first.len() == 0 {
            trimmed(pieces.drop_first())
        } else {
            seq![first] + trimmed(pieces.drop_first())
        }
    }
}

/// A manifest after one more line, or `None` if the line is neither empty, nor a comment, nor
/// `Key=Value`.
pub open spec fn read_line(m: Manifest, line: Seq<char>) -> Option<Manifest> {
    let l = crate::strings::trim(line);
    let i = crate::strings::find_char(l, '=');
    if l.len() == 0 || l[0] == '#' {
        Some(m)
    } else if i >= l.len() {
        None
    } else {
        let key = crate::strings::trim(l.take(i));
        let value = crate::strings::trim(l.skip(i + 1));
        if key == "Id"@ {
            Some(Manifest { id: Some(value), ..m })
        } else if key == "Name"@ {
            Some(Manifest { name: Some(value), ..m })
        } else if key == "Exec"@ {
            Some(Manifest { executable: Some(value), ..m })
        } else if key == "Icon"@ {
            Some(Manifest { icon: value, ..m })
        } else if key == "Keywords"@ {
            Some(
                Manifest { keywords: trimmed(crate::strings::split(l.skip(i + 1), ';')), ..m },
            )
        } else {
            Some(m)
        }
    }
}

/// A manifest after some more lines.
pub open spec fn read_manifest(m: Manifest, lines: Seq<Seq<char>>) -> Option<Manifest>
    decreases lines.len(),
{
    if lines.len() == 0 {
        Some(m)
    } else {
        match read_line(m, lines[0]) {
            Some(next) => read_manifest(next, lines.drop_first()),
            None => None,
        }
    }
}

/// The manifest that a text denotes: `None` if a line cannot be read or a required key is missing.
pub open spec fn manifest_of(text: Seq<char>) -> Option<Manifest> {
    match read_manifest(blank_manifest(), crate::strings::lines(text)) {
        Some(m) => if m.id is Some && m.name is Some && m.executable is Some {
            Some(m)
        } else {
            None
        },
        None => None,
    }
}

/// The characters of an optional string.
pub open spec fn maybe_text(s: Option<String>) -> Option<Seq<char>> {
    match s {
        Some(t) => Some(t@),
        None => None,
    }
}

/// The `;`-separated keywords among the characters `lo .. hi` of `v`.
fn parse_keywords(v: &[char], lo: usize, hi: usize) -> (r: Vec<String>)
    requires
        lo <= hi <= v@.len(),
    ensures
        crate::lists::texts(r@) == trimmed(
            crate::strings::split(v@.subrange(lo as int, hi as int), ';'),
        ),
{
    let parts = split_range(v, lo, hi, ';');
    let ghost all = crate::strings::pieces_of(parts@);
    let mut out: Vec<String> = Vec::new();
    let mut i: usize = 0;
    proof {
        assert(all.skip(0) == all);
        assert(crate::lists::texts(out@) =~= Seq::empty());
        assert(Seq::<Seq<char>>::empty() + trimmed(all) == trimmed(all));
    }
    while i < parts.len()
        invariant
            i <= parts@.len(),
            all == crate::strings::pieces_of(parts@),
            crate::lists::texts(out@) + trimmed(all.skip(i as int)) == trimmed(all),
        decreases parts@.len() - i,
    {
        let p = &parts[i];
        let (a, b) = trim_range(p.as_slice(), 0, p.len());
        let ghost before = crate::lists::texts(out@);
        let ghost rest = all.skip(i as int);
        let ghost piece = p@.subrange(a as int, b as int);
        proof {
            assert(p@.subrange(0, p@.len() as int) == p@);
            assert(rest[0] == p@);
            assert(rest.drop_first() == all.skip(i + 1));
            assert(piece == crate::strings::trim(p@));
        }
        if a < b {
            out.push(from_range(p.as_slice(), a, b));
            proof {
                assert(crate::lists::texts(out@) =~= before + seq![piece]);
                crate::lists::lemma_assoc(before, seq![piece], trimmed(rest.drop_first()));
            }
        }
        i = i + 1;
    }
    proof {
        assert(trimmed(all.skip(i as int)) =~= Seq::empty());
        assert(crate::lists::texts(out@) + Seq::<Seq<char>>::empty() == crate::lists::texts(
            out@,
        ));
    }
    out
}

/// Parse a `.desktop`-style app manifest (`Key=Value` lines).
///
/// Requires `Id`, `Name`, and `Exec`; `Keywords` is a `;`-separated list. Returns `None` if a
/// required key is missing, or if a line that is neither empty nor a `#` comment holds no `=`.
pub fn parse_app_manifest(text: &str) -> (r: Option<AppEntry>)
    ensures
        match r {
            Some(app) => manifest_of(text@) == Some(app.manifest()),
            None => manifest_of(text@) is None,
        },
{
    let lines = split_lines(text);
    let ghost all = crate::strings::pieces_of(lines@);
    let mut id: Option<String> = None;
    let mut name: Option<String> = None;
    let mut executable: Option<String> = None;
    let mut icon = String::new();
    let mut keywords: Vec<String> = Vec::new();
    let mut i: usize = 0;
    let ghost mut m = blank_manifest();
    proof {
        assert(all.skip(0) == all);
        assert(crate::lists::texts(keywords@) =~= Seq::empty());
        assert(icon@ =~= Seq::empty());
    }
    while i < lines.len()
        invariant
            i <= lines@.len(),
            all == crate::strings::pieces_of(lines@),
            all == crate::strings::lines(text@),
            m == (Manifest {
                id: maybe_text(id),
                name: maybe_text(name),
                executable: maybe_text(executable),
                icon: icon@,
                keywords: crate::lists::texts(keywords@),
            }),
            read_manifest(m, all.skip(i as int)) == read_manifest(blank_manifest(), all),
        decreases lines@.len() - i,
    {
        let line = &lines[i];
        let v = line.as_slice();
        let (a, b) = trim_range(v, 0, v.len());
        let ghost l = v@.subrange(a as int, b as int);
        proof {
            let rest = all.skip(i as int);
            assert(v@.subrange(0, v@.len() as int) == v@);
            assert(rest[0] == v@);
            assert(rest.drop_first() == all.skip(i + 1));
            assert(l == crate::strings::trim(v@));
            if a < b {
                assert(l[0] == v@[a as int]);
            }
        }
        if a < b && v[a] != '#' {
            let e = find_from(v, a, b, '=');
            if e == b {
                return None;
            }
            let (ka, kb) = trim_range(v, a, e);
            let key = from_range(v, ka, kb);
            let (va, vb) = trim_range(v, e + 1, b);
            let value = from_range(v, va, vb);
            proof {
                assert(l.take(e - a) == v@.subrange(a as int, e as int));
                assert(l.skip(e - a + 1) == v@.subrange(e + 1, b as int));
            }
            if str_eq(key.as_str(), "Id") {
                id = Some(value);
            } else if str_eq(key.as_str(), "Name") {
                name = Some(value);
            } else if str_eq(key.as_str(), "Exec") {
                executable = Some(value);
            } else if str_eq(key.as_str(), "Icon") {
                icon = value;
            } else if str_eq(key.as_str(), "Keywords") {
                keywords = parse_keywords(v, e + 1, b);
            }
        }
        proof {
            m = read_line(m, v@)->Some_0;
        }
        i = i + 1;
    }
    assert(all.skip(i as int) =~= Seq::empty());
    match (id, name, executable) {
        (Some(id), Some(name), Some(executable)) => Some(AppEntry { id, name, executable, icon, keywords }),
        _ => None,
    }
}

// ---------------------------------------------------------------------------
// Fuzzy matching
// ---------------------------------------------------------------------------

const BASE_BONUS: i32 = 2;

const CONSECUTIVE_BONUS: i32 = 5;

const BOUNDARY_BONUS: i32 = 8;

/// Whether `c` is a word-boundary separator.
pub open spec fn is_separator(c: char) -> bool {
    c == ' ' || c == '-' || c == '_' || c == '.' || c == '/'
}

fn is_boundary(c: char) -> (r: bool)
    ensures
        r == is_separator(c),
{
    c == ' ' || c == '-' || c == '_' || c == '.' || c == '/'
}

/// A text with its ASCII letters in lower case.
pub open spec fn folded(s: Seq<char>) -> Seq<char> {
    s.map_values(|c: char| crate::strings::ascii_lower(c))
}

/// Whether the characters of `q` occur in `t` in this order.
pub open spec fn subsequence(q: Seq<char>, t: Seq<char>) -> bool
    decreases t.len(),
{
    if q.len() == 0 {
        true
    } else if t.len() == 0 {
        false
    } else if t[0] == q[0] {
        subsequence(q.drop_first(), t.drop_first())
    } else {
        subsequence(q, t.drop_first())
    }
}

/// What one matched character scores: 2, with 5 more right behind another match and 8 more at the
/// start of a word.
pub open spec fn bonus(boundary: bool, hit: bool) -> nat {
    2 + (if hit {
        5nat
    } else {
        0
    }) + (if boundary {
        8nat
    } else {
        0
    })
}

/// What the characters of `q` score that are matched in `t`, each at the first place behind the one
/// before it. `boundary` says whether `t` starts at a word boundary, `hit` whether the character
/// before `t` was matched.
pub open spec fn points(q: Seq<char>, t: Seq<char>, boundary: bool, hit: bool) -> nat
    decreases t.len(),
{
    if q.len() == 0 || t.len() == 0 {
        0
    } else {
        let next = is_separator(t[0]);
        if crate::strings::ascii_lower(t[0]) == q[0] {
            bonus(boundary, hit) + points(q.drop_first(), t.drop_first(), next, true)
        } else {
            points(q, t.drop_first(), next, false)
        }
    }
}

/// What a match costs in a text of `n` characters.
pub open spec fn length_penalty(n: nat) -> int {
    if n / 4 <= i32::MAX {
        (n / 4) as int
    } else {
        0
    }
}

/// The fuzzy score of a query within a text, case-insensitive over ASCII: `None` if the query is no
/// subsequence of the text.
pub open spec fn fuzzy(query: Seq<char>, text: Seq<char>) -> Option<int> {
    let q = folded(query);
    if q.len() == 0 {
        Some(0)
    } else if subsequence(q, folded(text)) {
        Some(points(q, text, true, false) - length_penalty(text.len()))
    } else {
        None
    }
}

/// Whether the score of a query within a text can be counted in an `i32`.
pub open spec fn countable(query: Seq<char>, text: Seq<char>) -> bool {
    points(folded(query), text, true, false) <= i32::MAX
}

/// Every query of up to 143 million characters can be scored within any text.
pub proof fn lemma_countable(query: Seq<char>, text: Seq<char>)
    requires
        15 * query.len() <= i32::MAX,
    ensures
        countable(query, text),
{
    lemma_points_bound(folded(query), text, true, false);
}

proof fn lemma_points_bound(q: Seq<char>, t: Seq<char>, boundary: bool, hit: bool)
    ensures
        points(q, t, boundary, hit) <= 15 * q.len(),
    decreases t.len(),
{
    if q.len() > 0 && t.len() > 0 {
        let next = is_separator(t[0]);
        lemma_points_bound(q.drop_first(), t.drop_first(), next, true);
        lemma_points_bound(q, t.drop_first(), next, false);
    }
}

/// Whether `places` are increasing positions in `t` that hold the characters of `q`.
pub open spec fn embedded(q: Seq<char>, t: Seq<char>, places: Seq<int>) -> bool {
    &&& places.len() == q.len()
    &&& forall|i: int| 0 <= i < q.len() ==> 0 <= #[trigger] places[i] < t.len() && t[places[i]] == q[i]
    &&& forall|i: int, j: int| 0 <= i < j < q.len() ==> #[trigger] places[i] < #[trigger] places[j]
}

proof fn lemma_embeds(q: Seq<char>, t: Seq<char>) -> (places: Seq<int>)
    requires
        subsequence(q, t),
    ensures
        embedded(q, t, places),
    decreases t.len(),
{
    if q.len() == 0 {
        Seq::empty()
    } else if t[0] == q[0] {
        let inner = lemma_embeds(q.drop_first(), t.drop_first());
        let places = Seq::new(
            q.len(),
            |i: int|
                if i == 0 {
                    0
                } else {
                    inner[i - 1] + 1
                },
        );
        assert forall|i: int| 0 <= i < q.len() implies 0 <= #[trigger] places[i] < t.len()
            && t[places[i]] == q[i] by {
            if i > 0 {
                assert(0 <= inner[i - 1] < t.len() - 1);
                assert(t.drop_first()[inner[i - 1]] == q.drop_first()[i - 1]);
            }
        }
        assert forall|i: int, j: int| 0 <= i < j < q.len() implies #[trigger] places[i]
            < #[trigger] places[j] by {
            assert(0 <= inner[j - 1]);
            if i > 0 {
                assert(inner[i - 1] < inner[j - 1]);
            }
        }
        places
    } else {
        let inner = lemma_embeds(q, t.drop_first());
        let places = inner.map_values(|p: int| p + 1);
        assert forall|i: int| 0 <= i < q.len() implies 0 <= #[trigger] places[i] < t.len()
            && t[places[i]] == q[i] by {
            assert(0 <= inner[i] < t.len() - 1);
            assert(t.drop_first()[inner[i]] == q[i]);
        }
        assert forall|i: int, j: int| 0 <= i < j < q.len() implies #[trigger] places[i]
            < #[trigger] places[j] by {
            assert(inner[i] < inner[j]);
        }
        places
    }
}

proof fn lemma_embedded(q: Seq<char>, t: Seq<char>, places: Seq<int>)
    requires
        embedded(q, t, places),
    ensures
        subsequence(q, t),
    decreases t.len(),
{
    if q.len() > 0 {
        assert(0 <= places[0] < t.len());
        if t[0] == q[0] {
            let rest = q.drop_first();
            let inner = places.drop_first().map_values(|p: int| p - 1);
            assert forall|i: int| 0 <= i < rest.len() implies 0 <= #[trigger] inner[i] < t.len() - 1
                && t.drop_first()[inner[i]] == rest[i] by {
                assert(places[0] < places[i + 1]);
            }
            assert forall|i: int, j: int| 0 <= i < j < rest.len() implies #[trigger] inner[i]
                < #[trigger] inner[j] by {
                assert(places[i + 1] < places[j + 1]);
            }
            lemma_embedded(rest, t.drop_first(), inner);
        } else {
            let inner = places.map_values(|p: int| p - 1);
            assert forall|i: int| 0 <= i < q.len() implies 0 <= #[trigger] inner[i] < t.len() - 1
                && t.drop_first()[inner[i]] == q[i] by {
                if i > 0 {
                    assert(places[0] < places[i]);
                }
                assert(0 <= places[i] < t.len());
            }
            assert forall|i: int, j: int| 0 <= i < j < q.len() implies #[trigger] inner[i]
                < #[trigger] inner[j] by {
                assert(places[i] < places[j]);
            }
            lemma_embedded(q, t.drop_first(), inner);
        }
    }
}

/// A query has a score within a text exactly if its characters occur there in order, whatever
/// places they are found at.
pub proof fn law_match_is_a_subsequence(query: Seq<char>, text: Seq<char>)
    ensures
        fuzzy(query, text) is Some <==> exists|places: Seq<int>|
            embedded(folded(query), folded(text), places),
{
    let q = folded(query);
    let t = folded(text);
    if fuzzy(query, text) is Some {
        let places = lemma_embeds(q, t);
        assert(embedded(q, t, places));
    }
    if exists|places: Seq<int>| embedded(q, t, places) {
        lemma_embedded(q, t, choose|places: Seq<int>| embedded(q, t, places));
    }
}

/// Whether every character of `q` stands at the first of its places behind the one before it.
pub open spec fn leftmost(q: Seq<char>, t: Seq<char>, places: Seq<int>) -> bool {
    embedded(q, t, places) && forall|i: int, p: int|
        #![trigger places[i], t[p]]
        0 <= i < q.len() && 0 <= p < places[i] && t[p] == q[i] ==> i > 0 && p <= places[i - 1]
}

/// What the match at place `i` scores in `t`: 2, with 5 more right behind the match before it and
/// 8 more at the start of the text or behind a separator. Before `t` stands a character that is a
/// separator or nothing if `boundary`, and matched if `hit`.
pub open spec fn place_score(
    t: Seq<char>,
    places: Seq<int>,
    i: int,
    boundary: bool,
    hit: bool,
) -> int {
    let p = places[i];
    let behind = if i > 0 {
        p == places[i - 1] + 1
    } else {
        p == 0 && hit
    };
    let starts = if p > 0 {
        let c = t[p - 1];
        c == ' ' || c == '-' || c == '_' || c == '.' || c == '/'
    } else {
        boundary
    };
    2 + (if behind {
        5int
    } else {
        0
    }) + (if starts {
        8int
    } else {
        0
    })
}

/// What each of the matches scores.
pub open spec fn place_scores(
    t: Seq<char>,
    places: Seq<int>,
    boundary: bool,
    hit: bool,
) -> Seq<int> {
    Seq::new(places.len(), |i: int| place_score(t, places, i, boundary, hit))
}

/// Places moved one to the right, with place 0 in front of them.
spec fn with_first(inner: Seq<int>) -> Seq<int> {
    Seq::new(
        inner.len() + 1,
        |i: int|
            if i == 0 {
                0
            } else {
                inner[i - 1] + 1
            },
    )
}

/// Places moved one to the right.
spec fn moved_on(inner: Seq<int>) -> Seq<int> {
    Seq::new(inner.len(), |i: int| inner[i] + 1)
}

proof fn lemma_with_first(q: Seq<char>, f: Seq<char>, inner: Seq<int>)
    requires
        q.len() > 0,
        f.len() > 0,
        f[0] == q[0],
        leftmost(q.drop_first(), f.drop_first(), inner),
    ensures
        leftmost(q, f, with_first(inner)),
{
    let (tail, rest) = (q.drop_first(), f.drop_first());
    let places = with_first(inner);
    assert forall|i: int| 0 <= i < q.len() implies 0 <= #[trigger] places[i] < f.len()
        && f[places[i]] == q[i] by {
        if i > 0 {
            assert(0 <= inner[i - 1] < rest.len());
            assert(rest[inner[i - 1]] == tail[i - 1]);
        }
    }
    assert forall|i: int, j: int| 0 <= i < j < q.len() implies #[trigger] places[i]
        < #[trigger] places[j] by {
        assert(0 <= inner[j - 1]);
        if i > 0 {
            assert(inner[i - 1] < inner[j - 1]);
        }
    }
    assert forall|i: int, p: int|
        #![trigger places[i], f[p]]
        0 <= i < q.len() && 0 <= p < places[i] && f[p] == q[i] implies i > 0 && p <= places[i
        - 1] by {
        if p > 0 {
            assert(rest[p - 1] == tail[i - 1]);
            assert(p - 1 < inner[i - 1]);
        }
    }
}

proof fn lemma_moved_on(q: Seq<char>, f: Seq<char>, inner: Seq<int>)
    requires
        q.len() > 0,
        f.len() > 0,
        f[0] != q[0],
        leftmost(q, f.drop_first(), inner),
    ensures
        leftmost(q, f, moved_on(inner)),
{
    let rest = f.drop_first();
    let places = moved_on(inner);
    assert forall|i: int| 0 <= i < q.len() implies 0 <= #[trigger] places[i] < f.len()
        && f[places[i]] == q[i] by {
        assert(0 <= inner[i] < rest.len());
        assert(rest[inner[i]] == q[i]);
    }
    assert forall|i: int, j: int| 0 <= i < j < q.len() implies #[trigger] places[i]
        < #[trigger] places[j] by {
        assert(inner[i] < inner[j]);
    }
    assert forall|i: int, p: int|
        #![trigger places[i], f[p]]
        0 <= i < q.len() && 0 <= p < places[i] && f[p] == q[i] implies i > 0 && p <= places[i
        - 1] by {
        if p > 0 {
            assert(rest[p - 1] == q[i]);
            assert(p - 1 < inner[i]);
        } else {
            assert(0 <= inner[i - 1]);
        }
    }
}

proof fn lemma_scores_with_first(t: Seq<char>, inner: Seq<int>, boundary: bool, hit: bool)
    requires
        t.len() > 0,
        forall|i: int| 0 <= i < inner.len() ==> 0 <= #[trigger] inner[i] < t.len() - 1,
    ensures
        place_scores(t, with_first(inner), boundary, hit) == seq![bonus(boundary, hit) as int]
            + place_scores(t.drop_first(), inner, is_separator(t[0]), true),
{
    let all = place_scores(t, with_first(inner), boundary, hit);
    let more = place_scores(t.drop_first(), inner, is_separator(t[0]), true);
    assert forall|i: int| 0 < i < all.len() implies all[i] == more[i - 1] by {
        assert(0 <= inner[i - 1] < t.len() - 1);
    }
    assert(all =~= seq![bonus(boundary, hit) as int] + more);
}

proof fn lemma_scores_moved_on(t: Seq<char>, inner: Seq<int>, boundary: bool, hit: bool)
    requires
        t.len() > 0,
        forall|i: int| 0 <= i < inner.len() ==> 0 <= #[trigger] inner[i] < t.len() - 1,
    ensures
        place_scores(t, moved_on(inner), boundary, hit) == place_scores(
            t.drop_first(),
            inner,
            is_separator(t[0]),
            false,
        ),
{
    let all = place_scores(t, moved_on(inner), boundary, hit);
    let more = place_scores(t.drop_first(), inner, is_separator(t[0]), false);
    assert forall|i: int| 0 <= i < all.len() implies all[i] == more[i] by {
        assert(0 <= inner[i] < t.len() - 1);
    }
    assert(all =~= more);
}

proof fn lemma_points_at_places(
    q: Seq<char>,
    t: Seq<char>,
    boundary: bool,
    hit: bool,
) -> (places: Seq<int>)
    requires
        subsequence(q, folded(t)),
    ensures
        leftmost(q, folded(t), places),
        points(q, t, boundary, hit) == crate::lists::total(place_scores(t, places, boundary, hit)),
    decreases t.len(),
{
    let f = folded(t);
    if q.len() == 0 {
        let places = Seq::<int>::empty();
        assert(place_scores(t, places, boundary, hit) =~= Seq::empty());
        places
    } else {
        let rest = t.drop_first();
        let next = is_separator(t[0]);
        assert(f.drop_first() =~= folded(rest));
        if f[0] == q[0] {
            let inner = lemma_points_at_places(q.drop_first(), rest, next, true);
            lemma_with_first(q, f, inner);
            lemma_scores_with_first(t, inner, boundary, hit);
            let first = bonus(boundary, hit) as int;
            crate::lists::lemma_total_concat(seq![first], place_scores(rest, inner, next, true));
            crate::lists::lemma_total_one(first);
            with_first(inner)
        } else {
            let inner = lemma_points_at_places(q, rest, next, false);
            lemma_moved_on(q, f, inner);
            lemma_scores_moved_on(t, inner, boundary, hit);
            moved_on(inner)
        }
    }
}

/// The score of a match: every character of the query is matched at the first place behind the one
/// before it, each match scores what its place is worth, and the length of the text costs a
/// quarter of a point for each character.
pub proof fn law_score_adds_up_the_places(query: Seq<char>, text: Seq<char>)
    requires
        query.len() > 0,
        fuzzy(query, text) is Some,
        text.len() / 4 <= i32::MAX,
    ensures
        exists|places: Seq<int>|
            {
                &&& #[trigger] leftmost(folded(query), folded(text), places)
                &&& fuzzy(query, text)->0 == crate::lists::total(
                    place_scores(text, places, true, false),
                ) - text.len() / 4
            },
{
    let places = lemma_points_at_places(folded(query), text, true, false);
    assert(leftmost(folded(query), folded(text), places));
}

/// Greedy subsequence fuzzy score of `query` within `text` (case-insensitive).
///
/// Returns `None` if `query` is not a subsequence of `text`. A higher score is a better match: each
/// matched character scores 2, consecutive matches add 5, and a match at a word boundary adds 8; a
/// small penalty grows with the candidate length so that, among equal matches, shorter titles rank
/// higher.
pub fn fuzzy_score(query: &str, text: &str) -> (r: Option<i32>)
    requires
        countable(query@, text@),
    ensures
        match r {
            Some(n) => fuzzy(query@, text@) == Some(n as int),
            None => fuzzy(query@, text@) is None,
        },
{
    let raw = to_chars(query);
    let t = to_chars(text);
    let mut q: Vec<char> = Vec::new();
    let mut i: usize = 0;
    while i < raw.len()
        invariant
            i <= raw@.len(),
            q@.len() == i,
            forall|j: int| 0 <= j < i ==> q@[j] == crate::strings::ascii_lower(#[trigger] raw@[j]),
        decreases raw@.len() - i,
    {
        q.push(to_ascii_lower(raw[i]));
        i = i + 1;
    }
    assert(q@ =~= folded(query@));
    if q.len() == 0 {
        return Some(0);
    }
    let ghost total = points(q@, t@, true, false);
    let mut qi: usize = 0;
    let mut ti: usize = 0;
    let mut score: i32 = 0;
    let mut hit = false;
    let mut boundary = true;
    proof {
        assert(q@.skip(0) == q@);
        assert(t@.skip(0) == t@);
    }
    while ti < t.len() && qi < q.len()
        invariant
            ti <= t@.len(),
            qi <= q@.len(),
            0 <= score <= total <= i32::MAX,
            score + points(q@.skip(qi as int), t@.skip(ti as int), boundary, hit) == total,
            subsequence(q@.skip(qi as int), folded(t@.skip(ti as int))) == subsequence(
                q@,
                folded(t@),
            ),
        decreases t@.len() - ti,
    {
        let c = t[ti];
        proof {
            let qr = q@.skip(qi as int);
            let tr = t@.skip(ti as int);
            assert(qr.drop_first() == q@.skip(qi + 1));
            assert(tr.drop_first() == t@.skip(ti + 1));
            assert(folded(tr).drop_first() == folded(t@.skip(ti + 1)));
        }
        if to_ascii_lower(c) == q[qi] {
            score = score + BASE_BONUS;
            if hit {
                score = score + CONSECUTIVE_BONUS;
            }
            if boundary {
                score = score + BOUNDARY_BONUS;
            }
            hit = true;
            qi = qi + 1;
        } else {
            hit = false;
        }
        boundary = is_boundary(c);
        ti = ti + 1;
    }
    if qi == q.len() {
        let quarter: usize = t.len() / 4;
        let penalty: i32 = if quarter as u64 <= i32::MAX as u64 {
            quarter as i32
        } else {
            0
        };
        Some(score - penalty)
    } else {
        None
    }
}

// ---------------------------------------------------------------------------
// Index
// ---------------------------------------------------------------------------

/// The kind of thing a search entry refers to.
#[derive(Debug, Clone, Copy, PartialEq, Eq, Structural)]
pub enum EntryKind {
    /// An installed application.
    App,
    /// A file.
    File,
    /// A settings item.
    Setting,
}

/// One indexed, searchable item.
#[derive(Debug, Clone, PartialEq, Eq)]
pub struct SearchEntry {
    /// Stable identifier (app id, file path, setting key).
    pub id: String,
    /// What this entry refers to.
    pub kind: EntryKind,
    /// The primary display title (matched against).
    pub title: String,
    /// Secondary text (not matched, shown under the title).
    pub subtitle: String,
    /// Extra match keywords.
    pub keywords: Vec<String>,
}

/// What a search entry says.
#[verifier::ext_equal]
pub struct Item {
    /// Stable identifier.
    pub id: Seq<char>,
    /// What the entry refers to.
    pub kind: EntryKind,
    /// The title.
    pub title: Seq<char>,
    /// The secondary text.
    pub subtitle: Seq<char>,
    /// Extra match keywords.
    pub keywords: Seq<Seq<char>>,
}

impl View for SearchEntry {
    type V = Item;

    open spec fn view(&self) -> Item {
        Item {
            id: self.id@,
            kind: self.kind,
            title: self.title@,
            subtitle: self.subtitle@,
            keywords: crate::lists::texts(self.keywords@),
        }
    }
}

/// What the entries of a list say.
pub open spec fn items(entries: Seq<SearchEntry>) -> Seq<Item> {
    entries.map_values(|e: SearchEntry| e@)
}

/// A ranked search hit.
#[derive(Debug, Clone, PartialEq, Eq)]
pub struct SearchResult {
    /// The matched entry's id.
    pub id: String,
    /// The matched entry's kind.
    pub kind: EntryKind,
    /// The matched entry's title.
    pub title: String,
    /// Match score (higher is a better match).
    pub score: i32,
}

/// What a search hit says.
#[verifier::ext_equal]
pub struct Hit {
    /// The matched entry's id.
    pub id: Seq<char>,
    /// The matched entry's kind.
    pub kind: EntryKind,
    /// The matched entry's title.
    pub title: Seq<char>,
    /// Match score.
    pub score: int,
}

impl View for SearchResult {
    type V = Hit;

    open spec fn view(&self) -> Hit {
        Hit { id: self.id@, kind: self.kind, title: self.title@, score: self.score as int }
    }
}

/// What the results of a list say.
pub open spec fn hits(results: Seq<SearchResult>) -> Seq<Hit> {
    results.map_values(|r: SearchResult| r@)
}

/// The higher of two optional scores.
pub open spec fn higher(a: Option<int>, b: Option<int>) -> Option<int> {
    match (a, b) {
        (Some(x), Some(y)) => Some(
            if x < y {
                y
            } else {
                x
            },
        ),
        (Some(x), None) => Some(x),
        (None, y) => y,
    }
}

/// The highest of a score and the scores of a query within some keywords.
pub open spec fn highest(query: Seq<char>, keywords: Seq<Seq<char>>, score: Option<int>) -> Option<
    int,
>
    decreases keywords.len(),
{
    if keywords.len() == 0 {
        score
    } else {
        highest(query, keywords.drop_first(), higher(score, fuzzy(query, keywords[0])))
    }
}

/// The best score of a query over the title and the keywords of an entry.
pub open spec fn best_score(query: Seq<char>, item: Item) -> Option<int> {
    highest(query, item.keywords, fuzzy(query, item.title))
}

/// The hit of an entry.
pub open spec fn hit_of(item: Item, score: int) -> Hit {
    Hit { id: item.id, kind: item.kind, title: item.title, score }
}

/// The hits of a query, in the order of the entries.
pub open spec fn found(entries: Seq<Item>, query: Seq<char>) -> Seq<Hit>
    decreases entries.len(),
{
    if entries.len() == 0 {
        Seq::empty()
    } else {
        match best_score(query, entries.last()) {
            Some(n) => found(entries.drop_last(), query).push(hit_of(entries.last(), n)),
            None => found(entries.drop_last(), query),
        }
    }
}

/// Whether hit `a` ranks before hit `b`: by a higher score, then by a shorter title, then by the
/// title itself.
pub open spec fn outranks(a: Hit, b: Hit) -> bool {
    let m = crate::strings::utf8(a.title).len();
    let n = crate::strings::utf8(b.title).len();
    if a.score != b.score {
        a.score > b.score
    } else if m != n {
        m < n
    } else {
        crate::strings::str_lt(a.title, b.title)
    }
}

/// Where a hit goes in a ranking: before the first hit that it outranks.
pub open spec fn rank(ranking: Seq<Hit>, h: Hit) -> int
    decreases ranking.len(),
{
    if ranking.len() == 0 || outranks(h, ranking[0]) {
        0
    } else {
        1 + rank(ranking.drop_first(), h)
    }
}

/// Hits in the order of their rank; of equal rank, in the given order.
pub open spec fn ranked(all: Seq<Hit>) -> Seq<Hit>
    decreases all.len(),
{
    if all.len() == 0 {
        Seq::empty()
    } else {
        let r = ranked(all.drop_last());
        r.insert(rank(r, all.last()), all.last())
    }
}

/// The first `limit` entries of a list.
pub open spec fn at_most<T>(s: Seq<T>, limit: nat) -> Seq<T> {
    if s.len() <= limit {
        s
    } else {
        s.take(limit as int)
    }
}

/// The results of a query: every entry in insertion order if the query is empty, else the ranked
/// hits; capped at `limit`.
pub open spec fn results_of(entries: Seq<Item>, query: Seq<char>, limit: nat) -> Seq<Hit> {
    if query.len() == 0 {
        at_most(entries.map_values(|e: Item| hit_of(e, 0)), limit)
    } else {
        at_most(ranked(found(entries, query)), limit)
    }
}

proof fn lemma_highest(query: Seq<char>, keywords: Seq<Seq<char>>, score: Option<int>)
    ensures
        ({
            let best = highest(query, keywords, score);
            &&& score matches Some(n) ==> best is Some && best->0 >= n
            &&& forall|k: int|
                0 <= k < keywords.len() ==> (fuzzy(query, #[trigger] keywords[k]) matches Some(n)
                    ==> best is Some && best->0 >= n)
            &&& best is Some ==> best == score || exists|k: int|
                0 <= k < keywords.len() && fuzzy(query, #[trigger] keywords[k]) == best
        }),
    decreases keywords.len(),
{
    if keywords.len() > 0 {
        let rest = keywords.drop_first();
        let first = fuzzy(query, keywords[0]);
        let best = highest(query, keywords, score);
        lemma_highest(query, rest, higher(score, first));
        assert forall|k: int| 0 <= k < keywords.len() implies (fuzzy(
            query,
            #[trigger] keywords[k],
        ) matches Some(n) ==> best is Some && best->0 >= n) by {
            if k > 0 {
                assert(rest[k - 1] == keywords[k]);
            }
        }
        if best is Some && best != score {
            if best == first {
                assert(fuzzy(query, keywords[0]) == best);
            } else {
                let k = choose|k: int|
                    0 <= k < rest.len() && fuzzy(query, #[trigger] rest[k]) == best;
                assert(keywords[k + 1] == rest[k]);
            }
        }
    }
}

/// The score of an entry is the best over its title and all its keywords: no less than any of them,
/// and equal to one. An entry is found whenever its title or any keyword matches, wherever that
/// keyword stands.
pub proof fn law_score_is_the_best_of_title_and_keywords(query: Seq<char>, item: Item)
    ensures
        ({
            let best = best_score(query, item);
            &&& fuzzy(query, item.title) matches Some(n) ==> best is Some && best->0 >= n
            &&& forall|k: int|
                0 <= k < item.keywords.len() ==> (fuzzy(
                    query,
                    #[trigger] item.keywords[k],
                ) matches Some(n) ==> best is Some && best->0 >= n)
            &&& best is Some ==> fuzzy(query, item.title) == best || exists|k: int|
                0 <= k < item.keywords.len() && fuzzy(query, #[trigger] item.keywords[k]) == best
        }),
{
    lemma_highest(query, item.keywords, fuzzy(query, item.title));
}

/// Whether an entry matches a query, in its title or in some keyword.
pub open spec fn matches_query(query: Seq<char>, item: Item) -> bool {
    fuzzy(query, item.title) is Some || exists|k: int|
        0 <= k < item.keywords.len() && fuzzy(query, #[trigger] item.keywords[k]) is Some
}

/// The hits are exactly the entries that match: `places` are increasing positions of entries, one
/// for each hit, and every entry that matches is at one of them.
pub open spec fn picks(entries: Seq<Item>, query: Seq<char>, hits: Seq<Hit>, places: Seq<int>) -> bool {
    &&& places.len() == hits.len()
    &&& forall|i: int, j: int| 0 <= i < j < places.len() ==> #[trigger] places[i] < #[trigger] places[j]
    &&& forall|i: int|
        0 <= i < places.len() ==> {
            let e = entries[#[trigger] places[i]];
            &&& 0 <= places[i] < entries.len()
            &&& matches_query(query, e)
            &&& hits[i].id == e.id && hits[i].kind == e.kind && hits[i].title == e.title
            &&& best_score(query, e) == Some(hits[i].score)
        }
    &&& forall|n: int|
        0 <= n < entries.len() && matches_query(query, #[trigger] entries[n]) ==> places.contains(n)
}

/// Every entry that matches a query is found, once, in the order of the entries, and nothing else
/// is.
pub proof fn law_every_match_is_found(entries: Seq<Item>, query: Seq<char>) -> (places: Seq<int>)
    ensures
        picks(entries, query, found(entries, query), places),
    decreases entries.len(),
{
    if entries.len() == 0 {
        Seq::empty()
    } else {
        let head = entries.drop_last();
        let last = entries.last();
        let before = law_every_match_is_found(head, query);
        law_score_is_the_best_of_title_and_keywords(query, last);
        assert(matches_query(query, last) == (best_score(query, last) is Some));
        let places = if best_score(query, last) is Some {
            before.push(head.len() as int)
        } else {
            before
        };
        let hits = found(entries, query);
        assert forall|i: int| 0 <= i < places.len() implies {
            let e = entries[#[trigger] places[i]];
            &&& 0 <= places[i] < entries.len()
            &&& matches_query(query, e)
            &&& hits[i].id == e.id && hits[i].kind == e.kind && hits[i].title == e.title
            &&& best_score(query, e) == Some(hits[i].score)
        } by {
            if i < before.len() {
                assert(0 <= before[i] < head.len());
                assert(head[before[i]] == entries[places[i]]);
            }
        }
        assert forall|i: int, j: int| 0 <= i < j < places.len() implies #[trigger] places[i]
            < #[trigger] places[j] by {
            assert(0 <= before[i] < head.len());
            if j < before.len() {
                assert(before[i] < before[j]);
            }
        }
        assert forall|n: int|
            0 <= n < entries.len() && matches_query(
                query,
                #[trigger] entries[n],
            ) implies places.contains(n) by {
            if n < head.len() {
                assert(head[n] == entries[n]);
                assert(before.contains(n));
                let k = choose|k: int| 0 <= k < before.len() && before[k] == n;
                assert(places[k] == n);
            } else {
                assert(places[before.len() as int] == n);
            }
        }
        places
    }
}

/// The results of a query are the best hits, best first, and no more than `limit` of them: hits are
/// left out only for want of room, and none that is left out outranks one that is shown. An empty
/// query gives the entries as they were added.
pub proof fn law_results_are_the_best_hits(entries: Seq<Item>, query: Seq<char>, limit: nat)
    ensures
        ({
            let results = results_of(entries, query, limit);
            let hits = found(entries, query);
            &&& results.len() <= limit
            &&& query.len() > 0 ==> {
                &&& results.len() == limit || results.to_multiset() == hits.to_multiset()
                &&& results.len() <= hits.len()
                &&& forall|i: int| 0 <= i < results.len() ==> hits.contains(#[trigger] results[i])
                &&& in_order(results)
                &&& forall|h: Hit, i: int|
                    #![trigger hits.contains(h), results[i]]
                    hits.contains(h) && !results.contains(h) && 0 <= i < results.len()
                        ==> !outranks(h, results[i])
            }
            &&& query.len() == 0 ==> results.len() == entries.len() || results.len() == limit
            &&& query.len() == 0 ==> forall|i: int|
                0 <= i < results.len() ==> {
                    &&& (#[trigger] results[i]).id == entries[i].id
                    &&& results[i].kind == entries[i].kind
                    &&& results[i].title == entries[i].title
                    &&& results[i].score == 0
                }
        }),
{
    let hits = found(entries, query);
    let all = ranked(hits);
    let results = results_of(entries, query, limit);
    law_ranking_sorts(hits);
    if query.len() > 0 {
        assert forall|i: int| 0 <= i < results.len() implies hits.contains(
            #[trigger] results[i],
        ) by {
            assert(all[i] == results[i]);
            all.to_multiset_ensures();
            hits.to_multiset_ensures();
            assert(all.contains(all[i]));
            assert(all.to_multiset().count(all[i]) > 0);
        }
        assert forall|h: Hit, i: int|
            #![trigger hits.contains(h), results[i]]
            hits.contains(h) && !results.contains(h) && 0 <= i < results.len() implies !outranks(
            h,
            results[i],
        ) by {
            all.to_multiset_ensures();
            hits.to_multiset_ensures();
            assert(hits.to_multiset().count(h) > 0);
            assert(all.contains(h));
            let j = choose|j: int| 0 <= j < all.len() && all[j] == h;
            if j < results.len() {
                assert(results[j] == h);
            }
            assert(results[i] == all[i]);
        }
    }
}

/// Whether the scores of a query over an entry can be counted in an `i32`.
pub open spec fn item_countable(item: Item, query: Seq<char>) -> bool {
    countable(query, item.title) && forall|k: int|
        0 <= k < item.keywords.len() ==> countable(query, #[trigger] item.keywords[k])
}

/// Whether the scores of a query over all entries can be counted in an `i32`.
pub open spec fn all_countable(entries: Seq<Item>, query: Seq<char>) -> bool {
    forall|i: int| 0 <= i < entries.len() ==> item_countable(#[trigger] entries[i], query)
}

/// Every query of up to 143 million characters can be scored over any entries.
pub proof fn law_ordinary_queries_can_be_scored(entries: Seq<Item>, query: Seq<char>)
    requires
        15 * query.len() <= i32::MAX,
    ensures
        all_countable(entries, query),
{
    assert forall|i: int| 0 <= i < entries.len() implies item_countable(
        #[trigger] entries[i],
        query,
    ) by {
        lemma_countable(query, entries[i].title);
        assert forall|k: int| 0 <= k < entries[i].keywords.len() implies countable(
            query,
            #[trigger] entries[i].keywords[k],
        ) by {
            lemma_countable(query, entries[i].keywords[k]);
        }
    }
}

/// Whether no hit of a list is outranked by a later one.
pub open spec fn in_order(ranking: Seq<Hit>) -> bool {
    forall|i: int, j: int|
        0 <= i < j < ranking.len() ==> !outranks(#[trigger] ranking[j], #[trigger] ranking[i])
}

proof fn lemma_outranks_transitive(a: Hit, b: Hit, c: Hit)
    requires
        outranks(a, b),
        outranks(b, c),
    ensures
        outranks(a, c),
{
    if a.score == b.score && b.score == c.score && crate::strings::utf8(a.title).len()
        == crate::strings::utf8(b.title).len() && crate::strings::utf8(b.title).len()
        == crate::strings::utf8(c.title).len() {
        crate::strings::lemma_str_lt_transitive(a.title, b.title, c.title);
    }
}

proof fn lemma_outranks_asymmetric(a: Hit, b: Hit)
    requires
        outranks(a, b),
    ensures
        !outranks(b, a),
{
    if outranks(b, a) {
        lemma_outranks_transitive(a, b, a);
        crate::strings::lemma_str_lt_irreflexive(a.title);
    }
}

proof fn lemma_rank(ranking: Seq<Hit>, h: Hit)
    ensures
        0 <= rank(ranking, h) <= ranking.len(),
        forall|i: int| 0 <= i < rank(ranking, h) ==> !outranks(h, #[trigger] ranking[i]),
        rank(ranking, h) < ranking.len() ==> outranks(h, ranking[rank(ranking, h)]),
    decreases ranking.len(),
{
    if ranking.len() > 0 && !outranks(h, ranking[0]) {
        let rest = ranking.drop_first();
        lemma_rank(rest, h);
        assert forall|i: int| 0 <= i < rank(ranking, h) implies !outranks(
            h,
            #[trigger] ranking[i],
        ) by {
            if i > 0 {
                assert(rest[i - 1] == ranking[i]);
            }
        }
    }
}

proof fn lemma_rank_at(ranking: Seq<Hit>, h: Hit, p: int)
    requires
        0 <= p <= ranking.len(),
        forall|i: int| 0 <= i < p ==> !outranks(h, #[trigger] ranking[i]),
        p < ranking.len() ==> outranks(h, ranking[p]),
    ensures
        rank(ranking, h) == p,
{
    lemma_rank(ranking, h);
    let r = rank(ranking, h);
    if r < p {
        assert(!outranks(h, ranking[r]));
    }
    if p < r {
        assert(!outranks(h, ranking[p]));
    }
}

/// A ranking holds exactly the hits that were ranked, and none of them is outranked by a later one.
pub proof fn law_ranking_sorts(all: Seq<Hit>)
    ensures
        in_order(ranked(all)),
        ranked(all).to_multiset() == all.to_multiset(),
        ranked(all).len() == all.len(),
    decreases all.len(),
{
    if all.len() > 0 {
        let rest = all.drop_last();
        let h = all.last();
        let r = ranked(rest);
        let p = rank(r, h);
        law_ranking_sorts(rest);
        lemma_rank(r, h);
        let s = r.insert(p, h);
        assert forall|i: int, j: int| 0 <= i < j < s.len() implies !outranks(
            #[trigger] s[j],
            #[trigger] s[i],
        ) by {
            if j < p {
                assert(s[i] == r[i] && s[j] == r[j]);
            } else if j == p {
                assert(s[i] == r[i]);
            } else if i > p {
                assert(s[i] == r[i - 1] && s[j] == r[j - 1]);
            } else if i < p {
                assert(s[i] == r[i] && s[j] == r[j - 1]);
            } else {
                assert(s[j] == r[j - 1]);
                assert(outranks(h, r[p]));
                if outranks(s[j], h) {
                    lemma_outranks_transitive(s[j], h, r[p]);
                    if j - 1 == p {
                        lemma_outranks_asymmetric(h, r[p]);
                    }
                }
            }
        }
        vstd::seq_lib::to_multiset_insert(r, p, h);
        assert(rest.push(h) == all);
        rest.to_multiset_ensures();
        assert(rest.push(h).to_multiset() == rest.to_multiset().insert(h));
    } else {
        assert(all == Seq::<Hit>::empty());
    }
}

/// Keep the higher of two optional scores.
fn better(a: Option<i32>, b: Option<i32>) -> (r: Option<i32>)
    ensures
        score_value(r) == higher(score_value(a), score_value(b)),
{
    match (a, b) {
        (Some(x), Some(y)) => if x < y {
            Some(y)
        } else {
            Some(x)
        },
        (Some(x), None) => Some(x),
        (None, b) => b,
    }
}

/// The value of an optional score.
pub open spec fn score_value(s: Option<i32>) -> Option<int> {
    match s {
        Some(n) => Some(n as int),
        None => None,
    }
}

fn entry_score(query: &str, entry: &SearchEntry) -> (r: Option<i32>)
    requires
        item_countable(entry@, query@),
    ensures
        score_value(r) == best_score(query@, entry@),
{
    let mut best = fuzzy_score(query, entry.title.as_str());
    let mut k: usize = 0;
    let ghost kws = crate::lists::texts(entry.keywords@);
    assert(kws.skip(0) == kws);
    while k < entry.keywords.len()
        invariant
            k <= entry.keywords@.len(),
            kws == crate::lists::texts(entry.keywords@),
            kws == entry@.keywords,
            item_countable(entry@, query@),
            highest(query@, kws.skip(k as int), score_value(best)) == best_score(query@, entry@),
        decreases entry.keywords@.len() - k,
    {
        proof {
            let rest = kws.skip(k as int);
            assert(rest[0] == entry.keywords@[k as int]@);
            assert(rest.drop_first() == kws.skip(k + 1));
            assert(countable(query@, entry@.keywords[k as int]));
        }
        best = better(best, fuzzy_score(query, entry.keywords[k].as_str()));
        k = k + 1;
    }
    best
}

fn is_before(a: &SearchResult, b: &SearchResult) -> (r: bool)
    ensures
        r == outranks(a@, b@),
{
    if a.score != b.score {
        return a.score > b.score;
    }
    let m: usize = a.title.as_str().as_bytes().len();
    let n: usize = b.title.as_str().as_bytes().len();
    if m != n {
        return m < n;
    }
    match str_order(a.title.as_str(), b.title.as_str()) {
        Order::Before => true,
        Order::Same => {
            proof {
                crate::strings::lemma_str_lt_irreflexive(a.title@);
            }
            false
        },
        Order::After => {
            proof {
                if crate::strings::str_lt(a.title@, b.title@) {
                    crate::strings::lemma_str_lt_transitive(a.title@, b.title@, a.title@);
                    crate::strings::lemma_str_lt_irreflexive(a.title@);
                }
            }
            false
        },
    }
}

fn insert_ranked(ranking: &mut Vec<SearchResult>, h: SearchResult)
    ensures
        hits(final(ranking)@) == hits(old(ranking)@).insert(rank(hits(old(ranking)@), h@), h@),
{
    let ghost before = hits(ranking@);
    let mut p: usize = 0;
    while p < ranking.len() && !is_before(&h, &ranking[p])
        invariant
            p <= ranking@.len(),
            before == hits(ranking@),
            forall|i: int| 0 <= i < p ==> !outranks(h@, #[trigger] before[i]),
        decreases ranking@.len() - p,
    {
        p = p + 1;
    }
    proof {
        lemma_rank_at(before, h@, p as int);
    }
    ranking.insert(p, h);
    assert(hits(ranking@) =~= before.insert(p as int, h@));
}

/// The global search index.
#[derive(Debug, Clone, PartialEq, Eq)]
pub struct SearchIndex {
    /// The indexed entries.
    pub entries: Vec<SearchEntry>,
}

impl Default for SearchIndex {
    fn default() -> (r: Self)
        ensures
            items(r.entries@) == Seq::<Item>::empty(),
    {
        SearchIndex::new()
    }
}

impl SearchIndex {
    /// An empty index.
    pub fn new() -> (r: Self)
        ensures
            items(r.entries@) == Seq::<Item>::empty(),
    {
        let r = SearchIndex { entries: Vec::new() };
        assert(items(r.entries@) =~= Seq::empty());
        r
    }

    /// Add an entry.
    pub fn add(&mut self, entry: SearchEntry)
        ensures
            items(final(self).entries@) == items(old(self).entries@).push(entry@),
    {
        let ghost before = items(self.entries@);
        self.entries.push(entry);
        assert(items(self.entries@) =~= before.push(entry@));
    }

    /// Index an installed app.
    pub fn add_app(&mut self, app: &AppEntry)
        ensures
            items(final(self).entries@) == items(old(self).entries@).push(
                (Item {
                    id: app.id@,
                    kind: EntryKind::App,
                    title: app.name@,
                    subtitle: app.executable@,
                    keywords: crate::lists::texts(app.keywords@),
                }),
            ),
    {
        self.add(
            SearchEntry {
                id: app.id.clone(),
                kind: EntryKind::App,
                title: app.name.clone(),
                subtitle: app.executable.clone(),
                keywords: copy_texts(&app.keywords),
            },
        );
    }

    /// Rank the indexed entries against `query`, best first, capped at `limit`.
    ///
    /// An entry's score is the best fuzzy score of the query over its title and keywords; ties
    /// break toward the shorter title. An empty query returns every entry in insertion order
    /// (score 0).
    pub fn search(&self, query: &str, limit: usize) -> (r: Vec<SearchResult>)
        requires
            all_countable(items(self.entries@), query@),
        ensures
            hits(r@) == results_of(items(self.entries@), query@, limit as nat),
            r@.len() <= limit,
    {
        let mut out: Vec<SearchResult> = Vec::new();
        let ghost entries = items(self.entries@);
        let mut i: usize = 0;
        assert(hits(out@) =~= Seq::empty());
        if is_empty(query) {
            while i < self.entries.len() && i < limit
                invariant
                    i <= self.entries@.len(),
                    i <= limit,
                    out@.len() == i,
                    forall|j: int|
                        0 <= j < i ==> #[trigger] out@[j]@ == hit_of(self.entries@[j]@, 0),
                decreases self.entries@.len() - i,
            {
                let e = &self.entries[i];
                out.push(
                    SearchResult { id: e.id.clone(), kind: e.kind, title: e.title.clone(), score: 0 },
                );
                assert(out@[i as int]@ == hit_of(e@, 0));
                i = i + 1;
            }
            assert(hits(out@) =~= results_of(entries, query@, limit as nat));
            return out;
        }
        assert(entries.take(0) =~= Seq::empty());
        while i < self.entries.len()
            invariant
                i <= self.entries@.len(),
                entries == items(self.entries@),
                all_countable(entries, query@),
                hits(out@) == ranked(found(entries.take(i as int), query@)),
            decreases self.entries@.len() - i,
        {
            let e = &self.entries[i];
            proof {
                assert(entries[i as int] == e@);
                assert(entries.take(i + 1).drop_last() == entries.take(i as int));
            }
            match entry_score(query, e) {
                Some(score) => {
                    let h = SearchResult {
                        id: e.id.clone(),
                        kind: e.kind,
                        title: e.title.clone(),
                        score,
                    };
                    proof {
                        let before = found(entries.take(i as int), query@);
                        assert(before.push(h@).drop_last() == before);
                        assert(h@ == hit_of(e@, score as int));
                    }
                    insert_ranked(&mut out, h);
                },
                None => {},
            }
            i = i + 1;
        }
        assert(entries.take(i as int) == entries);
        if out.len() > limit {
            let ghost all = out@;
            out.truncate(limit);
            assert(hits(out@) =~= hits(all).take(limit as int));
        }
        out
    }

    /// The search results reshaped as `(title, id)` candidates for the AI command palette.
    pub fn palette_candidates(&self, query: &str, limit: usize) -> (r: Vec<(String, String)>)
        requires
            all_countable(items(self.entries@), query@),
        ensures
            r@.map_values(|c: (String, String)| (c.0@, c.1@)) == results_of(
                items(self.entries@),
                query@,
                limit as nat,
            ).map_values(|h: Hit| (h.title, h.id)),
    {
        let found = self.search(query, limit);
        let mut out: Vec<(String, String)> = Vec::new();
        let mut i: usize = 0;
        while i < found.len()
            invariant
                i <= found@.len(),
                out@.len() == i,
                forall|j: int|
                    0 <= j < i ==> (#[trigger] out@[j]).0@ == found@[j].title@ && out@[j].1@
                        == found@[j].id@,
            decreases found@.len() - i,
        {
            out.push((found[i].title.clone(), found[i].id.clone()));
            i = i + 1;
        }
        proof {
            let h = hits(found@);
            assert(out@.map_values(|c: (String, String)| (c.0@, c.1@)) =~= h.map_values(
                |h: Hit| (h.title, h.id),
            ));
        }
        out
    }
}

// ---------------------------------------------------------------------------
// Launcher view
// ---------------------------------------------------------------------------

/// A request to launch an application, produced by the launcher UI.
#[derive(Debug, Clone, PartialEq, Eq)]
pub struct LaunchRequest {
    /// The application id to launch.
    pub app_id: String,
}

/// The interactive launcher view: a query box, the ranked results for that query, and a selection
/// cursor over them.
#[derive(Debug, Clone, PartialEq, Eq)]
pub struct LauncherView {
    query: String,
    results: Vec<SearchResult>,
    selected: usize,
    limit: usize,
}

/// What a launcher shows.
#[verifier::ext_equal]
pub struct Launcher {
    /// The query.
    pub query: Seq<char>,
    /// The ranked results.
    pub results: Seq<Hit>,
    /// The position of the cursor.
    pub selected: nat,
    /// How many results are shown.
    pub limit: nat,
}

impl View for LauncherView {
    type V = Launcher;

    closed spec fn view(&self) -> Launcher {
        Launcher {
            query: self.query@,
            results: hits(self.results@),
            selected: self.selected as nat,
            limit: self.limit as nat,
        }
    }
}

impl Launcher {
    /// Whether the cursor stands on a result, or at the top where there is none, and no more
    /// results are shown than the limit allows.
    pub open spec fn valid(self) -> bool {
        self.results.len() <= self.limit && (self.selected < self.results.len() || self.selected
            == 0)
    }

    /// The launcher with another query over an index: its results, with the cursor on the top one.
    pub open spec fn asked(self, entries: Seq<Item>, query: Seq<char>) -> Launcher {
        Launcher {
            query,
            results: results_of(entries, query, self.limit),
            selected: 0,
            limit: self.limit,
        }
    }
}

impl LauncherView {
    /// A new, empty launcher that shows at most `limit` results.
    pub fn new(limit: usize) -> (r: Self)
        ensures
            r@ == (Launcher {
                query: Seq::empty(),
                results: Seq::empty(),
                selected: 0,
                limit: limit as nat,
            }),
            r@.valid(),
    {
        let r = LauncherView { query: String::new(), results: Vec::new(), selected: 0, limit };
        assert(hits(r.results@) =~= Seq::empty());
        assert(r.query@ =~= Seq::empty());
        r
    }

    /// The current query text.
    pub fn query(&self) -> (r: &str)
        ensures
            r@ == self@.query,
    {
        self.query.as_str()
    }

    /// The ranked results for the current query.
    pub fn results(&self) -> (r: &[SearchResult])
        ensures
            hits(r@) == self@.results,
    {
        self.results.as_slice()
    }

    /// The index of the currently selected result.
    pub fn selected_index(&self) -> (r: usize)
        ensures
            r == self@.selected,
    {
        self.selected
    }

    /// The currently selected result, if any.
    pub fn selected(&self) -> (r: Option<&SearchResult>)
        ensures
            match r {
                Some(h) => self@.selected < self@.results.len() && h@
                    == self@.results[self@.selected as int],
                None => self@.selected >= self@.results.len(),
            },
    {
        if self.selected < self.results.len() {
            Some(&self.results[self.selected])
        } else {
            None
        }
    }

    fn refresh(&mut self, index: &SearchIndex)
        requires
            all_countable(items(index.entries@), old(self)@.query),
        ensures
            final(self)@ == old(self)@.asked(items(index.entries@), old(self)@.query),
            final(self)@.valid(),
    {
        self.results = index.search(self.query.as_str(), self.limit);
        self.selected = 0;
        assert(self@ == old(self)@.asked(items(index.entries@), old(self)@.query));
    }

    /// Replace the query and re-run the search, selecting the top hit.
    pub fn set_query(&mut self, index: &SearchIndex, query: &str)
        requires
            all_countable(items(index.entries@), query@),
        ensures
            final(self)@ == old(self)@.asked(items(index.entries@), query@),
            final(self)@.valid(),
    {
        self.query = query.to_owned();
        self.refresh(index);
    }

    /// Append a typed character to the query and re-run the search.
    pub fn push_char(&mut self, index: &SearchIndex, ch: char)
        requires
            all_countable(items(index.entries@), old(self)@.query.push(ch)),
        ensures
            final(self)@ == old(self)@.asked(items(index.entries@), old(self)@.query.push(ch)),
            final(self)@.valid(),
    {
        self.query.push(ch);
        self.refresh(index);
    }

    /// Delete the last character of the query and re-run the search. Returns whether a character
    /// was removed.
    pub fn backspace(&mut self, index: &SearchIndex) -> (r: bool)
        requires
            old(self)@.query.len() > 0 ==> all_countable(
                items(index.entries@),
                old(self)@.query.drop_last(),
            ),
        ensures
            r == (old(self)@.query.len() > 0),
            r ==> final(self)@.valid() && final(self)@ == old(self)@.asked(
                items(index.entries@),
                old(self)@.query.drop_last(),
            ),
            !r ==> final(self)@ == old(self)@,
    {
        let v = to_chars(self.query.as_str());
        if v.len() == 0 {
            return false;
        }
        self.query = from_range(v.as_slice(), 0, v.len() - 1);
        assert(self.query@ =~= old(self).query@.drop_last());
        self.refresh(index);
        true
    }

    /// Move the selection cursor down one result (clamped to the last result).
    pub fn move_down(&mut self)
        ensures
            final(self)@ == (Launcher {
                selected: if old(self)@.selected + 1 < old(self)@.results.len() {
                    old(self)@.selected + 1
                } else {
                    old(self)@.selected
                },
                ..old(self)@
            }),
            old(self)@.valid() ==> final(self)@.valid(),
    {
        let last: usize = self.results.len().saturating_sub(1);
        if self.selected < last {
            self.selected = self.selected + 1;
        }
    }

    /// Move the selection cursor up one result (clamped to the first result).
    pub fn move_up(&mut self)
        ensures
            final(self)@ == (Launcher {
                selected: if old(self)@.selected > 0 {
                    (old(self)@.selected - 1) as nat
                } else {
                    0
                },
                ..old(self)@
            }),
            old(self)@.valid() ==> final(self)@.valid(),
    {
        self.selected = self.selected.saturating_sub(1);
    }

    /// The launch request for the selected result, or `None` if nothing is selected or the
    /// selection is not a launchable app.
    pub fn launch(&self) -> (r: Option<LaunchRequest>)
        ensures
            match r {
                Some(q) => self@.selected < self@.results.len()
                    && self@.results[self@.selected as int].kind == EntryKind::App && q.app_id@
                    == self@.results[self@.selected as int].id,
                None => self@.selected >= self@.results.len()
                    || self@.results[self@.selected as int].kind != EntryKind::App,
            },
    {
        match self.selected() {
            Some(h) => if h.kind == EntryKind::App {
                Some(LaunchRequest { app_id: h.id.clone() })
            } else {
                None
            },
            None => None,
        }
    }
}

/// Typing a character and deleting it again shows what was shown for the query before, with the
/// cursor on the top hit.
pub proof fn law_backspace_undoes_typing(l: Launcher, entries: Seq<Item>, ch: char)
    ensures
        l.asked(entries, l.query.push(ch)).asked(entries, l.query.push(ch).drop_last()) == l.asked(
            entries,
            l.query,
        ),
{
    assert(l.query.push(ch).drop_last() == l.query);
}

// ---------------------------------------------------------------------------
// How a manifest is written
// ---------------------------------------------------------------------------

/// Whether a text stands on one line and has no white space at its ends.
pub open spec fn is_plain(s: Seq<char>) -> bool {
    !s.contains('\n') && (s.len() > 0 ==> !crate::strings::is_white_space(s[0])
        && !crate::strings::is_white_space(s.last()))
}

/// Whether a text can be a keyword of a manifest.
pub open spec fn is_keyword(s: Seq<char>) -> bool {
    is_plain(s) && s.len() > 0 && !s.contains(';')
}

/// A line with a key and a value.
pub open spec fn key_line(key: Seq<char>, value: Seq<char>) -> Seq<char> {
    key + (seq!['='] + value)
}

/// A manifest as it is written, one line for each key.
pub open spec fn manifest_text(
    id: Seq<char>,
    name: Seq<char>,
    executable: Seq<char>,
    icon: Seq<char>,
    keywords: Seq<Seq<char>>,
) -> Seq<char> {
    let nl = seq!['\n'];
    let last = key_line("Keywords"@, crate::strings::joined_by(keywords, ';')) + nl;
    let l3 = key_line("Icon"@, icon) + nl + last;
    let l2 = key_line("Exec"@, executable) + nl + l3;
    let l1 = key_line("Name"@, name) + nl + l2;
    key_line("Id"@, id) + nl + l1
}

proof fn lemma_trimmed_plain(pieces: Seq<Seq<char>>)
    requires
        forall|i: int| 0 <= i < pieces.len() ==> is_keyword(#[trigger] pieces[i]),
    ensures
        trimmed(pieces) == pieces,
    decreases pieces.len(),
{
    if pieces.len() > 0 {
        let rest = pieces.drop_first();
        assert(is_keyword(pieces[0]));
        crate::strings::lemma_trim_fixed(pieces[0]);
        assert forall|i: int| 0 <= i < rest.len() implies is_keyword(#[trigger] rest[i]) by {
            assert(rest[i] == pieces[i + 1]);
        }
        lemma_trimmed_plain(rest);
        assert(pieces =~= seq![pieces[0]] + rest);
    } else {
        assert(trimmed(pieces) =~= pieces);
    }
}

proof fn lemma_joined_ends(pieces: Seq<Seq<char>>)
    requires
        pieces.len() > 0,
        forall|i: int| 0 <= i < pieces.len() ==> is_keyword(#[trigger] pieces[i]),
    ensures
        ({
            let all = crate::strings::joined_by(pieces, ';');
            &&& all.len() > 0
            &&& all[0] == pieces[0][0]
            &&& all.last() == pieces.last().last()
        }),
    decreases pieces.len(),
{
    assert(is_keyword(pieces[0]));
    if pieces.len() > 1 {
        let rest = pieces.drop_first();
        assert forall|i: int| 0 <= i < rest.len() implies is_keyword(#[trigger] rest[i]) by {
            assert(rest[i] == pieces[i + 1]);
        }
        lemma_joined_ends(rest);
        let tail = crate::strings::joined_by(rest, ';');
        let all = crate::strings::joined_by(pieces, ';');
        assert(all.last() == tail.last());
        assert(rest.last() == pieces.last());
    }
}

/// What a key and a plain value are read as.
proof fn lemma_read_key(key: Seq<char>, value: Seq<char>)
    requires
        is_plain(value),
        key.len() > 0,
        key[0] != '#',
        !key.contains('='),
        !key.contains('\n'),
        !crate::strings::is_white_space(key[0]),
        !crate::strings::is_white_space(key.last()),
    ensures
        ({
            let line = key_line(key, value);
            let l = crate::strings::trim(line);
            &&& l == line
            &&& l.len() > 0 && l[0] != '#'
            &&& crate::strings::find_char(l, '=') == key.len()
            &&& crate::strings::trim(l.take(key.len() as int)) == key
            &&& l.skip(key.len() as int + 1) == value
            &&& crate::strings::trim(value) == value
            &&& forall|i: int| 0 <= i < line.len() ==> line[i] != '\n'
        }),
{
    let line = key_line(key, value);
    let n = key.len() as int;
    assert(line[0] == key[0]);
    assert(line.last() == (if value.len() > 0 {
        value.last()
    } else {
        '='
    }));
    crate::strings::lemma_trim_fixed(line);
    assert forall|j: int| 0 <= j < n implies line[j] != '=' by {
        assert(line[j] == key[j]);
        if key[j] == '=' {
            assert(key.contains('='));
        }
    }
    assert(line[n] == '=');
    crate::strings::lemma_find_char_at(line, '=', n);
    assert(line.take(n) =~= key);
    crate::strings::lemma_trim_fixed(key);
    assert(line.skip(n + 1) =~= value);
    crate::strings::lemma_trim_fixed(value);
    assert forall|i: int| 0 <= i < line.len() implies line[i] != '\n' by {
        if i < n {
            assert(line[i] == key[i]);
            if key[i] == '\n' {
                assert(key.contains('\n'));
            }
        } else if i > n {
            assert(line[i] == value[i - n - 1]);
            if value[i - n - 1] == '\n' {
                assert(value.contains('\n'));
            }
        }
    }
}

proof fn lemma_keys()
    ensures
        "Id"@ == seq!['I', 'd'],
        "Name"@ == seq!['N', 'a', 'm', 'e'],
        "Exec"@ == seq!['E', 'x', 'e', 'c'],
        "Icon"@ == seq!['I', 'c', 'o', 'n'],
        "Keywords"@ == seq!['K', 'e', 'y', 'w', 'o', 'r', 'd', 's'],
{
    reveal_strlit("Id");
    reveal_strlit("Name");
    reveal_strlit("Exec");
    reveal_strlit("Icon");
    reveal_strlit("Keywords");
    assert("Id"@ =~= seq!['I', 'd']);
    assert("Name"@ =~= seq!['N', 'a', 'm', 'e']);
    assert("Exec"@ =~= seq!['E', 'x', 'e', 'c']);
    assert("Icon"@ =~= seq!['I', 'c', 'o', 'n']);
    assert("Keywords"@ =~= seq!['K', 'e', 'y', 'w', 'o', 'r', 'd', 's']);
}

/// A manifest is read as it is written: every key has the value behind its equals sign, and the
/// keywords are those between the semicolons.
pub proof fn law_manifest_is_read_as_written(
    id: Seq<char>,
    name: Seq<char>,
    executable: Seq<char>,
    icon: Seq<char>,
    keywords: Seq<Seq<char>>,
)
    requires
        is_plain(id),
        is_plain(name),
        is_plain(executable),
        is_plain(icon),
        forall|i: int| 0 <= i < keywords.len() ==> is_keyword(#[trigger] keywords[i]),
    ensures
        manifest_of(manifest_text(id, name, executable, icon, keywords)) == Some(
            Manifest { id: Some(id), name: Some(name), executable: Some(executable), icon, keywords },
        ),
{
    let nl = seq!['\n'];
    let none = Seq::<char>::empty();
    let words = crate::strings::joined_by(keywords, ';');
    assert(is_plain(words)) by {
        assert forall|i: int| 0 <= i < keywords.len() implies !(#[trigger] keywords[i]).contains(
            '\n',
        ) by {
            assert(is_keyword(keywords[i]));
        }
        crate::strings::lemma_joined_no(keywords, ';', '\n');
        if keywords.len() > 0 {
            lemma_joined_ends(keywords);
            assert(is_keyword(keywords[0]));
            assert(is_keyword(keywords[keywords.len() - 1]));
        }
    }
    assert(trimmed(crate::strings::split(words, ';')) == keywords) by {
        if keywords.len() > 0 {
            assert forall|i: int|
                0 <= i < keywords.len() implies !(#[trigger] keywords[i]).contains(';') by {
                assert(is_keyword(keywords[i]));
            }
            crate::strings::lemma_split_joined(keywords, ';');
            lemma_trimmed_plain(keywords);
        } else {
            assert(crate::strings::split(words, ';') =~= seq![none]);
            crate::strings::lemma_trim_fixed(none);
            reveal_with_fuel(trimmed, 2);
            assert(trimmed(seq![none]) =~= keywords) by {
                assert(seq![none].drop_first() =~= Seq::empty());
            }
        }
    }
    lemma_keys();
    lemma_read_key("Id"@, id);
    lemma_read_key("Name"@, name);
    lemma_read_key("Exec"@, executable);
    lemma_read_key("Icon"@, icon);
    lemma_read_key("Keywords"@, words);
    let k0 = key_line("Id"@, id);
    let k1 = key_line("Name"@, name);
    let k2 = key_line("Exec"@, executable);
    let k3 = key_line("Icon"@, icon);
    let k4 = key_line("Keywords"@, words);
    let r4 = k4 + nl;
    let r3 = k3 + nl + r4;
    let r2 = k2 + nl + r3;
    let r1 = k1 + nl + r2;
    let all = k0 + nl + r1;
    crate::strings::lemma_first_line(k0, r1);
    crate::strings::lemma_first_line(k1, r2);
    crate::strings::lemma_first_line(k2, r3);
    crate::strings::lemma_first_line(k3, r4);
    crate::strings::lemma_first_line(k4, none);
    assert(k4 + nl + none =~= r4);
    let end = Seq::<Seq<char>>::empty();
    assert(crate::strings::lines(none) =~= end);
    let m0 = blank_manifest();
    let m1 = Manifest { id: Some(id), ..m0 };
    let m2 = Manifest { name: Some(name), ..m1 };
    let m3 = Manifest { executable: Some(executable), ..m2 };
    let m4 = Manifest { icon, ..m3 };
    let m5 = Manifest { keywords, ..m4 };
    assert("Id"@.len() == 2 && "Name"@.len() == 4 && "Exec"@.len() == 4 && "Icon"@.len() == 4
        && "Keywords"@.len() == 8);
    assert("Name"@[0] == 'N' && "Exec"@[0] == 'E' && "Icon"@[0] == 'I');
    lemma_read_on(m0, k0, crate::strings::lines(r1), m1);
    lemma_read_on(m1, k1, crate::strings::lines(r2), m2);
    lemma_read_on(m2, k2, crate::strings::lines(r3), m3);
    lemma_read_on(m3, k3, crate::strings::lines(r4), m4);
    lemma_read_on(m4, k4, end, m5);
    assert(crate::strings::lines(r4) =~= seq![k4] + end);
}

proof fn lemma_read_on(m: Manifest, line: Seq<char>, rest: Seq<Seq<char>>, next: Manifest)
    requires
        read_line(m, line) == Some(next),
    ensures
        read_manifest(m, seq![line] + rest) == read_manifest(next, rest),
{
    let all = seq![line] + rest;
    assert(all[0] == line);
    assert(all.drop_first() =~= rest);
}

} // verus!
