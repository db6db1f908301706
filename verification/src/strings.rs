//! Text primitives shared by every module that reads or builds strings.
//!
//! A string is modelled by its view, the sequence of its `char`s. The functions
//! here move between `&str` / `String` and vectors of `char`s, compare strings,
//! and print and read decimal numbers.

use vstd::prelude::*;

verus! {

/// `String::push` appends one character.
pub assume_specification[ String::push ](s: &mut String, c: char)
    ensures
        final(s)@ == old(s)@.push(c),
;

/// `String::push_str` appends a whole string slice.
pub assume_specification[ String::push_str ](s: &mut String, other: &str)
    ensures
        final(s)@ == old(s)@ + other@,
;

/// The outcome of a three-way comparison.
#[derive(Debug, Clone, Copy, PartialEq, Eq, Structural)]
pub enum Order {
    /// The left operand comes first.
    Before,
    /// The operands are equal.
    Same,
    /// The right operand comes first.
    After,
}

/// The UTF-8 bytes of a character sequence.
pub open spec fn utf8(s: Seq<char>) -> Seq<u8> {
    vstd::utf8::encode_utf8(s)
}

/// Two strings with the same bytes hold the same characters.
pub proof fn lemma_utf8_injective(a: Seq<char>, b: Seq<char>)
    requires
        utf8(a) == utf8(b),
    ensures
        a == b,
{
    vstd::utf8::encode_utf8_decode_utf8(a);
    vstd::utf8::encode_utf8_decode_utf8(b);
}

/// Every character takes between one and four bytes.
pub proof fn lemma_utf8_len(s: Seq<char>)
    ensures
        s.len() <= utf8(s).len() <= 4 * s.len(),
    decreases s.len(),
{
    if s.len() > 0 {
        lemma_utf8_len(s.drop_first());
        vstd::utf8::char_is_scalar(s[0]);
    }
}

/// The bytes of a concatenation are the concatenated bytes.
pub proof fn lemma_utf8_concat(a: Seq<char>, b: Seq<char>)
    ensures
        utf8(a + b) == utf8(a) + utf8(b),
    decreases a.len(),
{
    if a.len() == 0 {
        assert(a + b == b);
        assert(utf8(a) + utf8(b) == utf8(b));
    } else {
        lemma_utf8_concat(a.drop_first(), b);
        assert((a + b).drop_first() == a.drop_first() + b);
        let head = vstd::utf8::encode_scalar(a[0] as u32);
        assert(head + (utf8(a.drop_first()) + utf8(b)) == (head + utf8(a.drop_first())) + utf8(b));
    }
}

/// Lexicographic order of byte sequences.
pub open spec fn bytes_lt(a: Seq<u8>, b: Seq<u8>) -> bool
    decreases a.len(),
{
    if b.len() == 0 {
        false
    } else if a.len() == 0 {
        true
    } else if a[0] != b[0] {
        a[0] < b[0]
    } else {
        bytes_lt(a.drop_first(), b.drop_first())
    }
}

/// The order of strings: lexicographic by their UTF-8 bytes.
pub open spec fn str_lt(a: Seq<char>, b: Seq<char>) -> bool {
    bytes_lt(utf8(a), utf8(b))
}

proof fn lemma_bytes_lt_irreflexive(a: Seq<u8>)
    ensures
        !bytes_lt(a, a),
    decreases a.len(),
{
    if a.len() > 0 {
        lemma_bytes_lt_irreflexive(a.drop_first());
    }
}

proof fn lemma_bytes_lt_transitive(a: Seq<u8>, b: Seq<u8>, c: Seq<u8>)
    requires
        bytes_lt(a, b),
        bytes_lt(b, c),
    ensures
        bytes_lt(a, c),
    decreases a.len(),
{
    if a.len() > 0 && a[0] == b[0] && b[0] == c[0] {
        lemma_bytes_lt_transitive(a.drop_first(), b.drop_first(), c.drop_first());
    }
}

/// No string comes before itself.
pub proof fn lemma_str_lt_irreflexive(a: Seq<char>)
    ensures
        !str_lt(a, a),
{
    lemma_bytes_lt_irreflexive(utf8(a));
}

/// The string order is transitive.
pub proof fn lemma_str_lt_transitive(a: Seq<char>, b: Seq<char>, c: Seq<char>)
    requires
        str_lt(a, b),
        str_lt(b, c),
    ensures
        str_lt(a, c),
{
    lemma_bytes_lt_transitive(utf8(a), utf8(b), utf8(c));
}

proof fn lemma_bytes_lt_skip(a: Seq<u8>, b: Seq<u8>, i: int)
    requires
        0 <= i <= a.len(),
        i <= b.len(),
        forall|j: int| 0 <= j < i ==> a[j] == b[j],
    ensures
        bytes_lt(a, b) == bytes_lt(a.skip(i), b.skip(i)),
        bytes_lt(b, a) == bytes_lt(b.skip(i), a.skip(i)),
    decreases i,
{
    if i == 0 {
        assert(a.skip(0) == a);
        assert(b.skip(0) == b);
    } else {
        lemma_bytes_lt_skip(a.drop_first(), b.drop_first(), i - 1);
        assert(a.drop_first().skip(i - 1) == a.skip(i));
        assert(b.drop_first().skip(i - 1) == b.skip(i));
    }
}

/// Compares two strings by their bytes.
pub fn str_order(a: &str, b: &str) -> (o: Order)
    ensures
        match o {
            Order::Before => str_lt(a@, b@),
            Order::Same => a@ == b@,
            Order::After => str_lt(b@, a@),
        },
{
    let x: &[u8] = a.as_bytes();
    let y: &[u8] = b.as_bytes();
    let mut i: usize = 0;
    while i < x.len() && i < y.len()
        invariant
            i <= x@.len(),
            i <= y@.len(),
            x@ == utf8(a@),
            y@ == utf8(b@),
            forall|j: int| 0 <= j < i ==> x@[j] == y@[j],
        decreases x@.len() - i,
    {
        proof {
            lemma_bytes_lt_skip(x@, y@, i as int);
        }
        if x[i] < y[i] {
            return Order::Before;
        }
        if y[i] < x[i] {
            return Order::After;
        }
        i = i + 1;
    }
    proof {
        lemma_bytes_lt_skip(x@, y@, i as int);
    }
    if i < y.len() {
        Order::Before
    } else if i < x.len() {
        Order::After
    } else {
        proof {
            assert(x@ == y@);
            lemma_utf8_injective(a@, b@);
        }
        Order::Same
    }
}

/// Whether two strings hold the same characters.
pub fn str_eq(a: &str, b: &str) -> (r: bool)
    ensures
        r == (a@ == b@),
{
    match str_order(a, b) {
        Order::Same => true,
        Order::Before => {
            proof {
                lemma_str_lt_irreflexive(a@);
            }
            false
        },
        Order::After => {
            proof {
                lemma_str_lt_irreflexive(a@);
            }
            false
        },
    }
}

/// The characters of a string.
pub fn to_chars(s: &str) -> (r: Vec<char>)
    ensures
        r@ == s@,
{
    let mut out: Vec<char> = Vec::new();
    for c in it: s.chars()
        invariant
            it.seq() == s@,
            out@ == s@.take(it.index() as int),
    {
        out.push(c);
    }
    assert(s@.take(s@.len() as int) == s@);
    out
}

/// The string with the given characters.
pub fn from_chars(v: &[char]) -> (r: String)
    ensures
        r@ == v@,
{
    let mut out = String::new();
    let mut i: usize = 0;
    while i < v.len()
        invariant
            i <= v@.len(),
            out@ == v@.take(i as int),
        decreases v@.len() - i,
    {
        out.push(v[i]);
        i = i + 1;
        assert(v@.take(i as int) == v@.take(i - 1).push(v@[i - 1]));
    }
    assert(v@.take(v@.len() as int) == v@);
    out
}

/// The string with the characters `lo .. hi` of `v`.
pub fn from_range(v: &[char], lo: usize, hi: usize) -> (r: String)
    requires
        lo <= hi <= v@.len(),
    ensures
        r@ == v@.subrange(lo as int, hi as int),
{
    let mut out = String::new();
    let mut i: usize = lo;
    while i < hi
        invariant
            lo <= i <= hi <= v@.len(),
            out@ == v@.subrange(lo as int, i as int),
        decreases hi - i,
    {
        out.push(v[i]);
        i = i + 1;
        assert(v@.subrange(lo as int, i as int) == v@.subrange(lo as int, i - 1).push(v@[i - 1]));
    }
    out
}

/// Whether every character of `prefix` opens `s`.
pub open spec fn has_prefix(s: Seq<char>, prefix: Seq<char>) -> bool {
    prefix.len() <= s.len() && s.take(prefix.len() as int) == prefix
}

/// Whether the characters `lo .. hi` of `v` open with `prefix`.
pub fn starts_with(v: &[char], lo: usize, hi: usize, prefix: &str) -> (r: bool)
    requires
        lo <= hi <= v@.len(),
    ensures
        r == has_prefix(v@.subrange(lo as int, hi as int), prefix@),
{
    let p = to_chars(prefix);
    let ghost s = v@.subrange(lo as int, hi as int);
    if hi - lo < p.len() {
        return false;
    }
    let mut i: usize = 0;
    while i < p.len()
        invariant
            i <= p@.len() <= hi - lo,
            lo <= hi <= v@.len(),
            p@ == prefix@,
            s == v@.subrange(lo as int, hi as int),
            forall|j: int| 0 <= j < i ==> s[j] == p@[j],
        decreases p@.len() - i,
    {
        assert(s[i as int] == v@[lo + i]);
        if v[lo + i] != p[i] {
            assert(s.take(p@.len() as int)[i as int] != p@[i as int]);
            return false;
        }
        i = i + 1;
    }
    assert(s.take(p@.len() as int) =~= p@);
    true
}

/// The characters with the `White_Space` property.
pub open spec fn is_white_space(c: char) -> bool {
    let u = c as u32;
    ||| 0x9 <= u <= 0xd
    ||| u == 0x20
    ||| u == 0x85
    ||| u == 0xa0
    ||| u == 0x1680
    ||| 0x2000 <= u <= 0x200a
    ||| u == 0x2028
    ||| u == 0x2029
    ||| u == 0x202f
    ||| u == 0x205f
    ||| u == 0x3000
}

/// Whether a character has the `White_Space` property.
pub fn is_whitespace(c: char) -> (r: bool)
    ensures
        r == is_white_space(c),
{
    let u: u32 = c as u32;
    (0x9 <= u && u <= 0xd) || u == 0x20 || u == 0x85 || u == 0xa0 || u == 0x1680 || (0x2000 <= u
        && u <= 0x200a) || u == 0x2028 || u == 0x2029 || u == 0x202f || u == 0x205f || u == 0x3000
}

/// `s` without its leading white space.
pub open spec fn trim_start(s: Seq<char>) -> Seq<char>
    decreases s.len(),
{
    if s.len() > 0 && is_white_space(s[0]) {
        trim_start(s.drop_first())
    } else {
        s
    }
}

/// `s` without its trailing white space.
pub open spec fn trim_end(s: Seq<char>) -> Seq<char>
    decreases s.len(),
{
    if s.len() > 0 && is_white_space(s.last()) {
        trim_end(s.drop_last())
    } else {
        s
    }
}

/// `s` without its leading and trailing white space.
pub open spec fn trim(s: Seq<char>) -> Seq<char> {
    trim_end(trim_start(s))
}

/// The first position from `lo` on that holds no white space, or `hi`.
pub fn skip_whitespace(v: &[char], lo: usize, hi: usize) -> (a: usize)
    requires
        lo <= hi <= v@.len(),
    ensures
        lo <= a <= hi,
        v@.subrange(a as int, hi as int) == trim_start(v@.subrange(lo as int, hi as int)),
{
    let mut a: usize = lo;
    while a < hi && is_whitespace(v[a])
        invariant
            lo <= a <= hi <= v@.len(),
            trim_start(v@.subrange(a as int, hi as int)) == trim_start(
                v@.subrange(lo as int, hi as int),
            ),
        decreases hi - a,
    {
        assert(v@.subrange(a as int, hi as int).drop_first() == v@.subrange(a + 1, hi as int));
        a = a + 1;
    }
    a
}

/// The range left of `lo .. hi` when white space is dropped at both ends.
pub fn trim_range(v: &[char], lo: usize, hi: usize) -> (r: (usize, usize))
    requires
        lo <= hi <= v@.len(),
    ensures
        lo <= r.0 <= r.1 <= hi,
        v@.subrange(r.0 as int, r.1 as int) == trim(v@.subrange(lo as int, hi as int)),
{
    let a = skip_whitespace(v, lo, hi);
    let mut b: usize = hi;
    while a < b && is_whitespace(v[b - 1])
        invariant
            lo <= a <= b <= hi <= v@.len(),
            trim_end(v@.subrange(a as int, b as int)) == trim(v@.subrange(lo as int, hi as int)),
        decreases b - a,
    {
        assert(v@.subrange(a as int, b as int).drop_last() == v@.subrange(a as int, b - 1));
        b = b - 1;
    }
    (a, b)
}

/// A text that neither opens nor closes with white space is its own trimming.
pub proof fn lemma_trim_fixed(s: Seq<char>)
    requires
        s.len() > 0 ==> !is_white_space(s[0]) && !is_white_space(s.last()),
    ensures
        trim(s) == s,
{
}

/// Whether `s` is made of white space alone.
pub open spec fn is_blank(s: Seq<char>) -> bool {
    forall|i: int| 0 <= i < s.len() ==> is_white_space(#[trigger] s[i])
}

/// White space in front of a text is trimmed off.
pub proof fn lemma_trim_start_blank(blank: Seq<char>, s: Seq<char>)
    requires
        is_blank(blank),
        s.len() > 0 ==> !is_white_space(s[0]),
    ensures
        trim_start(blank + s) == s,
    decreases blank.len(),
{
    if blank.len() == 0 {
        assert(blank + s == s);
    } else {
        assert(is_white_space(blank[0]));
        assert((blank + s)[0] == blank[0]);
        assert((blank + s).drop_first() == blank.drop_first() + s);
        lemma_trim_start_blank(blank.drop_first(), s);
    }
}

proof fn lemma_trim_end_blank(s: Seq<char>, blank: Seq<char>)
    requires
        is_blank(blank),
        s.len() > 0 ==> !is_white_space(s.last()),
    ensures
        trim_end(s + blank) == s,
    decreases blank.len(),
{
    if blank.len() == 0 {
        assert(s + blank == s);
    } else {
        assert(is_white_space(blank.last()));
        assert((s + blank).last() == blank.last());
        assert((s + blank).drop_last() == s + blank.drop_last());
        lemma_trim_end_blank(s, blank.drop_last());
    }
}

/// White space around a text is trimmed off.
pub proof fn lemma_trim_blank(before: Seq<char>, s: Seq<char>, after: Seq<char>)
    requires
        is_blank(before),
        is_blank(after),
        s.len() > 0,
        !is_white_space(s[0]),
        !is_white_space(s.last()),
    ensures
        trim(before + s + after) == s,
{
    assert(before + s + after == before + (s + after));
    assert((s + after)[0] == s[0]);
    lemma_trim_start_blank(before, s + after);
    lemma_trim_end_blank(s, after);
}

/// The position of the first `c` in `s`, or the length of `s`.
pub open spec fn find_char(s: Seq<char>, c: char) -> int
    decreases s.len(),
{
    if s.len() == 0 || s[0] == c {
        0
    } else {
        1 + find_char(s.drop_first(), c)
    }
}

/// What `find_char` finds: the first `c`, with no `c` before it.
pub proof fn lemma_find_char(s: Seq<char>, c: char)
    ensures
        0 <= find_char(s, c) <= s.len(),
        find_char(s, c) < s.len() ==> s[find_char(s, c)] == c,
        forall|j: int| 0 <= j < find_char(s, c) ==> s[j] != c,
    decreases s.len(),
{
    if s.len() > 0 && s[0] != c {
        let t = s.drop_first();
        lemma_find_char(t, c);
        assert forall|j: int| 0 <= j < find_char(s, c) implies s[j] != c by {
            if j > 0 {
                assert(t[j - 1] == s[j]);
            }
        }
    }
}

/// A position with no `c` before it that holds `c`, or ends the text, is what is found.
pub proof fn lemma_find_char_at(s: Seq<char>, c: char, i: int)
    requires
        0 <= i <= s.len(),
        forall|j: int| 0 <= j < i ==> s[j] != c,
        i < s.len() ==> s[i] == c,
    ensures
        find_char(s, c) == i,
{
    lemma_find_char(s, c);
}

/// The first position in `lo .. hi` that holds `c`, or `hi`.
pub fn find_from(v: &[char], lo: usize, hi: usize, c: char) -> (i: usize)
    requires
        lo <= hi <= v@.len(),
    ensures
        lo <= i <= hi,
        i - lo == find_char(v@.subrange(lo as int, hi as int), c),
        i < hi ==> v@[i as int] == c,
{
    let mut i: usize = lo;
    let ghost s = v@.subrange(lo as int, hi as int);
    while i < hi && v[i] != c
        invariant
            lo <= i <= hi <= v@.len(),
            s == v@.subrange(lo as int, hi as int),
            forall|j: int| 0 <= j < i - lo ==> s[j] != c,
        decreases hi - i,
    {
        i = i + 1;
    }
    proof {
        lemma_find_char_at(s, c, i - lo);
    }
    i
}

/// The lines of a text: what stands between line feeds, with no empty line after a last one.
pub open spec fn lines(s: Seq<char>) -> Seq<Seq<char>>
    decreases s.len(),
    via lines_decreases
{
    let i = find_char(s, '\n');
    if s.len() == 0 {
        Seq::empty()
    } else if i >= s.len() {
        seq![s]
    } else {
        seq![s.take(i)] + lines(s.skip(i + 1))
    }
}

#[via_fn]
proof fn lines_decreases(s: Seq<char>) {
    lemma_find_char(s, '\n');
}

/// A first line that a line feed ends is the first of the lines.
pub proof fn lemma_first_line(line: Seq<char>, rest: Seq<char>)
    requires
        forall|i: int| 0 <= i < line.len() ==> line[i] != '\n',
    ensures
        lines(line + seq!['\n'] + rest) == seq![line] + lines(rest),
{
    let s = line + seq!['\n'] + rest;
    assert forall|j: int| 0 <= j < line.len() implies s[j] != '\n' by {
        assert(s[j] == line[j]);
    }
    lemma_find_char_at(s, '\n', line.len() as int);
    assert(s.take(line.len() as int) == line);
    assert(s.skip(line.len() as int + 1) == rest);
}

/// `s` cut at every `c`.
pub open spec fn split(s: Seq<char>, c: char) -> Seq<Seq<char>>
    decreases s.len(),
    via split_decreases
{
    let i = find_char(s, c);
    if i >= s.len() {
        seq![s]
    } else {
        seq![s.take(i)] + split(s.skip(i + 1), c)
    }
}

#[via_fn]
proof fn split_decreases(s: Seq<char>, c: char) {
    lemma_find_char(s, c);
}

/// The digit character of a number below ten.
pub open spec fn digit_char(d: nat) -> char {
    (('0' as u32) + d) as char
}

/// Whether `c` is an ASCII decimal digit.
pub open spec fn is_digit(c: char) -> bool {
    '0' <= c <= '9'
}

/// The value of a digit character.
pub open spec fn digit_value(c: char) -> nat {
    (c as u32 - '0' as u32) as nat
}

/// The decimal digits of `n`, without leading zeros.
pub open spec fn decimal(n: nat) -> Seq<char>
    decreases n,
{
    if n < 10 {
        seq![digit_char(n)]
    } else {
        decimal(n / 10).push(digit_char(n % 10))
    }
}

/// The decimal digits of `n`, with a minus sign if it is negative.
pub open spec fn signed_decimal(n: int) -> Seq<char> {
    if n < 0 {
        seq!['-'] + decimal((-n) as nat)
    } else {
        decimal(n as nat)
    }
}

/// The number that a sequence of digits denotes.
pub open spec fn decimal_value(s: Seq<char>) -> nat
    decreases s.len(),
{
    if s.len() == 0 {
        0
    } else {
        decimal_value(s.drop_last()) * 10 + digit_value(s.last())
    }
}

/// Whether `s` is made of digits alone.
pub open spec fn all_digits(s: Seq<char>) -> bool {
    forall|i: int| 0 <= i < s.len() ==> is_digit(#[trigger] s[i])
}

/// Reading the digits of a number gives the number back.
pub proof fn lemma_decimal_round_trip(n: nat)
    ensures
        decimal_value(decimal(n)) == n,
        all_digits(decimal(n)),
        decimal(n).len() > 0,
    decreases n,
{
    reveal_with_fuel(decimal_value, 2);
    if n < 10 {
        assert(decimal(n).drop_last() == Seq::<char>::empty());
    } else {
        lemma_decimal_round_trip(n / 10);
        assert(decimal(n).drop_last() == decimal(n / 10));
    }
}

/// A number below `10^k` has at most `k` digits.
pub proof fn lemma_decimal_len(n: nat, k: nat)
    requires
        k >= 1,
        n < vstd::arithmetic::power::pow(10, k),
    ensures
        1 <= decimal(n).len() <= k,
    decreases k,
{
    if n >= 10 {
        if k == 1 {
            vstd::arithmetic::power::lemma_pow1(10);
        } else {
            reveal(vstd::arithmetic::power::pow);
            let below = vstd::arithmetic::power::pow(10, (k - 1) as nat);
            assert(vstd::arithmetic::power::pow(10, k) == 10 * below);
            assert(n / 10 < below);
            lemma_decimal_len(n / 10, (k - 1) as nat);
        }
    }
}

/// More digits never make a number smaller.
proof fn lemma_decimal_value_grows(s: Seq<char>, i: int)
    requires
        0 <= i <= s.len(),
    ensures
        decimal_value(s.take(i)) <= decimal_value(s),
    decreases s.len(),
{
    if i < s.len() {
        let t = s.drop_last();
        assert(s.take(i) == t.take(i));
        lemma_decimal_value_grows(t, i);
    } else {
        assert(s.take(i) == s);
    }
}

/// The digit character of a number below ten.
pub fn digit(d: u64) -> (c: char)
    requires
        d < 10,
    ensures
        c == digit_char(d as nat),
{
    (48u8 + d as u8) as char
}

/// Appends the decimal digits of `n`.
pub fn push_decimal(out: &mut String, n: u64)
    ensures
        final(out)@ == old(out)@ + decimal(n as nat),
    decreases n,
{
    if n >= 10 {
        push_decimal(out, n / 10);
    }
    out.push(digit(n % 10));
    proof {
        let d = digit_char((n % 10) as nat);
        if n >= 10 {
            assert(old(out)@ + decimal(n as nat / 10).push(d) == (old(out)@ + decimal(
                n as nat / 10,
            )).push(d));
        } else {
            assert(old(out)@ + seq![d] == old(out)@.push(d));
        }
    }
}

/// `s` with zeros in front, up to `width` characters.
pub open spec fn zero_padded(s: Seq<char>, width: nat) -> Seq<char> {
    if s.len() >= width {
        s
    } else {
        Seq::new((width - s.len()) as nat, |i: int| '0') + s
    }
}

/// Appends the decimal digits of `n`, padded with zeros to at least `width` digits.
pub fn push_padded(out: &mut String, n: u64, width: usize)
    ensures
        final(out)@ == old(out)@ + zero_padded(decimal(n as nat), width as nat),
{
    let mut digits = String::new();
    push_decimal(&mut digits, n);
    assert(Seq::<char>::empty() + decimal(n as nat) == decimal(n as nat));
    let v = to_chars(digits.as_str());
    let ghost start = out@;
    let mut i: usize = v.len();
    let ghost zeros = Seq::<char>::empty();
    while i < width
        invariant
            v@ == decimal(n as nat),
            v@.len() <= i,
            i <= width || i == v@.len(),
            zeros == Seq::new((i - v@.len()) as nat, |k: int| '0'),
            out@ == start + zeros,
        decreases width - i,
    {
        out.push('0');
        i = i + 1;
        proof {
            zeros = zeros.push('0');
            assert(zeros == Seq::new((i - v@.len()) as nat, |k: int| '0'));
            assert(out@ == start + zeros);
        }
    }
    out.push_str(digits.as_str());
    proof {
        assert((start + zeros) + decimal(n as nat) == start + (zeros + decimal(n as nat)));
        if v@.len() >= width {
            assert(zeros + decimal(n as nat) == decimal(n as nat));
        }
    }
}

/// What a number text denotes: digits, after an optional plus sign.
pub open spec fn read_decimal(s: Seq<char>) -> Option<nat> {
    let d = if s.len() > 0 && s[0] == '+' {
        s.drop_first()
    } else {
        s
    };
    if d.len() > 0 && all_digits(d) {
        Some(decimal_value(d))
    } else {
        None
    }
}

/// Reads the digits `lo .. hi` as a number no larger than `max`.
pub fn parse_digits(v: &[char], lo: usize, hi: usize, max: u64) -> (r: Option<u64>)
    requires
        lo <= hi <= v@.len(),
    ensures
        ({
            let s = v@.subrange(lo as int, hi as int);
            match r {
                Some(n) => s.len() > 0 && all_digits(s) && n == decimal_value(s) && n <= max,
                None => s.len() == 0 || !all_digits(s) || decimal_value(s) > max,
            }
        }),
{
    let ghost s = v@.subrange(lo as int, hi as int);
    if lo == hi {
        return None;
    }
    let mut j: usize = lo;
    while j < hi
        invariant
            lo <= j <= hi <= v@.len(),
            s == v@.subrange(lo as int, hi as int),
            forall|k: int| 0 <= k < j - lo ==> is_digit(#[trigger] s[k]),
        decreases hi - j,
    {
        let c = v[j];
        assert(s[j - lo] == c);
        if !('0' <= c && c <= '9') {
            return None;
        }
        j = j + 1;
    }
    let mut i: usize = lo;
    let mut n: u64 = 0;
    while i < hi
        invariant
            lo <= i <= hi <= v@.len(),
            s == v@.subrange(lo as int, hi as int),
            all_digits(s),
            n == decimal_value(s.take(i - lo)),
            n <= max,
        decreases hi - i,
    {
        let c = v[i];
        assert(s[i - lo] == c);
        assert(is_digit(s[i - lo]));
        let d: u64 = (c as u32 - 48) as u64;
        proof {
            assert(s.take(i + 1 - lo).drop_last() == s.take(i - lo));
            assert(decimal_value(s.take(i + 1 - lo)) == n * 10 + d);
            lemma_decimal_value_grows(s, i + 1 - lo);
        }
        let wide: u128 = n as u128 * 10 + d as u128;
        if wide > max as u128 {
            return None;
        }
        n = wide as u64;
        i = i + 1;
    }
    assert(s.take(hi - lo) == s);
    Some(n)
}

/// `std::str::from_utf8` accepts exactly the valid UTF-8 byte sequences, and reads the characters
/// that they encode.
#[verifier::external_body]
pub(crate) fn decode_text(bytes: &[u8]) -> (r: Option<&str>)
    ensures
        match r {
            Some(s) => vstd::utf8::valid_utf8(bytes@) && s@ == vstd::utf8::decode_utf8(bytes@),
            None => !vstd::utf8::valid_utf8(bytes@),
        },
{
    std::str::from_utf8(bytes).ok()
}

/// The text that bytes encode, if they are valid UTF-8.
pub open spec fn decoded(bytes: Seq<u8>) -> Option<Seq<char>> {
    if vstd::utf8::valid_utf8(bytes) {
        Some(vstd::utf8::decode_utf8(bytes))
    } else {
        None
    }
}

/// Text is read back from its bytes.
pub proof fn lemma_decoded(s: Seq<char>)
    ensures
        decoded(utf8(s)) == Some(s),
{
    vstd::utf8::encode_utf8_valid_utf8(s);
    vstd::utf8::encode_utf8_decode_utf8(s);
}

/// The lower-case mapping of a character, one or more characters.
pub uninterp spec fn lowercase(c: char) -> Seq<char>;

/// The upper-case mapping of a character, one or more characters.
pub uninterp spec fn uppercase(c: char) -> Seq<char>;

/// An ASCII letter in lower case, or `c` itself.
pub open spec fn ascii_lower(c: char) -> char {
    if 'A' <= c <= 'Z' {
        (c as u32 + 32) as char
    } else {
        c
    }
}

/// An ASCII letter in upper case, or `c` itself.
pub open spec fn ascii_upper(c: char) -> char {
    if 'a' <= c <= 'z' {
        (c as u32 - 32) as char
    } else {
        c
    }
}

/// `char::to_lowercase` yields the Unicode lower-case mapping of the character alone, as one or
/// more characters. On ASCII it turns the letters `A` to `Z` into `a` to `z` and keeps the rest.
#[verifier::external_body]
pub(crate) fn to_lowercase(c: char) -> (r: Vec<char>)
    ensures
        r@ == lowercase(c),
        r@.len() >= 1,
        c as u32 <= 0x7f ==> r@ == seq![ascii_lower(c)],
{
    c.to_lowercase().collect()
}

/// `char::to_uppercase` yields the Unicode upper-case mapping of the character alone, as one or
/// more characters. On ASCII it turns the letters `a` to `z` into `A` to `Z` and keeps the rest.
#[verifier::external_body]
pub(crate) fn to_uppercase(c: char) -> (r: Vec<char>)
    ensures
        r@ == uppercase(c),
        r@.len() >= 1,
        c as u32 <= 0x7f ==> r@ == seq![ascii_upper(c)],
{
    c.to_uppercase().collect()
}

/// The number of characters before the first white space.
pub open spec fn word_len(s: Seq<char>) -> nat
    decreases s.len(),
{
    if s.len() == 0 || is_white_space(s[0]) {
        0
    } else {
        1 + word_len(s.drop_first())
    }
}

/// A word ends at white space or at the end, and holds none.
pub proof fn lemma_word_len(s: Seq<char>)
    ensures
        word_len(s) <= s.len(),
        forall|j: int| 0 <= j < word_len(s) ==> !is_white_space(#[trigger] s[j]),
        word_len(s) < s.len() ==> is_white_space(s[word_len(s) as int]),
    decreases s.len(),
{
    if s.len() > 0 && !is_white_space(s[0]) {
        let t = s.drop_first();
        lemma_word_len(t);
        assert forall|j: int| 0 <= j < word_len(s) implies !is_white_space(#[trigger] s[j]) by {
            if j > 0 {
                assert(t[j - 1] == s[j]);
            }
        }
    }
}

/// The end of the word that starts at `lo`, looked for up to `hi`.
pub fn word_end(v: &[char], lo: usize, hi: usize) -> (e: usize)
    requires
        lo <= hi <= v@.len(),
    ensures
        lo <= e <= hi,
        e - lo == word_len(v@.subrange(lo as int, hi as int)),
{
    let ghost s = v@.subrange(lo as int, hi as int);
    let mut e: usize = lo;
    proof {
        lemma_word_len(s);
    }
    while e < hi && !is_whitespace(v[e])
        invariant
            lo <= e <= hi <= v@.len(),
            s == v@.subrange(lo as int, hi as int),
            e - lo <= word_len(s) <= s.len(),
            word_len(s) < s.len() ==> is_white_space(s[word_len(s) as int]),
        decreases hi - e,
    {
        assert(s[e - lo] == v@[e as int]);
        e = e + 1;
    }
    proof {
        if e < hi {
            assert(s[e - lo] == v@[e as int]);
        }
    }
    e
}

/// The number of UTF-8 bytes of a character.
pub open spec fn char_width(c: char) -> nat {
    let u = c as u32;
    if u <= 0x7f {
        1
    } else if u <= 0x7ff {
        2
    } else if u <= 0xffff {
        3
    } else {
        4
    }
}

/// A string has the bytes of its first character and of the rest.
pub proof fn lemma_utf8_first(s: Seq<char>)
    requires
        s.len() > 0,
    ensures
        utf8(s).len() == char_width(s[0]) + utf8(s.drop_first()).len(),
{
    vstd::utf8::char_is_scalar(s[0]);
}

/// The longest prefix of `s` that has at most `max` UTF-8 bytes.
pub open spec fn truncated(s: Seq<char>, max: nat) -> Seq<char>
    decreases s.len(),
{
    if s.len() == 0 || char_width(s[0]) > max {
        Seq::empty()
    } else {
        seq![s[0]] + truncated(s.drop_first(), (max - char_width(s[0])) as nat)
    }
}

/// A truncated string is a prefix within the limit, and the character after it would not fit.
pub proof fn lemma_truncated(s: Seq<char>, max: nat)
    ensures
        truncated(s, max).len() <= s.len(),
        truncated(s, max) == s.take(truncated(s, max).len() as int),
        utf8(truncated(s, max)).len() <= max,
        truncated(s, max).len() < s.len() ==> utf8(truncated(s, max)).len() + char_width(
            s[truncated(s, max).len() as int],
        ) > max,
        utf8(s).len() <= max ==> truncated(s, max) == s,
    decreases s.len(),
{
    let t = truncated(s, max);
    if s.len() == 0 || char_width(s[0]) > max {
        if s.len() > 0 {
            lemma_utf8_first(s);
        }
    } else {
        let rest = s.drop_first();
        let m = (max - char_width(s[0])) as nat;
        lemma_truncated(rest, m);
        lemma_utf8_first(s);
        lemma_utf8_first(t);
        assert(t.drop_first() == truncated(rest, m));
        assert(s.take(t.len() as int).drop_first() == rest.take(t.len() - 1));
        assert(t == s.take(t.len() as int));
        if t.len() < s.len() {
            assert(s[t.len() as int] == rest[t.len() - 1]);
        }
    }
}

/// The number of UTF-8 bytes of a character.
pub fn char_bytes(c: char) -> (r: usize)
    ensures
        r == char_width(c),
{
    let u: u32 = c as u32;
    if u <= 0x7f {
        1
    } else if u <= 0x7ff {
        2
    } else if u <= 0xffff {
        3
    } else {
        4
    }
}

/// Appends the longest prefix of `s` that has at most `max` UTF-8 bytes, and returns its byte
/// length.
pub fn push_truncated(out: &mut String, s: &str, max: usize) -> (r: usize)
    ensures
        final(out)@ == old(out)@ + truncated(s@, max as nat),
        r == utf8(truncated(s@, max as nat)).len(),
{
    let v = to_chars(s);
    let ghost start = out@;
    let mut i: usize = 0;
    let mut left: usize = max;
    assert(v@.skip(0) == v@);
    assert(start + v@.take(0) == start);
    while i < v.len() && char_bytes(v[i]) <= left
        invariant
            i <= v@.len(),
            left <= max,
            out@ == start + v@.take(i as int),
            v@.take(i as int) + truncated(v@.skip(i as int), left as nat) == truncated(
                v@,
                max as nat,
            ),
            utf8(v@.take(i as int)).len() == max - left,
        decreases v@.len() - i,
    {
        proof {
            let rest = v@.skip(i as int);
            assert(rest[0] == v@[i as int]);
            assert(rest.drop_first() == v@.skip(i + 1));
            assert(v@.take(i + 1) == v@.take(i as int) + seq![v@[i as int]]);
            crate::lists::lemma_assoc(
                v@.take(i as int),
                seq![v@[i as int]],
                truncated(v@.skip(i + 1), (left - char_width(v@[i as int])) as nat),
            );
            lemma_utf8_concat(v@.take(i as int), seq![v@[i as int]]);
            lemma_utf8_first(seq![v@[i as int]]);
            assert(seq![v@[i as int]].drop_first() == Seq::<char>::empty());
        }
        left = left - char_bytes(v[i]);
        out.push(v[i]);
        i = i + 1;
    }
    proof {
        let rest = v@.skip(i as int);
        if i < v@.len() {
            assert(rest[0] == v@[i as int]);
        }
        assert(truncated(rest, left as nat) == Seq::<char>::empty());
        assert(v@.take(i as int) + Seq::<char>::empty() == v@.take(i as int));
    }
    max - left
}

/// Whether a string holds no character.
pub fn is_empty(s: &str) -> (r: bool)
    ensures
        r == (s@.len() == 0),
{
    proof {
        lemma_utf8_len(s@);
    }
    s.as_bytes().len() == 0
}

/// The characters of each piece of a cut text.
pub open spec fn pieces_of(v: Seq<Vec<char>>) -> Seq<Seq<char>> {
    v.map_values(|p: Vec<char>| p@)
}

fn copy_range(v: &[char], lo: usize, hi: usize) -> (r: Vec<char>)
    requires
        lo <= hi <= v@.len(),
    ensures
        r@ == v@.subrange(lo as int, hi as int),
{
    let mut out: Vec<char> = Vec::new();
    let mut i: usize = lo;
    while i < hi
        invariant
            lo <= i <= hi <= v@.len(),
            out@ == v@.subrange(lo as int, i as int),
        decreases hi - i,
    {
        out.push(v[i]);
        i = i + 1;
        assert(v@.subrange(lo as int, i as int) == v@.subrange(lo as int, i - 1).push(v@[i - 1]));
    }
    out
}

/// The lines of a text.
pub fn split_lines(text: &str) -> (r: Vec<Vec<char>>)
    ensures
        pieces_of(r@) == lines(text@),
{
    let v = to_chars(text);
    let mut out: Vec<Vec<char>> = Vec::new();
    let mut pos: usize = 0;
    assert(v@.skip(0) == v@);
    assert(pieces_of(out@) =~= Seq::empty());
    assert(Seq::<Seq<char>>::empty() + lines(v@) == lines(v@));
    while pos < v.len()
        invariant
            pos <= v@.len(),
            pieces_of(out@) + lines(v@.skip(pos as int)) == lines(v@),
        decreases v@.len() - pos,
    {
        let ghost here = v@.skip(pos as int);
        let ghost before = pieces_of(out@);
        let eol = find_from(v.as_slice(), pos, v.len(), '\n');
        assert(v@.subrange(pos as int, v@.len() as int) == here);
        out.push(copy_range(v.as_slice(), pos, eol));
        assert(here.take(eol - pos) == v@.subrange(pos as int, eol as int));
        assert(pieces_of(out@) =~= before + seq![here.take(eol - pos)]);
        if eol < v.len() {
            proof {
                assert(here.skip(eol - pos + 1) == v@.skip(eol + 1));
                crate::lists::lemma_assoc(
                    before,
                    seq![here.take(eol - pos)],
                    lines(v@.skip(eol + 1)),
                );
            }
            pos = eol + 1;
        } else {
            assert(here.take(eol - pos) == here);
            pos = eol;
            assert(lines(v@.skip(pos as int)) =~= Seq::empty());
            assert(pieces_of(out@) + Seq::<Seq<char>>::empty() == pieces_of(out@));
        }
    }
    assert(lines(v@.skip(pos as int)) =~= Seq::empty());
    assert(pieces_of(out@) + Seq::<Seq<char>>::empty() == pieces_of(out@));
    out
}

/// The characters `lo .. hi` of `v`, cut at every `c`.
pub fn split_range(v: &[char], lo: usize, hi: usize, c: char) -> (r: Vec<Vec<char>>)
    requires
        lo <= hi <= v@.len(),
    ensures
        pieces_of(r@) == split(v@.subrange(lo as int, hi as int), c),
{
    let mut out: Vec<Vec<char>> = Vec::new();
    let mut pos: usize = lo;
    let ghost all = split(v@.subrange(lo as int, hi as int), c);
    assert(pieces_of(out@) =~= Seq::empty());
    assert(Seq::<Seq<char>>::empty() + all == all);
    loop
        invariant_except_break
            lo <= pos <= hi <= v@.len(),
            pieces_of(out@) + split(v@.subrange(pos as int, hi as int), c) == all,
        ensures
            pieces_of(out@) == all,
        decreases hi - pos,
    {
        let ghost here = v@.subrange(pos as int, hi as int);
        let ghost before = pieces_of(out@);
        let end = find_from(v, pos, hi, c);
        out.push(copy_range(v, pos, end));
        assert(here.take(end - pos) == v@.subrange(pos as int, end as int));
        assert(pieces_of(out@) =~= before + seq![here.take(end - pos)]);
        if end == hi {
            assert(here.take(end - pos) == here);
            break;
        }
        proof {
            assert(here.skip(end - pos + 1) == v@.subrange(end + 1, hi as int));
            crate::lists::lemma_assoc(
                before,
                seq![here.take(end - pos)],
                split(v@.subrange(end + 1, hi as int), c),
            );
        }
        pos = end + 1;
    }
    out
}

/// An ASCII letter in lower case, or `c` itself.
pub fn to_ascii_lower(c: char) -> (r: char)
    ensures
        r == ascii_lower(c),
{
    if 'A' <= c && c <= 'Z' {
        (c as u8 + 32) as char
    } else {
        c
    }
}

/// Trimming takes white space off both ends and nothing else.
pub proof fn law_trimming_takes_white_space(s: Seq<char>) -> (r: (Seq<char>, Seq<char>))
    ensures
        is_blank(r.0),
        is_blank(r.1),
        s == r.0 + trim(s) + r.1,
        trim(s).len() > 0 ==> !is_white_space(trim(s)[0]) && !is_white_space(trim(s).last()),
{
    let a = lemma_trim_start_parts(s);
    let b = lemma_trim_end_parts(trim_start(s));
    let t = trim(s);
    assert(s =~= a + t + b);
    if t.len() > 0 {
        assert(t[0] == trim_start(s)[0]);
    }
    (a, b)
}

proof fn lemma_trim_start_parts(s: Seq<char>) -> (blank: Seq<char>)
    ensures
        is_blank(blank),
        s == blank + trim_start(s),
        trim_start(s).len() > 0 ==> !is_white_space(trim_start(s)[0]),
    decreases s.len(),
{
    if s.len() > 0 && is_white_space(s[0]) {
        let t = s.drop_first();
        let rest = lemma_trim_start_parts(t);
        let blank = seq![s[0]] + rest;
        assert(s =~= seq![s[0]] + t);
        crate::lists::lemma_assoc(seq![s[0]], rest, trim_start(t));
        assert forall|i: int| 0 <= i < blank.len() implies is_white_space(#[trigger] blank[i]) by {
            if i > 0 {
                assert(rest[i - 1] == blank[i]);
            }
        }
        blank
    } else {
        assert(Seq::<char>::empty() + s == s);
        Seq::empty()
    }
}

proof fn lemma_trim_end_parts(s: Seq<char>) -> (blank: Seq<char>)
    ensures
        is_blank(blank),
        s == trim_end(s) + blank,
        trim_end(s).len() > 0 ==> !is_white_space(trim_end(s).last()),
    decreases s.len(),
{
    if s.len() > 0 && is_white_space(s.last()) {
        let t = s.drop_last();
        let rest = lemma_trim_end_parts(t);
        let blank = rest + seq![s.last()];
        assert(s =~= t + seq![s.last()]);
        crate::lists::lemma_assoc(trim_end(t), rest, seq![s.last()]);
        assert forall|i: int| 0 <= i < blank.len() implies is_white_space(#[trigger] blank[i]) by {
            if i < rest.len() {
                assert(rest[i] == blank[i]);
            }
        }
        blank
    } else {
        assert(s + Seq::<char>::empty() == s);
        Seq::empty()
    }
}

/// Texts with `c` between them.
pub open spec fn joined_by(pieces: Seq<Seq<char>>, c: char) -> Seq<char>
    decreases pieces.len(),
{
    if pieces.len() == 0 {
        Seq::empty()
    } else if pieces.len() == 1 {
        pieces[0]
    } else {
        pieces[0] + seq![c] + joined_by(pieces.drop_first(), c)
    }
}

/// Cutting a text at every `c` loses nothing but these: the pieces hold none, and joined by `c` they
/// are the text.
pub proof fn law_split_pieces_join(s: Seq<char>, c: char)
    ensures
        split(s, c).len() > 0,
        joined_by(split(s, c), c) == s,
        forall|i: int| 0 <= i < split(s, c).len() ==> !(#[trigger] split(s, c)[i]).contains(c),
    decreases s.len(),
{
    let i = find_char(s, c);
    lemma_find_char(s, c);
    let all = split(s, c);
    if i >= s.len() {
        assert(!s.contains(c));
        assert(all[0] == s);
    } else {
        let first = s.take(i);
        let rest = s.skip(i + 1);
        law_split_pieces_join(rest, c);
        assert(!first.contains(c));
        assert(all.drop_first() =~= split(rest, c));
        assert(s =~= first + seq![c] + rest);
        assert forall|k: int| 0 <= k < all.len() implies !(#[trigger] all[k]).contains(c) by {
            if k > 0 {
                assert(all[k] == split(rest, c)[k - 1]);
            }
        }
    }
}

/// The lines of a text hold no line feed, and joined by line feeds they are the text, but for a
/// last line feed.
pub proof fn law_lines_join(s: Seq<char>)
    ensures
        joined_by(lines(s), '\n') == s || joined_by(lines(s), '\n') + seq!['\n'] == s,
        forall|i: int| 0 <= i < lines(s).len() ==> !(#[trigger] lines(s)[i]).contains('\n'),
        s.len() > 0 ==> lines(s).len() > 0,
    decreases s.len(),
{
    let i = find_char(s, '\n');
    lemma_find_char(s, '\n');
    let all = lines(s);
    if s.len() == 0 {
    } else if i >= s.len() {
        assert(!s.contains('\n'));
        assert(all[0] == s);
    } else {
        let first = s.take(i);
        let rest = s.skip(i + 1);
        law_lines_join(rest);
        assert(!first.contains('\n'));
        assert(all.drop_first() =~= lines(rest));
        assert(s =~= first + seq!['\n'] + rest);
        assert forall|k: int| 0 <= k < all.len() implies !(#[trigger] all[k]).contains('\n') by {
            if k > 0 {
                assert(all[k] == lines(rest)[k - 1]);
            }
        }
        if rest.len() == 0 {
            assert(all =~= seq![first]);
            assert(s =~= first + seq!['\n']);
        } else {
            let j = joined_by(lines(rest), '\n');
            assert(joined_by(all, '\n') == first + seq!['\n'] + j);
            assert(first + seq!['\n'] + j + seq!['\n'] =~= first + seq!['\n'] + (j + seq!['\n']));
        }
    }
}

/// The digits of a number: each further one is the next lower decimal place, and there is no zero
/// in front.
pub proof fn law_decimal_places(n: nat)
    ensures
        decimal(n).len() > 0,
        all_digits(decimal(n)),
        decimal(n).len() > 1 ==> decimal(n)[0] != '0',
        n > 0 ==> decimal(n)[0] != '0',
        forall|d: nat|
            n > 0 && d < 10 ==> #[trigger] decimal(10 * n + d) == decimal(n) + decimal(d),
        decimal_value(decimal(n)) == n,
    decreases n,
{
    lemma_decimal_round_trip(n);
    if n >= 10 {
        law_decimal_places(n / 10);
        assert(decimal(n)[0] == decimal(n / 10)[0]);
    }
    assert forall|d: nat| n > 0 && d < 10 implies #[trigger] decimal(10 * n + d) == decimal(n)
        + decimal(d) by {
        let m = 10 * n + d;
        assert(m / 10 == n && m % 10 == d);
        assert(decimal(m) =~= decimal(n) + decimal(d));
    }
}

/// A character that no piece holds stands nowhere in the joined pieces.
pub proof fn lemma_joined_no(pieces: Seq<Seq<char>>, sep: char, c: char)
    requires
        sep != c,
        forall|i: int| 0 <= i < pieces.len() ==> !(#[trigger] pieces[i]).contains(c),
    ensures
        !joined_by(pieces, sep).contains(c),
    decreases pieces.len(),
{
    let all = joined_by(pieces, sep);
    if pieces.len() > 0 {
        assert(!pieces[0].contains(c));
        if pieces.len() > 1 {
            let rest = pieces.drop_first();
            assert forall|i: int| 0 <= i < rest.len() implies !(#[trigger] rest[i]).contains(c) by {
                assert(rest[i] == pieces[i + 1]);
            }
            lemma_joined_no(rest, sep, c);
            let tail = joined_by(rest, sep);
            if all.contains(c) {
                let k = choose|k: int| 0 <= k < all.len() && all[k] == c;
                let n = pieces[0].len();
                if k < n {
                    assert(pieces[0][k] == c);
                } else if k > n {
                    assert(tail[k - n - 1] == c);
                }
            }
        }
    }
}

/// Joined pieces are split into themselves.
pub proof fn lemma_split_joined(pieces: Seq<Seq<char>>, c: char)
    requires
        pieces.len() > 0,
        forall|i: int| 0 <= i < pieces.len() ==> !(#[trigger] pieces[i]).contains(c),
    ensures
        split(joined_by(pieces, c), c) == pieces,
    decreases pieces.len(),
{
    let all = joined_by(pieces, c);
    let first = pieces[0];
    assert(!pieces[0].contains(c));
    assert forall|j: int| 0 <= j < first.len() implies first[j] != c by {
        if first[j] == c {
            assert(first.contains(c));
        }
    }
    if pieces.len() == 1 {
        lemma_find_char_at(all, c, all.len() as int);
        assert(pieces =~= seq![all]);
    } else {
        let rest = pieces.drop_first();
        assert forall|i: int| 0 <= i < rest.len() implies !(#[trigger] rest[i]).contains(c) by {
            assert(rest[i] == pieces[i + 1]);
        }
        lemma_split_joined(rest, c);
        let tail = joined_by(rest, c);
        let n = first.len() as int;
        assert(all[n] == c);
        assert forall|j: int| 0 <= j < n implies all[j] != c by {
            assert(all[j] == first[j]);
        }
        lemma_find_char_at(all, c, n);
        assert(all.take(n) =~= first);
        assert(all.skip(n + 1) =~= tail);
        assert(pieces =~= seq![first] + rest);
    }
}

/// The order of byte sequences is decided where they first differ; a sequence comes before those
/// that go on behind it.
pub proof fn law_order_is_lexicographic(a: Seq<u8>, b: Seq<u8>) -> (k: int)
    ensures
        0 <= k <= a.len() && k <= b.len(),
        a.take(k) == b.take(k),
        k < a.len() && k < b.len() ==> a[k] != b[k],
        bytes_lt(a, b) <==> k < b.len() && (k < a.len() ==> a[k] < b[k]),
    decreases a.len(),
{
    if a.len() == 0 || b.len() == 0 || a[0] != b[0] {
        assert(a.take(0) =~= b.take(0));
        0
    } else {
        let p = a.drop_first();
        let q = b.drop_first();
        let k = law_order_is_lexicographic(p, q);
        assert forall|i: int| 0 <= i < k + 1 implies #[trigger] a[i] == b[i] by {
            if i > 0 {
                assert(p.take(k)[i - 1] == q.take(k)[i - 1]);
            }
        }
        assert(a.take(k + 1) =~= b.take(k + 1));
        k + 1
    }
}

/// Digits without a leading zero are the decimal text of their value.
pub proof fn lemma_decimal_of_digits(s: Seq<char>)
    requires
        s.len() > 0,
        all_digits(s),
        s.len() > 1 ==> s[0] != '0',
    ensures
        decimal(decimal_value(s)) == s,
        s.len() > 1 ==> decimal_value(s) > 0,
        s[0] != '0' ==> decimal_value(s) > 0,
    decreases s.len(),
{
    reveal_with_fuel(decimal_value, 2);
    let t = s.drop_last();
    assert(is_digit(s[s.len() - 1]));
    if t.len() == 0 {
        assert(s =~= seq![s[0]]);
        assert(decimal(decimal_value(s)) =~= s);
    } else {
        assert forall|i: int| 0 <= i < t.len() implies is_digit(#[trigger] t[i]) by {
            assert(is_digit(s[i]));
        }
        assert(t[0] == s[0]);
        lemma_decimal_of_digits(t);
        let n = decimal_value(t);
        let d = digit_value(s.last());
        assert(decimal_value(s) == 10 * n + d);
        assert((10 * n + d) / 10 == n && (10 * n + d) % 10 == d) by (nonlinear_arith)
            requires
                d < 10,
        ;
        assert(decimal(decimal_value(s)) =~= t.push(s.last()));
        assert(t.push(s.last()) =~= s);
    }
}

} // verus!
