//! Little-endian, length-prefixed byte format.
//!
//! Each `put_*` function appends the bytes of a value, and each method of
//! [`ByteReader`] reads one back. Reading what was written gives the value and
//! leaves what follows it.

use vstd::prelude::*;

use crate::strings::decode_text;

verus! {

/// The `n` low bytes of `x`, least significant first.
pub open spec fn le_bytes(x: nat, n: nat) -> Seq<u8>
    decreases n,
{
    if n == 0 {
        Seq::empty()
    } else {
        seq![(x % 256) as u8] + le_bytes(x / 256, (n - 1) as nat)
    }
}

/// The number that bytes denote, least significant first.
pub open spec fn le_value(b: Seq<u8>) -> nat
    decreases b.len(),
{
    if b.len() == 0 {
        0
    } else {
        b[0] as nat + 256 * le_value(b.drop_first())
    }
}

/// The bytes of a text: their number in four bytes, then the UTF-8 bytes themselves. Only the low
/// four bytes of the number are kept.
pub open spec fn text_bytes(s: Seq<char>) -> Seq<u8> {
    le_bytes(crate::strings::utf8(s).len(), 4) + crate::strings::utf8(s)
}

/// Whether a text is short enough for its length prefix.
pub open spec fn fits(s: Seq<char>) -> bool {
    crate::strings::utf8(s).len() < 0x1_0000_0000
}

/// Reads an `n`-byte number: the number and what follows it.
pub open spec fn read_le(b: Seq<u8>, n: nat) -> Option<(nat, Seq<u8>)> {
    if b.len() < n {
        None
    } else {
        Some((le_value(b.take(n as int)), b.skip(n as int)))
    }
}

/// Reads a length-prefixed text: the text and what follows it.
pub open spec fn read_text(b: Seq<u8>) -> Option<(Seq<char>, Seq<u8>)> {
    match read_le(b, 4) {
        None => None,
        Some((n, rest)) => if rest.len() < n {
            None
        } else {
            match crate::strings::decoded(rest.take(n as int)) {
                None => None,
                Some(s) => Some((s, rest.skip(n as int))),
            }
        },
    }
}

/// A number that can be read is read the same way when more bytes follow.
pub proof fn lemma_read_le_more(b: Seq<u8>, n: nat, tail: Seq<u8>)
    ensures
        read_le(b, n) matches Some((x, rest)) ==> read_le(b + tail, n) == Some((x, rest + tail)),
{
    if b.len() >= n {
        assert((b + tail).take(n as int) == b.take(n as int));
        assert((b + tail).skip(n as int) == b.skip(n as int) + tail);
    }
}

/// A text that can be read is read the same way when more bytes follow.
pub proof fn lemma_read_text_more(b: Seq<u8>, tail: Seq<u8>)
    ensures
        read_text(b) matches Some((s, rest)) ==> read_text(b + tail) == Some((s, rest + tail)),
{
    lemma_read_le_more(b, 4, tail);
    if let Some((n, rest)) = read_le(b, 4) {
        if rest.len() >= n {
            assert((rest + tail).take(n as int) == rest.take(n as int));
            assert((rest + tail).skip(n as int) == rest.skip(n as int) + tail);
        }
    }
}

/// `256^n`.
pub open spec fn limit(n: nat) -> nat
    decreases n,
{
    if n == 0 {
        1
    } else {
        256 * limit((n - 1) as nat)
    }
}

/// The limits of the number widths in use.
pub proof fn lemma_limits()
    ensures
        limit(1) == 0x100,
        limit(4) == 0x1_0000_0000,
        limit(8) == 0x1_0000_0000_0000_0000,
{
    reveal_with_fuel(limit, 9);
}

/// A number below `256^n` is read back from its `n` bytes.
pub proof fn lemma_le_round_trip(x: nat, n: nat)
    requires
        x < limit(n),
    ensures
        le_bytes(x, n).len() == n,
        le_value(le_bytes(x, n)) == x,
    decreases n,
{
    if n > 0 {
        lemma_le_round_trip(x / 256, (n - 1) as nat);
        let b = le_bytes(x, n);
        assert(b.drop_first() == le_bytes(x / 256, (n - 1) as nat));
    }
}

/// `n` bytes are always `n` bytes, whatever the number.
pub proof fn lemma_le_len(x: nat, n: nat)
    ensures
        le_bytes(x, n).len() == n,
    decreases n,
{
    if n > 0 {
        lemma_le_len(x / 256, (n - 1) as nat);
    }
}

/// `n` bytes denote a number below `256^n`.
pub proof fn lemma_le_value_bound(b: Seq<u8>)
    ensures
        le_value(b) < limit(b.len()),
    decreases b.len(),
{
    if b.len() > 0 {
        lemma_le_value_bound(b.drop_first());
    }
}

/// A number is read back, with what follows it left over.
pub proof fn lemma_read_le(x: nat, n: nat, tail: Seq<u8>)
    requires
        x < limit(n),
    ensures
        read_le(le_bytes(x, n) + tail, n) == Some((x, tail)),
{
    lemma_le_round_trip(x, n);
    let b = le_bytes(x, n) + tail;
    assert(b.take(n as int) == le_bytes(x, n));
    assert(b.skip(n as int) == tail);
}

/// A text that fits its length prefix is read back, with what follows it left over.
pub proof fn lemma_read_text(s: Seq<char>, tail: Seq<u8>)
    requires
        fits(s),
    ensures
        read_text(text_bytes(s) + tail) == Some((s, tail)),
{
    let u = crate::strings::utf8(s);
    lemma_limits();
    lemma_read_le(u.len(), 4, u + tail);
    assert(text_bytes(s) + tail == le_bytes(u.len(), 4) + (u + tail));
    assert((u + tail).take(u.len() as int) == u);
    assert((u + tail).skip(u.len() as int) == tail);
    crate::strings::lemma_decoded(s);
}

/// Bytes are those of the number that they denote.
pub proof fn lemma_le_of_value(b: Seq<u8>)
    ensures
        le_bytes(le_value(b), b.len()) == b,
    decreases b.len(),
{
    if b.len() > 0 {
        lemma_le_of_value(b.drop_first());
        assert(b == seq![b[0]] + b.drop_first());
    }
}

/// Appends the `n` low bytes of `x`, least significant first.
pub fn put_le(out: &mut Vec<u8>, x: u64, n: usize)
    ensures
        final(out)@ == old(out)@ + le_bytes(x as nat, n as nat),
    decreases n,
{
    let ghost start = out@;
    if n > 0 {
        out.push((x % 256) as u8);
        put_le(out, x / 256, n - 1);
        assert(start.push((x % 256) as u8) + le_bytes(x as nat / 256, (n - 1) as nat) == start
            + le_bytes(x as nat, n as nat));
    } else {
        assert(start + Seq::<u8>::empty() == start);
    }
}

/// Appends four bytes.
pub fn put_u32(out: &mut Vec<u8>, v: u32)
    ensures
        final(out)@ == old(out)@ + le_bytes(v as nat, 4),
{
    put_le(out, v as u64, 4);
}

/// Appends eight bytes.
pub fn put_u64(out: &mut Vec<u8>, v: u64)
    ensures
        final(out)@ == old(out)@ + le_bytes(v as nat, 8),
{
    put_le(out, v, 8);
}

/// Appends a slice of bytes.
pub fn put_bytes(out: &mut Vec<u8>, b: &[u8])
    ensures
        final(out)@ == old(out)@ + b@,
{
    let ghost start = out@;
    let mut i: usize = 0;
    while i < b.len()
        invariant
            i <= b@.len(),
            out@ == start + b@.take(i as int),
        decreases b@.len() - i,
    {
        out.push(b[i]);
        i = i + 1;
        assert(start + b@.take(i as int) == (start + b@.take(i - 1)).push(b@[i - 1]));
    }
    assert(b@.take(b@.len() as int) == b@);
}

/// Appends a length-prefixed text.
pub fn put_str(out: &mut Vec<u8>, s: &str)
    ensures
        final(out)@ == old(out)@ + text_bytes(s@),
{
    let ghost start = out@;
    let b: &[u8] = s.as_bytes();
    put_le(out, b.len() as u64, 4);
    put_bytes(out, b);
    assert((start + le_bytes(b@.len(), 4)) + b@ == start + text_bytes(s@));
}

/// A bounds-checked little-endian reader.
pub struct ByteReader<'a> {
    b: &'a [u8],
    i: usize,
}

impl<'a> ByteReader<'a> {
    /// What is left to read.
    pub closed spec fn rest(&self) -> Seq<u8> {
        self.b@.skip(self.i as int)
    }

    /// The position lies within the bytes.
    pub closed spec fn wf(&self) -> bool {
        self.i <= self.b@.len()
    }

    /// A reader at the start of `b`.
    pub fn new(b: &'a [u8]) -> (r: Self)
        ensures
            r.wf(),
            r.rest() == b@,
    {
        assert(b@.skip(0) == b@);
        ByteReader { b, i: 0 }
    }

    /// Reads an `n`-byte number.
    pub fn le(&mut self, n: usize) -> (r: Option<u64>)
        requires
            old(self).wf(),
            n <= 8,
        ensures
            final(self).wf(),
            match r {
                Some(x) => read_le(old(self).rest(), n as nat) == Some(
                    (x as nat, final(self).rest()),
                ),
                None => read_le(old(self).rest(), n as nat) is None && *final(self) == *old(self),
            },
    {
        let ghost rest = self.rest();
        let len: usize = self.b.len();
        if len - self.i < n {
            return None;
        }
        let mut k: usize = n;
        let mut x: u64 = 0;
        let ghost word = rest.take(n as int);
        assert(word.skip(n as int) =~= Seq::empty());
        while k > 0
            invariant
                k <= n <= 8,
                self.i + n <= len,
                len == self.b@.len(),
                word == self.b@.skip(self.i as int).take(n as int),
                x == le_value(word.skip(k as int)),
            decreases k,
        {
            let ghost above = word.skip(k as int);
            k = k - 1;
            proof {
                let here = word.skip(k as int);
                assert(here.drop_first() == above);
                assert(here[0] == self.b@[self.i + k]);
                lemma_le_value_bound(above);
                assert(limit(above.len()) <= 0x100_0000_0000_0000) by {
                    reveal_with_fuel(limit, 9);
                }
            }
            x = x * 256 + self.b[self.i + k] as u64;
        }
        assert(word.skip(0) == word);
        self.i = self.i + n;
        assert(self.rest() == rest.skip(n as int));
        Some(x)
    }

    /// How many bytes are left.
    pub fn left(&self) -> (r: usize)
        requires
            self.wf(),
        ensures
            r == self.rest().len(),
    {
        self.b.len() - self.i
    }

    /// Reads one byte.
    pub fn byte(&mut self) -> (r: Option<u8>)
        requires
            old(self).wf(),
        ensures
            final(self).wf(),
            match r {
                Some(x) => old(self).rest().len() > 0 && x == old(self).rest()[0]
                    && final(self).rest() == old(self).rest().skip(1),
                None => old(self).rest().len() == 0 && *final(self) == *old(self),
            },
    {
        let ghost rest = self.rest();
        if self.i >= self.b.len() {
            return None;
        }
        let x: u8 = self.b[self.i];
        self.i = self.i + 1;
        assert(self.rest() == rest.skip(1));
        Some(x)
    }

    /// Reads `n` bytes as they stand.
    pub fn block(&mut self, n: usize) -> (r: Option<&'a [u8]>)
        requires
            old(self).wf(),
        ensures
            final(self).wf(),
            match r {
                Some(x) => n <= old(self).rest().len() && x@ == old(self).rest().take(n as int)
                    && final(self).rest() == old(self).rest().skip(n as int),
                None => old(self).rest().len() < n && *final(self) == *old(self),
            },
    {
        let ghost rest = self.rest();
        if self.b.len() - self.i < n {
            return None;
        }
        let end: usize = self.i + n;
        let part = vstd::slice::slice_subrange(self.b, self.i, end);
        assert(part@ == rest.take(n as int));
        self.i = end;
        assert(self.rest() == rest.skip(n as int));
        Some(part)
    }

    /// Reads a length-prefixed text.
    pub fn string(&mut self) -> (r: Option<String>)
        requires
            old(self).wf(),
        ensures
            final(self).wf(),
            match r {
                Some(s) => read_text(old(self).rest()) == Some((s@, final(self).rest())),
                None => read_text(old(self).rest()) is None,
            },
    {
        let n: u64 = match self.le(4) {
            Some(n) => n,
            None => {
                return None;
            },
        };
        if (self.left() as u64) < n {
            return None;
        }
        let r = match self.block(n as usize) {
            Some(part) => decode_text(part),
            None => None,
        };
        match r {
            Some(s) => Some(s.to_owned()),
            None => None,
        }
    }
}

/// The bytes of a number stand with the lowest first: byte `k` counts the `256^k`.
pub proof fn law_lowest_byte_comes_first(x: nat, n: nat, k: nat)
    requires
        k < n,
    ensures
        le_bytes(x, n).len() == n,
        le_bytes(x, n)[k as int] == (x as int / vstd::arithmetic::power::pow(256, k)) % 256,
    decreases n,
{
    lemma_le_len(x, n);
    if k == 0 {
        vstd::arithmetic::power::lemma_pow0(256);
    } else {
        let j = (k - 1) as nat;
        law_lowest_byte_comes_first(x / 256, (n - 1) as nat, j);
        reveal(vstd::arithmetic::power::pow);
        vstd::arithmetic::power::lemma_pow_positive(256, j);
        vstd::arithmetic::div_mod::lemma_div_denominator(
            x as int,
            256,
            vstd::arithmetic::power::pow(256, j),
        );
        assert(le_bytes(x, n)[k as int] == le_bytes(x / 256, (n - 1) as nat)[j as int]);
    }
}

} // verus!
