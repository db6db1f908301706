//! Canonical wire encoding.
//!
//! Every message that crosses a process boundary is written in one format. A byte stands for
//! itself, and a `bool` is the byte 0 or 1. Wider unsigned numbers are written seven bits at a
//! time, least significant first, each byte but the last with its top bit set; signed numbers are
//! first mapped to unsigned ones, small magnitudes to small numbers. A sequence or a text is its
//! length followed by its elements or UTF-8 bytes. An optional value is a presence byte and the
//! value. A structure is its fields in order, and an enumeration is the number of the variant
//! followed by the fields of that variant.
//!
//! A value has exactly one encoding: bytes decode only if they are what [`encode_canonical`]
//! writes for some value.

use vstd::prelude::*;

use crate::codec::{put_bytes, ByteReader};
use crate::strings::decode_text;

pub mod ai;
pub mod display;
pub mod files;

verus! {

/// The bytes begin with `p`.
pub open spec fn starts(b: Seq<u8>, p: Seq<u8>) -> bool {
    p.len() <= b.len() && b.take(p.len() as int) == p
}

/// A value that has a wire encoding.
pub trait Wire: Sized {
    /// The encoding of the value.
    spec fn bytes(&self) -> Seq<u8>;

    /// The two values agree in everything that they hold.
    spec fn same(&self, other: &Self) -> bool;

    /// No encoding begins another one, and values with one encoding are the same.
    proof fn prefix_free(&self, other: &Self, b: Seq<u8>)
        requires
            starts(b, self.bytes()),
            starts(b, other.bytes()),
        ensures
            self.same(other),
            self.bytes() == other.bytes(),
    ;

    /// Appends the encoding.
    fn put(&self, out: &mut Vec<u8>)
        ensures
            final(out)@ == old(out)@ + self.bytes(),
    ;

    /// Reads a value from the front of the bytes: the one whose encoding stands there, if any.
    fn take(r: &mut ByteReader) -> (v: Option<Self>)
        requires
            old(r).wf(),
        ensures
            final(r).wf(),
            v matches Some(x) ==> old(r).rest() == x.bytes() + final(r).rest(),
            v is None ==> forall|x: Self| !starts(old(r).rest(), #[trigger] x.bytes()),
    ;
}

/// The bytes are not the encoding of a value of the type.
#[derive(Clone, Copy, Debug, PartialEq, Eq, Structural)]
pub struct WireError;

/// `r` is what decoding `b` gives: the value that `b` encodes, or an error if it encodes none.
pub open spec fn decodes<T: Wire>(b: Seq<u8>, r: Result<T, WireError>) -> bool {
    match r {
        Ok(v) => v.bytes() == b,
        Err(_) => forall|v: T| #[trigger] v.bytes() != b,
    }
}

/// Encodes a value.
///
/// # Errors
///
/// Never for the values of this crate: each has an encoding.
pub fn encode_canonical<T: Wire>(value: &T) -> (r: Result<Vec<u8>, WireError>)
    ensures
        r matches Ok(b) && b@ == value.bytes(),
{
    let mut out: Vec<u8> = Vec::new();
    value.put(&mut out);
    assert(Seq::<u8>::empty() + value.bytes() == value.bytes());
    Ok(out)
}

/// Decodes a value from exactly the bytes of its encoding.
///
/// # Errors
///
/// [`WireError`] if the bytes are not what [`encode_canonical`] writes for any value of the type.
pub fn decode_canonical<T: Wire>(bytes: &[u8]) -> (r: Result<T, WireError>)
    ensures
        decodes(bytes@, r),
{
    let mut reader = ByteReader::new(bytes);
    match T::take(&mut reader) {
        Some(v) => {
            if reader.left() == 0 {
                assert(v.bytes() + reader.rest() == v.bytes());
                Ok(v)
            } else {
                proof {
                    assert forall|w: T| #[trigger] w.bytes() != bytes@ by {
                        if w.bytes() == bytes@ {
                            lemma_starts(bytes@, v.bytes(), reader.rest());
                            lemma_starts(bytes@, w.bytes(), Seq::empty());
                            v.prefix_free(&w, bytes@);
                        }
                    }
                }
                Err(WireError)
            }
        },
        None => {
            proof {
                assert forall|w: T| #[trigger] w.bytes() != bytes@ by {
                    if w.bytes() == bytes@ {
                        lemma_starts(bytes@, w.bytes(), Seq::empty());
                    }
                }
            }
            Err(WireError)
        },
    }
}

/// Decoding an encoding gives the value back.
pub proof fn law_round_trip<T: Wire>(v: T, r: Result<T, WireError>)
    requires
        decodes(v.bytes(), r),
    ensures
        r matches Ok(w) && w.same(&v),
{
    let b = v.bytes();
    match r {
        Ok(w) => {
            lemma_starts(b, v.bytes(), Seq::empty());
            w.prefix_free(&v, b);
        },
        Err(_) => {},
    }
}

/// Different values never share an encoding.
pub proof fn law_encoding_is_injective<T: Wire>(v: T, w: T)
    requires
        v.bytes() == w.bytes(),
    ensures
        v.same(&w),
{
    lemma_starts(v.bytes(), v.bytes(), Seq::empty());
    v.prefix_free(&w, v.bytes());
}

/// Messages sent one after the other are told apart: the first is read back, and what remains is
/// the second.
pub proof fn law_messages_are_self_delimiting<T: Wire>(v: T, w: T, tail: Seq<u8>, rest: Seq<u8>)
    requires
        v.bytes() + tail == w.bytes() + rest,
    ensures
        v.same(&w),
        tail == rest,
{
    let b = v.bytes() + tail;
    lemma_starts(b, v.bytes(), tail);
    lemma_starts(b, w.bytes(), rest);
    v.prefix_free(&w, b);
    assert(tail == b.skip(v.bytes().len() as int));
    assert(rest == b.skip(w.bytes().len() as int));
}

/// What is written first is what the bytes begin with.
pub proof fn lemma_starts(b: Seq<u8>, p: Seq<u8>, tail: Seq<u8>)
    requires
        b == p + tail,
    ensures
        starts(b, p),
        b.skip(p.len() as int) == tail,
{
    assert(b.take(p.len() as int) == p);
    assert(b.skip(p.len() as int) == tail);
}

/// Bytes begin with two parts if they begin with the first and go on with the second.
pub proof fn lemma_starts_both(b: Seq<u8>, p: Seq<u8>, q: Seq<u8>)
    ensures
        starts(b, p + q) <==> starts(b, p) && starts(b.skip(p.len() as int), q),
{
    let n = p.len() as int;
    let m = q.len() as int;
    if starts(b, p + q) {
        assert((p + q).take(n) == p);
        assert((p + q).skip(n) == q);
        assert(b.take(n) == b.take(n + m).take(n));
        assert(b.skip(n).take(m) == b.take(n + m).skip(n));
    }
    if starts(b, p) && starts(b.skip(n), q) {
        assert(b.take(n + m) == b.take(n) + b.skip(n).take(m));
    }
}

/// The bytes of an unsigned number, seven bits each.
pub open spec fn varint(n: nat) -> Seq<u8>
    decreases n,
{
    if n < 128 {
        seq![n as u8]
    } else {
        seq![(n % 128 + 128) as u8] + varint(n / 128)
    }
}

/// The numbers of `k` bytes are below the `k`-th power of 128.
pub open spec fn varint_limit(k: nat) -> nat
    decreases k,
{
    if k == 0 {
        1
    } else {
        128 * varint_limit((k - 1) as nat)
    }
}

/// Small numbers take few bytes.
pub proof fn lemma_varint_len(n: nat, k: nat)
    requires
        k > 0,
        n < varint_limit(k),
    ensures
        1 <= varint(n).len() <= k,
    decreases k,
{
    if n >= 128 {
        if k == 1 {
            assert(varint_limit(1) == 128) by {
                reveal_with_fuel(varint_limit, 2);
            }
        }
        lemma_varint_len(n / 128, (k - 1) as nat);
    }
}

/// A `u32` takes at most five bytes, and a `u64` at most ten.
pub proof fn lemma_varint_sizes()
    ensures
        forall|n: nat| n < 0x4000 ==> 1 <= (#[trigger] varint(n)).len() <= 2,
        forall|n: nat| n <= u32::MAX ==> 1 <= (#[trigger] varint(n)).len() <= 5,
        forall|n: nat| n <= u64::MAX ==> 1 <= (#[trigger] varint(n)).len() <= 10,
{
    assert(varint_limit(2) == 0x4000 && varint_limit(5) == 0x8_0000_0000 && varint_limit(10)
        == 0x40_0000_0000_0000_0000) by {
        reveal_with_fuel(varint_limit, 11);
    }
    assert forall|n: nat| n < 0x4000 implies 1 <= (#[trigger] varint(n)).len() <= 2 by {
        lemma_varint_len(n, 2);
    }
    assert forall|n: nat| n <= u32::MAX implies 1 <= (#[trigger] varint(n)).len() <= 5 by {
        lemma_varint_len(n, 5);
    }
    assert forall|n: nat| n <= u64::MAX implies 1 <= (#[trigger] varint(n)).len() <= 10 by {
        lemma_varint_len(n, 10);
    }
}

/// The bytes of a number begin those of no other number.
pub proof fn lemma_varint_prefix(a: nat, c: nat, b: Seq<u8>)
    requires
        starts(b, varint(a)),
        starts(b, varint(c)),
    ensures
        a == c,
    decreases a,
{
    assert(b[0] == b.take(varint(a).len() as int)[0]);
    assert(b[0] == b.take(varint(c).len() as int)[0]);
    if a >= 128 && c >= 128 {
        let p = seq![(a % 128 + 128) as u8];
        let q = seq![(c % 128 + 128) as u8];
        lemma_starts_both(b, p, varint(a / 128));
        lemma_starts_both(b, q, varint(c / 128));
        lemma_varint_prefix(a / 128, c / 128, b.skip(1));
    }
}

/// Bytes that begin with the number of a variant go on with what that variant holds.
pub proof fn lemma_tag(b: Seq<u8>, n: nat, rest: Seq<u8>, tag: nat, payload: Seq<u8>)
    requires
        b == varint(n) + rest,
        starts(b, varint(tag) + payload),
    ensures
        tag == n,
        starts(rest, payload),
{
    lemma_starts(b, varint(n), rest);
    lemma_starts_both(b, varint(tag), payload);
    lemma_varint_prefix(tag, n, b);
}

/// Bytes begin with one variant only.
pub proof fn lemma_tags(b: Seq<u8>, tag1: nat, payload1: Seq<u8>, tag2: nat, payload2: Seq<u8>)
    requires
        starts(b, varint(tag1) + payload1),
        starts(b, varint(tag2) + payload2),
    ensures
        tag1 == tag2,
        starts(b.skip(varint(tag1).len() as int), payload1),
        starts(b.skip(varint(tag1).len() as int), payload2),
{
    lemma_starts_both(b, varint(tag1), payload1);
    lemma_starts_both(b, varint(tag2), payload2);
    lemma_varint_prefix(tag1, tag2, b);
}

/// Appends an unsigned number.
pub fn put_varint(out: &mut Vec<u8>, n: u64)
    ensures
        final(out)@ == old(out)@ + varint(n as nat),
    decreases n,
{
    let ghost start = out@;
    if n < 128 {
        out.push(n as u8);
        assert(out@ == start + varint(n as nat));
    } else {
        let low: u8 = (n % 128 + 128) as u8;
        out.push(low);
        put_varint(out, n / 128);
        assert(start.push(low) + varint(n as nat / 128) == start + (seq![low] + varint(
            n as nat / 128,
        )));
    }
}

/// Reads an unsigned number that is at most `max`.
pub fn take_varint(r: &mut ByteReader, max: u64) -> (v: Option<u64>)
    requires
        old(r).wf(),
    ensures
        final(r).wf(),
        v matches Some(n) ==> n <= max && old(r).rest() == varint(n as nat) + final(r).rest(),
        v is None ==> forall|n: nat| n <= max ==> !starts(old(r).rest(), #[trigger] varint(n)),
    decreases max,
{
    let ghost rest = r.rest();
    let b: u8 = match r.byte() {
        Some(b) => b,
        None => {
            return None;
        },
    };
    let ghost rest1 = r.rest();
    assert(rest == seq![b] + rest1);
    proof {
        assert forall|n: nat| starts(rest, #[trigger] varint(n)) implies if n < 128 {
            b == n
        } else {
            b == n % 128 + 128 && starts(rest1, varint(n / 128))
        } by {
            assert(rest.take(varint(n).len() as int)[0] == rest[0]);
            if n >= 128 {
                lemma_starts_both(rest, seq![(n % 128 + 128) as u8], varint(n / 128));
            }
        }
    }
    if b < 128 {
        if b as u64 <= max {
            Some(b as u64)
        } else {
            None
        }
    } else if max < 128 {
        None
    } else {
        let hi: u64 = match take_varint(r, max / 128) {
            Some(hi) => hi,
            None => {
                proof {
                    assert forall|n: nat| n <= max implies !starts(rest, #[trigger] varint(n)) by {
                        if starts(rest, varint(n)) {
                            assert(n / 128 <= max / 128);
                        }
                    }
                }
                return None;
            },
        };
        proof {
            lemma_starts(rest1, varint(hi as nat), r.rest());
            assert forall|n: nat| starts(rest, #[trigger] varint(n)) implies n >= 128 && n == hi * 128
                + (b - 128) by {
                lemma_varint_prefix(n / 128, hi as nat, rest1);
            }
        }
        if hi == 0 {
            return None;
        }
        let n: u64 = hi * 128 + (b as u64 - 128);
        if n <= max {
            assert(rest == varint(n as nat) + r.rest());
            Some(n)
        } else {
            None
        }
    }
}

impl Wire for u8 {
    open spec fn bytes(&self) -> Seq<u8> {
        seq![*self]
    }

    open spec fn same(&self, other: &Self) -> bool {
        *self == *other
    }

    proof fn prefix_free(&self, other: &Self, b: Seq<u8>) {
        assert(b.take(1)[0] == b[0]);
    }

    fn put(&self, out: &mut Vec<u8>) {
        out.push(*self);
    }

    fn take(r: &mut ByteReader) -> (v: Option<Self>) {
        let ghost rest = r.rest();
        let v = r.byte();
        assert(v matches Some(x) ==> rest == seq![x] + r.rest());
        v
    }
}

impl Wire for bool {
    open spec fn bytes(&self) -> Seq<u8> {
        seq![
            if *self {
                1u8
            } else {
                0u8
            },
        ]
    }

    open spec fn same(&self, other: &Self) -> bool {
        *self == *other
    }

    proof fn prefix_free(&self, other: &Self, b: Seq<u8>) {
        assert(b.take(1)[0] == b[0]);
    }

    fn put(&self, out: &mut Vec<u8>) {
        out.push(
            if *self {
                1
            } else {
                0
            },
        );
    }

    fn take(r: &mut ByteReader) -> (v: Option<Self>) {
        let ghost rest = r.rest();
        let b: u8 = match r.byte() {
            Some(b) => b,
            None => {
                return None;
            },
        };
        assert(rest == seq![b] + r.rest());
        assert(rest.take(1)[0] == b);
        if b == 0 {
            Some(false)
        } else if b == 1 {
            Some(true)
        } else {
            None
        }
    }
}

impl Wire for u16 {
    open spec fn bytes(&self) -> Seq<u8> {
        varint(*self as nat)
    }

    open spec fn same(&self, other: &Self) -> bool {
        *self == *other
    }

    proof fn prefix_free(&self, other: &Self, b: Seq<u8>) {
        lemma_varint_prefix(*self as nat, *other as nat, b);
    }

    fn put(&self, out: &mut Vec<u8>) {
        put_varint(out, *self as u64);
    }

    fn take(r: &mut ByteReader) -> (v: Option<Self>) {
        match take_varint(r, u16::MAX as u64) {
            Some(n) => Some(n as u16),
            None => None,
        }
    }
}

impl Wire for u32 {
    open spec fn bytes(&self) -> Seq<u8> {
        varint(*self as nat)
    }

    open spec fn same(&self, other: &Self) -> bool {
        *self == *other
    }

    proof fn prefix_free(&self, other: &Self, b: Seq<u8>) {
        lemma_varint_prefix(*self as nat, *other as nat, b);
    }

    fn put(&self, out: &mut Vec<u8>) {
        put_varint(out, *self as u64);
    }

    fn take(r: &mut ByteReader) -> (v: Option<Self>) {
        match take_varint(r, u32::MAX as u64) {
            Some(n) => Some(n as u32),
            None => None,
        }
    }
}

impl Wire for u64 {
    open spec fn bytes(&self) -> Seq<u8> {
        varint(*self as nat)
    }

    open spec fn same(&self, other: &Self) -> bool {
        *self == *other
    }

    proof fn prefix_free(&self, other: &Self, b: Seq<u8>) {
        lemma_varint_prefix(*self as nat, *other as nat, b);
    }

    fn put(&self, out: &mut Vec<u8>) {
        put_varint(out, *self);
    }

    fn take(r: &mut ByteReader) -> (v: Option<Self>) {
        take_varint(r, u64::MAX)
    }
}

/// The unsigned number that stands for a signed one: `0, -1, 1, -2, ..` become `0, 1, 2, 3, ..`.
pub open spec fn zigzag(n: int) -> nat {
    if n >= 0 {
        (2 * n) as nat
    } else {
        (-2 * n - 1) as nat
    }
}

/// The signed number that `z` stands for.
fn unzigzag(z: u64) -> (n: i64)
    ensures
        zigzag(n as int) == z,
        z <= u32::MAX ==> i32::MIN <= n <= i32::MAX,
{
    if z % 2 == 0 {
        (z / 2) as i64
    } else {
        -((z / 2) as i64) - 1
    }
}

/// The unsigned number that stands for `n`.
fn to_zigzag(n: i64) -> (z: u64)
    ensures
        z == zigzag(n as int),
{
    if n >= 0 {
        n as u64 * 2
    } else {
        (-(n + 1)) as u64 * 2 + 1
    }
}

impl Wire for i32 {
    open spec fn bytes(&self) -> Seq<u8> {
        varint(zigzag(*self as int))
    }

    open spec fn same(&self, other: &Self) -> bool {
        *self == *other
    }

    proof fn prefix_free(&self, other: &Self, b: Seq<u8>) {
        lemma_varint_prefix(zigzag(*self as int), zigzag(*other as int), b);
    }

    fn put(&self, out: &mut Vec<u8>) {
        put_varint(out, to_zigzag(*self as i64));
    }

    fn take(r: &mut ByteReader) -> (v: Option<Self>) {
        match take_varint(r, u32::MAX as u64) {
            Some(z) => Some(unzigzag(z) as i32),
            None => None,
        }
    }
}

impl Wire for i64 {
    open spec fn bytes(&self) -> Seq<u8> {
        varint(zigzag(*self as int))
    }

    open spec fn same(&self, other: &Self) -> bool {
        *self == *other
    }

    proof fn prefix_free(&self, other: &Self, b: Seq<u8>) {
        lemma_varint_prefix(zigzag(*self as int), zigzag(*other as int), b);
    }

    fn put(&self, out: &mut Vec<u8>) {
        put_varint(out, to_zigzag(*self));
    }

    fn take(r: &mut ByteReader) -> (v: Option<Self>) {
        match take_varint(r, u64::MAX) {
            Some(z) => Some(unzigzag(z)),
            None => None,
        }
    }
}

impl Wire for String {
    open spec fn bytes(&self) -> Seq<u8> {
        varint(crate::strings::utf8(self@).len()) + crate::strings::utf8(self@)
    }

    open spec fn same(&self, other: &Self) -> bool {
        self@ == other@
    }

    proof fn prefix_free(&self, other: &Self, b: Seq<u8>) {
        let p = crate::strings::utf8(self@);
        let q = crate::strings::utf8(other@);
        lemma_starts_both(b, varint(p.len()), p);
        lemma_starts_both(b, varint(q.len()), q);
        lemma_varint_prefix(p.len(), q.len(), b);
        crate::strings::lemma_utf8_injective(self@, other@);
    }

    fn put(&self, out: &mut Vec<u8>) {
        let ghost start = out@;
        let b: &[u8] = self.as_str().as_bytes();
        put_varint(out, b.len() as u64);
        put_bytes(out, b);
        assert((start + varint(b@.len())) + b@ == start + self.bytes());
    }

    fn take(r: &mut ByteReader) -> (v: Option<Self>) {
        let ghost rest = r.rest();
        let left: usize = r.left();
        let n: u64 = match take_varint(r, left as u64) {
            Some(n) => n,
            None => {
                proof {
                    assert forall|x: String| !starts(rest, #[trigger] x.bytes()) by {
                        let u = crate::strings::utf8(x@);
                        lemma_starts_both(rest, varint(u.len()), u);
                    }
                }
                return None;
            },
        };
        let ghost rest1 = r.rest();
        proof {
            lemma_starts(rest, varint(n as nat), rest1);
            assert forall|x: String| starts(rest, #[trigger] x.bytes()) implies {
                let u = crate::strings::utf8(x@);
                u.len() == n && starts(rest1, u) && crate::strings::decoded(u) == Some(x@)
            } by {
                let u = crate::strings::utf8(x@);
                lemma_starts_both(rest, varint(u.len()), u);
                lemma_varint_prefix(u.len(), n as nat, rest);
                crate::strings::lemma_decoded(x@);
            }
        }
        let part: &[u8] = match r.block(n as usize) {
            Some(part) => part,
            None => {
                return None;
            },
        };
        match decode_text(part) {
            Some(s) => {
                let t = s.to_owned();
                proof {
                    vstd::utf8::decode_utf8_encode_utf8(part@);
                    assert(rest1 == part@ + r.rest());
                    assert(rest == varint(n as nat) + part@ + r.rest());
                }
                Some(t)
            },
            None => None,
        }
    }
}

impl Wire for [u8; 16] {
    open spec fn bytes(&self) -> Seq<u8> {
        self@
    }

    open spec fn same(&self, other: &Self) -> bool {
        self@ == other@
    }

    proof fn prefix_free(&self, other: &Self, b: Seq<u8>) {
    }

    fn put(&self, out: &mut Vec<u8>) {
        put_bytes(out, self.as_slice());
    }

    fn take(r: &mut ByteReader) -> (v: Option<Self>) {
        let ghost rest = r.rest();
        let b: &[u8] = match r.block(16) {
            Some(b) => b,
            None => {
                return None;
            },
        };
        let a: [u8; 16] = [
            b[0],
            b[1],
            b[2],
            b[3],
            b[4],
            b[5],
            b[6],
            b[7],
            b[8],
            b[9],
            b[10],
            b[11],
            b[12],
            b[13],
            b[14],
            b[15],
        ];
        assert(a@ == b@);
        assert(rest == b@ + r.rest());
        Some(a)
    }
}

impl<A: Wire> Wire for Option<A> {
    open spec fn bytes(&self) -> Seq<u8> {
        match self {
            Some(x) => seq![1u8] + x.bytes(),
            None => seq![0u8],
        }
    }

    open spec fn same(&self, other: &Self) -> bool {
        match (self, other) {
            (Some(x), Some(y)) => x.same(y),
            (None, None) => true,
            _ => false,
        }
    }

    proof fn prefix_free(&self, other: &Self, b: Seq<u8>) {
        assert(b.take(self.bytes().len() as int)[0] == b[0]);
        assert(b.take(other.bytes().len() as int)[0] == b[0]);
        if let Some(x) = self {
            if let Some(y) = other {
                lemma_starts_both(b, seq![1u8], x.bytes());
                lemma_starts_both(b, seq![1u8], y.bytes());
                x.prefix_free(y, b.skip(1));
            }
        }
    }

    fn put(&self, out: &mut Vec<u8>) {
        let ghost start = out@;
        match self {
            Some(x) => {
                out.push(1);
                x.put(out);
                assert(start.push(1u8) + x.bytes() == start + (seq![1u8] + x.bytes()));
            },
            None => {
                out.push(0);
            },
        }
    }

    fn take(r: &mut ByteReader) -> (v: Option<Self>) {
        let ghost rest = r.rest();
        let b: u8 = match r.byte() {
            Some(b) => b,
            None => {
                return None;
            },
        };
        let ghost rest1 = r.rest();
        proof {
            assert(rest == seq![b] + rest1);
            assert forall|x: Self| starts(rest, #[trigger] x.bytes()) implies match x {
                Some(y) => b == 1 && starts(rest1, y.bytes()),
                None => b == 0,
            } by {
                assert(rest.take(x.bytes().len() as int)[0] == rest[0]);
                if let Some(y) = x {
                    lemma_starts_both(rest, seq![1u8], y.bytes());
                }
            }
        }
        if b == 0 {
            Some(None)
        } else if b == 1 {
            match A::take(r) {
                Some(x) => {
                    assert(rest == (seq![1u8] + x.bytes()) + r.rest());
                    Some(Some(x))
                },
                None => None,
            }
        } else {
            None
        }
    }
}

impl<A: Wire, B: Wire> Wire for (A, B) {
    open spec fn bytes(&self) -> Seq<u8> {
        self.0.bytes() + self.1.bytes()
    }

    open spec fn same(&self, other: &Self) -> bool {
        self.0.same(&other.0) && self.1.same(&other.1)
    }

    proof fn prefix_free(&self, other: &Self, b: Seq<u8>) {
        lemma_starts_both(b, self.0.bytes(), self.1.bytes());
        lemma_starts_both(b, other.0.bytes(), other.1.bytes());
        self.0.prefix_free(&other.0, b);
        self.1.prefix_free(&other.1, b.skip(self.0.bytes().len() as int));
    }

    fn put(&self, out: &mut Vec<u8>) {
        let ghost start = out@;
        self.0.put(out);
        self.1.put(out);
        proof {
            crate::lists::lemma_assoc(start, self.0.bytes(), self.1.bytes());
        }
    }

    fn take(r: &mut ByteReader) -> (v: Option<Self>) {
        let ghost rest = r.rest();
        let a = match A::take(r) {
            Some(a) => a,
            None => {
                proof {
                    assert forall|x: Self| !starts(rest, #[trigger] x.bytes()) by {
                        lemma_starts_both(rest, x.0.bytes(), x.1.bytes());
                    }
                }
                return None;
            },
        };
        let ghost rest1 = r.rest();
        match B::take(r) {
            Some(b) => {
                proof {
                    crate::lists::lemma_assoc(a.bytes(), b.bytes(), r.rest());
                }
                Some((a, b))
            },
            None => {
                proof {
                    lemma_starts(rest, a.bytes(), rest1);
                    assert forall|x: Self| !starts(rest, #[trigger] x.bytes()) by {
                        lemma_starts_both(rest, x.0.bytes(), x.1.bytes());
                        if starts(rest, x.0.bytes()) {
                            a.prefix_free(&x.0, rest);
                        }
                    }
                }
                None
            },
        }
    }
}

/// The encodings of the elements, one after the other.
pub open spec fn all_bytes<A: Wire>(s: Seq<A>) -> Seq<u8>
    decreases s.len(),
{
    if s.len() == 0 {
        Seq::empty()
    } else {
        s[0].bytes() + all_bytes(s.skip(1))
    }
}

/// Elements are written in order.
pub proof fn lemma_all_bytes_push<A: Wire>(s: Seq<A>, x: A)
    ensures
        all_bytes(s.push(x)) == all_bytes(s) + x.bytes(),
    decreases s.len(),
{
    if s.len() > 0 {
        lemma_all_bytes_push(s.skip(1), x);
        assert(s.push(x).skip(1) == s.skip(1).push(x));
        crate::lists::lemma_assoc(s[0].bytes(), all_bytes(s.skip(1)), x.bytes());
    } else {
        assert(s.push(x).skip(1) =~= Seq::<A>::empty());
        assert(all_bytes(Seq::<A>::empty()) == Seq::<u8>::empty());
    }
}

/// Where the bytes begin with the elements `s` and with the elements `t`, the shorter list begins
/// the longer one.
proof fn lemma_all_bytes_prefix<A: Wire>(s: Seq<A>, t: Seq<A>, b: Seq<u8>)
    requires
        s.len() <= t.len(),
        starts(b, all_bytes(s)),
        starts(b, all_bytes(t)),
    ensures
        forall|i: int| 0 <= i < s.len() ==> (#[trigger] s[i]).same(&t[i]),
        starts(b.skip(all_bytes(s).len() as int), all_bytes(t.skip(s.len() as int))),
        s.len() == t.len() ==> all_bytes(s) == all_bytes(t),
    decreases s.len(),
{
    if s.len() == 0 {
        assert(b.skip(0) == b);
        assert(t.skip(0) == t);
    } else {
        let n = s[0].bytes().len() as int;
        lemma_starts_both(b, s[0].bytes(), all_bytes(s.skip(1)));
        lemma_starts_both(b, t[0].bytes(), all_bytes(t.skip(1)));
        s[0].prefix_free(&t[0], b);
        lemma_all_bytes_prefix(s.skip(1), t.skip(1), b.skip(n));
        assert(t.skip(1).skip(s.len() - 1) == t.skip(s.len() as int));
        assert(b.skip(n).skip(all_bytes(s.skip(1)).len() as int) == b.skip(
            all_bytes(s).len() as int,
        ));
        assert forall|i: int| 0 <= i < s.len() implies (#[trigger] s[i]).same(&t[i]) by {
            if i > 0 {
                assert(s.skip(1)[i - 1].same(&t.skip(1)[i - 1]));
            }
        }
    }
}

impl<A: Wire> Wire for Vec<A> {
    open spec fn bytes(&self) -> Seq<u8> {
        varint(self@.len()) + all_bytes(self@)
    }

    open spec fn same(&self, other: &Self) -> bool {
        self@.len() == other@.len() && forall|i: int|
            0 <= i < self@.len() ==> (#[trigger] self@[i]).same(&other@[i])
    }

    proof fn prefix_free(&self, other: &Self, b: Seq<u8>) {
        lemma_starts_both(b, varint(self@.len()), all_bytes(self@));
        lemma_starts_both(b, varint(other@.len()), all_bytes(other@));
        lemma_varint_prefix(self@.len(), other@.len(), b);
        lemma_all_bytes_prefix(self@, other@, b.skip(varint(self@.len()).len() as int));
    }

    fn put(&self, out: &mut Vec<u8>) {
        let ghost start = out@;
        let len: usize = self.len();
        put_varint(out, len as u64);
        let ghost head = start + varint(len as nat);
        let mut i: usize = 0;
        assert(self@.take(0) =~= Seq::<A>::empty());
        while i < len
            invariant
                i <= len,
                len == self@.len(),
                out@ == head + all_bytes(self@.take(i as int)),
            decreases len - i,
        {
            self[i].put(out);
            proof {
                let x = self@[i as int];
                lemma_all_bytes_push(self@.take(i as int), x);
                assert(self@.take(i as int).push(x) == self@.take(i + 1));
                crate::lists::lemma_assoc(head, all_bytes(self@.take(i as int)), x.bytes());
            }
            i = i + 1;
        }
        proof {
            assert(self@.take(len as int) == self@);
            crate::lists::lemma_assoc(start, varint(len as nat), all_bytes(self@));
        }
    }

    fn take(r: &mut ByteReader) -> (v: Option<Self>) {
        let ghost rest = r.rest();
        let n: u64 = match take_varint(r, usize::MAX as u64) {
            Some(n) => n,
            None => {
                proof {
                    assert forall|x: Self| !starts(rest, #[trigger] x.bytes()) by {
                        assert(x@.len() == x.len());
                        lemma_starts_both(rest, varint(x@.len()), all_bytes(x@));
                    }
                }
                return None;
            },
        };
        let ghost rest1 = r.rest();
        let mut out: Vec<A> = Vec::new();
        let mut i: u64 = 0;
        assert(all_bytes(out@) + rest1 == rest1);
        while i < n
            invariant
                r.wf(),
                i <= n,
                i == out@.len(),
                rest == old(r).rest(),
                rest == varint(n as nat) + rest1,
                rest1 == all_bytes(out@) + r.rest(),
            decreases n - i,
        {
            let ghost here = r.rest();
            match A::take(r) {
                Some(x) => {
                    proof {
                        lemma_all_bytes_push(out@, x);
                        crate::lists::lemma_assoc(all_bytes(out@), x.bytes(), r.rest());
                    }
                    out.push(x);
                },
                None => {
                    proof {
                        lemma_starts(rest, varint(n as nat), rest1);
                        lemma_starts(rest1, all_bytes(out@), here);
                        assert forall|x: Self| !starts(rest, #[trigger] x.bytes()) by {
                            if starts(rest, x.bytes()) {
                                lemma_starts_both(rest, varint(x@.len()), all_bytes(x@));
                                lemma_varint_prefix(x@.len(), n as nat, rest);
                                lemma_all_bytes_prefix(out@, x@, rest1);
                                let more = x@.skip(i as int);
                                lemma_starts_both(here, more[0].bytes(), all_bytes(more.skip(1)));
                            }
                        }
                    }
                    return None;
                },
            }
            i = i + 1;
        }
        proof {
            crate::lists::lemma_assoc(varint(n as nat), all_bytes(out@), r.rest());
        }
        Some(out)
    }
}

/// Elements of at most `k` bytes each take at most `k` times their number.
pub proof fn lemma_all_bytes_len<A: Wire>(s: Seq<A>, k: nat)
    requires
        forall|i: int| 0 <= i < s.len() ==> (#[trigger] s[i]).bytes().len() <= k,
    ensures
        all_bytes(s).len() <= k * s.len(),
    decreases s.len(),
{
    if s.len() > 0 {
        assert forall|i: int| 0 <= i < s.len() - 1 implies (#[trigger] s.skip(1)[i]).bytes().len()
            <= k by {
            assert(s.skip(1)[i] == s[i + 1]);
        }
        lemma_all_bytes_len(s.skip(1), k);
        assert(k * s.len() == k + k * (s.len() - 1)) by (nonlinear_arith)
            requires
                s.len() > 0,
        ;
    } else {
        assert(k * s.len() == 0) by (nonlinear_arith)
            requires
                s.len() == 0,
        ;
    }
}

/// A variable-length number is written in base 128, the lowest digit first: every byte but the last
/// has its high bit set, and no byte is spent on a leading zero.
pub proof fn law_numbers_are_written_in_base_128(n: nat, k: nat)
    requires
        k < varint(n).len(),
    ensures
        varint(n)[k as int] % 128 == (n as int / vstd::arithmetic::power::pow(128, k)) % 128,
        varint(n)[k as int] >= 128 <==> k + 1 < varint(n).len(),
        varint(n).len() > 1 ==> varint(n).last() > 0,
        n > 0 ==> varint(n).last() > 0,
    decreases n,
{
    let b = varint(n);
    if n >= 128 {
        let rest = varint(n / 128);
        assert(b.last() == rest.last());
        assert(rest.len() > 0);
        if k == 0 {
            law_numbers_are_written_in_base_128(n / 128, 0);
            vstd::arithmetic::power::lemma_pow0(128);
            assert(b[0] == (n % 128 + 128) as u8);
        } else {
            let j = (k - 1) as nat;
            law_numbers_are_written_in_base_128(n / 128, j);
            reveal(vstd::arithmetic::power::pow);
            vstd::arithmetic::power::lemma_pow_positive(128, j);
            vstd::arithmetic::div_mod::lemma_div_denominator(
                n as int,
                128,
                vstd::arithmetic::power::pow(128, j),
            );
            assert(b[k as int] == rest[j as int]);
        }
    } else {
        vstd::arithmetic::power::lemma_pow0(128);
    }
}

/// Signed numbers take turns: zero comes first, and behind each number from zero up comes the
/// negative one that is as far from minus one.
pub proof fn law_signed_numbers_take_turns(n: int)
    requires
        n >= 0,
    ensures
        zigzag(0) == 0,
        zigzag(-n - 1) == zigzag(n) + 1,
        zigzag(n + 1) == zigzag(-n - 1) + 1,
{
}

} // verus!
