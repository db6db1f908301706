//! Sequence vocabulary shared by the modules.

use vstd::prelude::*;

verus! {

/// The last `cap` entries.
pub open spec fn newest<T>(s: Seq<T>, cap: nat) -> Seq<T> {
    if s.len() <= cap {
        s
    } else {
        s.skip(s.len() - cap)
    }
}

/// The characters of each string of a list.
pub open spec fn texts(v: Seq<String>) -> Seq<Seq<char>> {
    v.map_values(|s: String| s@)
}

/// Concatenation is associative.
pub proof fn lemma_assoc<T>(a: Seq<T>, b: Seq<T>, c: Seq<T>)
    ensures
        (a + b) + c == a + (b + c),
{
    assert((a + b) + c =~= a + (b + c));
}

/// A copy of a list of strings.
pub fn copy_texts(v: &Vec<String>) -> (r: Vec<String>)
    ensures
        texts(r@) == texts(v@),
{
    let mut out: Vec<String> = Vec::new();
    let mut i: usize = 0;
    while i < v.len()
        invariant
            i <= v@.len(),
            out@.len() == i,
            forall|j: int| 0 <= j < i ==> #[trigger] out@[j]@ == v@[j]@,
        decreases v@.len() - i,
    {
        out.push(v[i].clone());
        i = i + 1;
    }
    assert(texts(out@) =~= texts(v@));
    out
}

/// The sum of some numbers.
pub open spec fn total(s: Seq<int>) -> int {
    s.fold_left(0, |sum: int, x: int| sum + x)
}

/// The sum of a concatenation is the sum of the sums.
pub proof fn lemma_total_concat(a: Seq<int>, b: Seq<int>)
    ensures
        total(a + b) == total(a) + total(b),
    decreases b.len(),
{
    reveal_with_fuel(Seq::fold_left, 2);
    if b.len() == 0 {
        assert(a + b == a);
    } else {
        lemma_total_concat(a, b.drop_last());
        assert((a + b).drop_last() == a + b.drop_last());
        assert((a + b).last() == b.last());
    }
}

/// The sum of a single number.
pub proof fn lemma_total_one(x: int)
    ensures
        total(seq![x]) == x,
{
    reveal_with_fuel(Seq::fold_left, 2);
    assert(seq![x].drop_last() =~= Seq::empty());
}

} // verus!
