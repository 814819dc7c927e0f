//! Order on texts, and sorting.

use crate::hex::code_of;
use crate::text;
use crate::text::chars_of;
use vstd::prelude::*;

verus! {

/// `a` comes before `b`, or is `b`, in the order of code points.
pub open spec fn text_le(a: Seq<char>, b: Seq<char>) -> bool
    decreases a.len(),
{
    if a.len() == 0 {
        true
    } else if b.len() == 0 {
        false
    } else if a[0] != b[0] {
        (a[0] as int) < (b[0] as int)
    } else {
        text_le(a.drop_first(), b.drop_first())
    }
}

/// One of two texts comes first.
pub proof fn lemma_text_le_total(a: Seq<char>, b: Seq<char>)
    ensures
        text_le(a, b) || text_le(b, a),
    decreases a.len(),
{
    if a.len() == 0 {
        assert(text_le(a, b));
    } else if b.len() == 0 {
        assert(text_le(b, a));
    } else if a[0] == b[0] {
        lemma_text_le_total(a.drop_first(), b.drop_first());
    }
}

/// The order carries over.
pub proof fn lemma_text_le_transitive(a: Seq<char>, b: Seq<char>, c: Seq<char>)
    requires
        text_le(a, b),
        text_le(b, c),
    ensures
        text_le(a, c),
    decreases a.len(),
{
    if a.len() > 0 && b.len() > 0 && c.len() > 0 && a[0] == b[0] && b[0] == c[0] {
        lemma_text_le_transitive(a.drop_first(), b.drop_first(), c.drop_first());
    }
}

/// Two texts of which each comes before the other are one.
pub proof fn lemma_text_le_antisymmetric(a: Seq<char>, b: Seq<char>)
    requires
        text_le(a, b),
        text_le(b, a),
    ensures
        a == b,
    decreases a.len(),
{
    if a.len() > 0 && b.len() > 0 {
        lemma_text_le_antisymmetric(a.drop_first(), b.drop_first());
        assert(a =~= seq![a[0]] + a.drop_first());
        assert(b =~= seq![b[0]] + b.drop_first());
    } else {
        assert(a =~= b);
    }
}

/// Whether `a` comes before `b` or is `b`.
pub fn text_not_after(a: &str, b: &str) -> (r: bool)
    ensures
        r == text_le(a@, b@),
{
    let x = chars_of(a);
    let y = chars_of(b);
    let mut i: usize = 0;
    assert(x@.skip(0) =~= x@ && y@.skip(0) =~= y@);
    while i < x.len() && i < y.len() && x[i] == y[i]
        invariant
            x@ == a@,
            y@ == b@,
            i <= x.len(),
            i <= y.len(),
            text_le(a@, b@) == text_le(x@.skip(i as int), y@.skip(i as int)),
        decreases x.len() - i,
    {
        assert(x@.skip(i as int).drop_first() =~= x@.skip(i + 1));
        assert(y@.skip(i as int).drop_first() =~= y@.skip(i + 1));
        i = i + 1;
    }
    if i >= x.len() {
        true
    } else if i >= y.len() {
        false
    } else {
        code_of(x[i]) < code_of(y[i])
    }
}

/// No text comes after a later one.
pub open spec fn texts_sorted(s: Seq<Seq<char>>) -> bool {
    forall|i: int, j: int| 0 <= i < j < s.len() ==> text_le(#[trigger] s[i], #[trigger] s[j])
}

/// Sorts texts.
pub fn sort_texts(v: Vec<String>) -> (r: Vec<String>)
    ensures
        texts_sorted(text::texts(r@)),
        text::texts(r@).to_multiset() == text::texts(v@).to_multiset(),
        r@.len() == v@.len(),
{
    let mut out: Vec<String> = Vec::new();
    let mut i: usize = 0;
    proof {
        assert(text::texts(out@) =~= Seq::<Seq<char>>::empty());
        assert(text::texts(v@).take(0) =~= Seq::<Seq<char>>::empty());
    }
    while i < v.len()
        invariant
            i <= v.len(),
            out.len() == i,
            texts_sorted(text::texts(out@)),
            text::texts(out@).to_multiset() == text::texts(v@).take(i as int).to_multiset(),
        decreases v.len() - i,
    {
        let ghost s0 = text::texts(out@);
        let ghost x = text::texts(v@)[i as int];
        let mut k: usize = 0;
        while k < out.len() && text_not_after(out[k].as_str(), v[i].as_str())
            invariant
                i < v.len(),
                k <= out.len(),
                s0 == text::texts(out@),
                x == v@[i as int]@,
                forall|j: int| 0 <= j < k ==> text_le(#[trigger] s0[j], x),
            decreases out.len() - k,
        {
            assert(s0[k as int] == out@[k as int]@);
            k = k + 1;
        }
        out.insert(k, v[i].clone());
        proof {
            let s1 = text::texts(out@);
            assert(s1 =~= s0.insert(k as int, x));
            vstd::seq_lib::to_multiset_insert(s0, k as int, x);
            vstd::seq_lib::to_multiset_build(text::texts(v@).take(i as int), x);
            assert(text::texts(v@).take(i + 1) =~= text::texts(v@).take(i as int).push(x));
            assert forall|p: int, q: int| 0 <= p < q < s1.len() implies text_le(
                #[trigger] s1[p],
                #[trigger] s1[q],
            ) by {
                let p0 = if p < k { p } else { p - 1 };
                let q0 = if q < k { q } else { q - 1 };
                if p == k {
                    assert(s1[q] == s0[q0]);
                    lemma_text_le_total(s0[k as int], x);
                    if q0 > k {
                        assert(text_le(s0[k as int], s0[q0]));
                        lemma_text_le_transitive(x, s0[k as int], s0[q0]);
                    }
                } else if q == k {
                    assert(s1[p] == s0[p0]);
                } else {
                    assert(s1[p] == s0[p0] && s1[q] == s0[q0]);
                }
            }
        }
        i = i + 1;
    }
    assert(text::texts(v@).take(v@.len() as int) =~= text::texts(v@));
    out
}

/// A sequence with the items of another, none twice, has none twice and holds the same.
pub proof fn lemma_same_items(a: Seq<Seq<char>>, b: Seq<Seq<char>>)
    requires
        a.to_multiset() == b.to_multiset(),
        a.no_duplicates(),
    ensures
        b.no_duplicates(),
        forall|p: Seq<char>| #[trigger] b.contains(p) <==> a.contains(p),
{
    broadcast use vstd::seq_lib::group_to_multiset_ensures;

    a.lemma_multiset_has_no_duplicates();
    b.lemma_multiset_has_no_duplicates_conv();
    assert forall|p: Seq<char>| #[trigger] b.contains(p) <==> a.contains(p) by {
        assert(a.contains(p) <==> a.to_multiset().count(p) > 0);
        assert(b.contains(p) <==> b.to_multiset().count(p) > 0);
    }
}

/// Numbers in ascending order.
pub open spec fn ascending(s: Seq<u64>) -> bool {
    forall|i: int, j: int| 0 <= i < j < s.len() ==> s[i] <= s[j]
}

/// Numbers in strictly ascending order.
pub open spec fn strictly_ascending(s: Seq<u64>) -> bool {
    forall|i: int, j: int| 0 <= i < j < s.len() ==> s[i] < s[j]
}

/// Puts `x` into an ascending list, keeping it ascending.
pub fn insert_sorted(v: &mut Vec<u64>, x: u64)
    requires
        ascending(old(v)@),
    ensures
        ascending(final(v)@),
        exists|k: int| 0 <= k <= old(v)@.len() && final(v)@ == #[trigger] old(v)@.insert(k, x),
{
    let mut k: usize = 0;
    while k < v.len() && v[k] <= x
        invariant
            k <= v.len(),
            forall|j: int| 0 <= j < k ==> v@[j] <= x,
        decreases v.len() - k,
    {
        k = k + 1;
    }
    v.insert(k, x);
}

} // verus!
