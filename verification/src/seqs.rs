//! Sequences: the first element of a kind, and those of a kind.

use vstd::prelude::*;

verus! {

/// The first element of `s` for which `p` holds.
pub open spec fn first_such<A>(s: Seq<A>, p: spec_fn(A) -> bool) -> Option<A>
    decreases s.len(),
{
    if s.len() == 0 {
        None
    } else if p(s[0]) {
        Some(s[0])
    } else {
        first_such(s.drop_first(), p)
    }
}

/// The element at `i` is the first for which `p` holds.
pub proof fn lemma_first_found<A>(s: Seq<A>, p: spec_fn(A) -> bool, i: int)
    requires
        0 <= i < s.len(),
        p(s[i]),
        forall|j: int| 0 <= j < i ==> !p(#[trigger] s[j]),
    ensures
        first_such(s, p) == Some(s[i]),
    decreases s.len(),
{
    if i > 0 {
        assert(!p(s[0]));
        assert forall|j: int| 0 <= j < i - 1 implies !p(#[trigger] s.drop_first()[j]) by {
            assert(s.drop_first()[j] == s[j + 1]);
        }
        lemma_first_found(s.drop_first(), p, i - 1);
    }
}

/// No element for which `p` holds, no first one.
pub proof fn lemma_first_none<A>(s: Seq<A>, p: spec_fn(A) -> bool)
    requires
        forall|j: int| 0 <= j < s.len() ==> !p(#[trigger] s[j]),
    ensures
        first_such(s, p) is None,
    decreases s.len(),
{
    if s.len() > 0 {
        assert(!p(s[0]));
        assert forall|j: int| 0 <= j < s.drop_first().len() implies !p(
            #[trigger] s.drop_first()[j],
        ) by {
            assert(s.drop_first()[j] == s[j + 1]);
        }
        lemma_first_none(s.drop_first(), p);
    }
}

/// What the first element for which `p` holds is like, and when there is none.
pub proof fn lemma_first_is<A>(s: Seq<A>, p: spec_fn(A) -> bool)
    ensures
        match first_such(s, p) {
            Some(a) => p(a) && s.contains(a),
            None => forall|j: int| 0 <= j < s.len() ==> !p(#[trigger] s[j]),
        },
    decreases s.len(),
{
    if s.len() > 0 {
        if p(s[0]) {
            assert(s.contains(s[0]));
        } else {
            lemma_first_is(s.drop_first(), p);
            match first_such(s.drop_first(), p) {
                Some(a) => {
                    let j = choose|j: int|
                        0 <= j < s.drop_first().len() && s.drop_first()[j] == a;
                    assert(s[j + 1] == a);
                },
                None => {
                    assert forall|j: int| 0 <= j < s.len() implies !p(#[trigger] s[j]) by {
                        if j > 0 {
                            assert(s.drop_first()[j - 1] == s[j]);
                        }
                    }
                },
            }
        }
    }
}

/// One more element is kept or left out.
pub proof fn lemma_filter_step<A>(s: Seq<A>, p: spec_fn(A) -> bool, i: int)
    requires
        0 <= i < s.len(),
    ensures
        s.take(i + 1).filter(p) == (if p(s[i]) {
            s.take(i).filter(p).push(s[i])
        } else {
            s.take(i).filter(p)
        }),
{
    reveal(Seq::filter);
    assert(s.take(i + 1).drop_last() =~= s.take(i));
    assert(s.take(i + 1).last() == s[i]);
}

/// Nothing in front, nothing kept; all in front, all kept.
pub proof fn lemma_filter_ends<A>(s: Seq<A>, p: spec_fn(A) -> bool)
    ensures
        s.take(0).filter(p) == Seq::<A>::empty(),
        s.take(s.len() as int).filter(p) == s.filter(p),
{
    reveal(Seq::filter);
    assert(s.take(0) =~= Seq::<A>::empty());
    assert(s.take(s.len() as int) =~= s);
}

} // verus!
