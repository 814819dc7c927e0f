//! What the operations on texts come down to.

use crate::text;
use vstd::prelude::*;

verus! {

/// White space, as ASCII has it: the space, the tab, the ends of lines and pages.
pub proof fn law_ascii_space(c: char)
    requires
        (c as u32) < 128,
    ensures
        text::is_space(c) <==> c == ' ' || c == '\t' || c == '\n' || c == '\r' || c as u32 == 11 || c as u32
            == 12,
{
    assert(' ' as u32 == 0x20 && '\t' as u32 == 9 && '\n' as u32 == 10 && '\r' as u32 == 13);
}

/// A text is space, what is left of it when it is trimmed, and space.
pub open spec fn framed(s: Seq<char>, i: int, j: int) -> bool {
    &&& 0 <= i <= j <= s.len()
    &&& forall|k: int| 0 <= k < i ==> text::is_space(#[trigger] s[k])
    &&& forall|k: int| j <= k < s.len() ==> text::is_space(#[trigger] s[k])
    &&& i < j ==> !text::is_space(s[i]) && !text::is_space(s[j - 1])
}

proof fn lemma_trim_start(s: Seq<char>) -> (i: int)
    ensures
        0 <= i <= s.len(),
        forall|k: int| 0 <= k < i ==> text::is_space(#[trigger] s[k]),
        i < s.len() ==> !text::is_space(s[i]),
        text::trim_start(s) == s.skip(i),
    decreases s.len(),
{
    if s.len() > 0 && text::is_space(s[0]) {
        let r = s.drop_first();
        let i = lemma_trim_start(r);
        assert forall|k: int| 0 <= k < i + 1 implies text::is_space(#[trigger] s[k]) by {
            if k > 0 {
                assert(s[k] == r[k - 1]);
            }
        }
        if i < r.len() {
            assert(s[i + 1] == r[i]);
        }
        assert(r.skip(i) =~= s.skip(i + 1));
        i + 1
    } else {
        assert(s.skip(0) =~= s);
        0
    }
}

proof fn lemma_trim_end(s: Seq<char>) -> (j: int)
    ensures
        0 <= j <= s.len(),
        forall|k: int| j <= k < s.len() ==> text::is_space(#[trigger] s[k]),
        0 < j ==> !text::is_space(s[j - 1]),
        text::trim_end(s) == s.take(j),
    decreases s.len(),
{
    if s.len() > 0 && text::is_space(s.last()) {
        let r = s.drop_last();
        let j = lemma_trim_end(r);
        assert forall|k: int| j <= k < s.len() implies text::is_space(#[trigger] s[k]) by {
            if k < r.len() {
                assert(s[k] == r[k]);
            }
        }
        if 0 < j {
            assert(s[j - 1] == r[j - 1]);
        }
        assert(r.take(j) =~= s.take(j));
        j
    } else {
        assert(s.take(s.len() as int) =~= s);
        s.len() as int
    }
}

/// Trimming takes the space off both ends and nothing else.
pub proof fn law_trimmed(s: Seq<char>)
    ensures
        exists|i: int, j: int| #[trigger] framed(s, i, j) && text::trimmed(s) == s.subrange(i, j),
        text::trimmed(text::trimmed(s)) == text::trimmed(s),
{
    let i = lemma_trim_start(s);
    let r = s.skip(i);
    let j = lemma_trim_end(r);
    assert(r.take(j) =~= s.subrange(i, i + j));
    assert forall|k: int| i + j <= k < s.len() implies text::is_space(#[trigger] s[k]) by {
        assert(s[k] == r[k - i]);
    }
    if 0 < j {
        assert(s[i] == r[0]);
        assert(s[i + j - 1] == r[j - 1]);
    }
    assert(framed(s, i, i + j));
    let t = text::trimmed(s);
    let a = lemma_trim_start(t);
    let b = lemma_trim_end(t.skip(a));
    if t.len() > 0 {
        assert(t[0] == s[i]);
        assert(t[t.len() - 1] == s[i + j - 1]);
        if a > 0 {
            assert(text::is_space(t[0]));
        }
        assert(t.skip(a) =~= t);
        if b < t.len() {
            assert(text::is_space(t[t.len() - 1]));
        }
    }
    assert(text::trimmed(t) =~= t);
}

/// A text begins with another if it is the other and something behind, ends with it if it is something
/// and the other, and contains it if it is something, the other, and something.
pub proof fn law_parts_of_texts(a: Seq<char>, p: Seq<char>, b: Seq<char>, s: Seq<char>)
    ensures
        text::begins_with(p + b, p),
        text::finishes_with(a + p, p),
        text::contains_text(a + p + b, p),
        text::begins_with(s, p) ==> s == p + s.skip(p.len() as int),
        text::finishes_with(s, p) ==> s == s.take(s.len() - p.len()) + p,
        text::contains_text(s, p) ==> exists|at: int|
            0 <= at && at + p.len() <= s.len() && s == s.take(at) + p + #[trigger] s.skip(at + p.len()),
{
    assert((p + b).subrange(0, p.len() as int) =~= p);
    assert((a + p).subrange(a.len() as int, (a + p).len() as int) =~= p);
    assert((a + p + b).subrange(a.len() as int, (a.len() + p.len()) as int) =~= p);
    assert(text::occurs_at(a + p + b, p, a.len() as int));
    if text::begins_with(s, p) {
        assert(s.subrange(0, p.len() as int) + s.skip(p.len() as int) =~= s);
    }
    if text::finishes_with(s, p) {
        assert(s.take(s.len() - p.len()) + s.subrange(s.len() - p.len(), s.len() as int) =~= s);
    }
    if text::contains_text(s, p) {
        let at = choose|at: int| text::occurs_at(s, p, at);
        assert(s.take(at) + s.subrange(at, at + p.len()) + s.skip(at + p.len()) =~= s);
    }
}

/// Replacing a character keeps the others, and their places.
pub proof fn law_replaced(s: Seq<char>, from: char, to: char, i: int)
    requires
        0 <= i < s.len(),
    ensures
        text::replaced(s, from, to).len() == s.len(),
        s[i] == from ==> text::replaced(s, from, to)[i] == to,
        s[i] != from ==> text::replaced(s, from, to)[i] == s[i],
{
}

/// The pieces put together again, with the separator between them.
pub open spec fn joined(p: Seq<Seq<char>>, sep: char) -> Seq<char>
    decreases p.len(),
{
    if p.len() == 0 {
        Seq::empty()
    } else if p.len() == 1 {
        p[0]
    } else {
        p[0] + seq![sep] + joined(p.skip(1), sep)
    }
}

/// The pieces of a text hold no separator, and are the text when they are put together again with the
/// separator between them.
pub proof fn law_pieces(s: Seq<char>, sep: char)
    ensures
        text::pieces(s, sep).len() > 0,
        forall|i: int| 0 <= i < text::pieces(s, sep).len() ==> !(#[trigger] text::pieces(s, sep)[i]).contains(sep),
        joined(text::pieces(s, sep), sep) == s,
    decreases s.len(),
{
    reveal_with_fuel(joined, 2);
    if s.len() > 0 {
        law_pieces(s.drop_first(), sep);
        let rest = text::pieces(s.drop_first(), sep);
        let p = text::pieces(s, sep);
        if s[0] == sep {
            assert(p =~= seq![Seq::<char>::empty()] + rest);
            assert(p.skip(1) =~= rest);
            assert(joined(p, sep) =~= s);
        } else {
            assert(p =~= rest.update(0, seq![s[0]] + rest[0]));
            assert(p.skip(1) =~= rest.skip(1));
            assert forall|i: int| 0 <= i < p.len() implies !(#[trigger] p[i]).contains(sep) by {
                if i > 0 {
                    assert(p[i] == rest[i]);
                } else if p[0].contains(sep) {
                    let k = choose|k: int| 0 <= k < p[0].len() && p[0][k] == sep;
                    assert(rest[0][k - 1] == sep);
                }
            }
            assert(joined(p, sep) =~= seq![s[0]] + joined(rest, sep));
            assert(s =~= seq![s[0]] + s.drop_first());
        }
    }
}

/// What stands before the first occurrence of a text.
pub proof fn law_before(s: Seq<char>, p: Seq<char>, at: int)
    ensures
        text::occurs_at(s, p, at) && (forall|k: int| 0 <= k < at ==> !text::occurs_at(s, p, k))
            ==> text::before(s, p) == s.take(at),
        p.len() > 0 && !text::contains_text(s, p) ==> text::before(s, p) == s,
    decreases s.len(),
{
    let occurs = text::occurs_at(s, p, at) && (forall|k: int| 0 <= k < at ==> !text::occurs_at(s, p, k));
    if s.len() == 0 {
        if occurs {
            assert(s.take(at) =~= text::before(s, p));
        }
    } else if text::begins_with(s, p) {
        if occurs {
            if at > 0 {
                assert(!text::occurs_at(s, p, 0));
            }
            assert(s.take(0) =~= Seq::empty());
        }
        assert(text::contains_text(s, p));
    } else {
        let r = s.skip(1);
        law_before(r, p, at - 1);
        assert forall|k: int| #![trigger text::occurs_at(r, p, k)] 0 <= k implies (text::occurs_at(r, p, k)
            <==> text::occurs_at(s, p, k + 1)) by {
            if k + p.len() <= r.len() {
                assert(r.subrange(k, k + p.len()) =~= s.subrange(k + 1, k + 1 + p.len()));
            }
        }
        if occurs {
            assert(at > 0);
            assert(text::occurs_at(r, p, at - 1));
            assert forall|k: int| 0 <= k < at - 1 implies !text::occurs_at(r, p, k) by {
                assert(!text::occurs_at(s, p, k + 1));
            }
            assert(seq![s[0]] + r.take(at - 1) =~= s.take(at));
        }
        if text::contains_text(r, p) {
            let k = choose|k: int| text::occurs_at(r, p, k);
            assert(text::occurs_at(s, p, k + 1));
        }
        assert(seq![s[0]] + r =~= s);
    }
}

/// What stands behind the last occurrence of a text.
pub proof fn law_after_last(s: Seq<char>, p: Seq<char>, at: int)
    ensures
        text::occurs_at(s, p, at) && (forall|k: int| at < k ==> !text::occurs_at(s, p, k)) ==> text::after_last(
            s,
            p,
        ) == s.skip(at + p.len()),
        p.len() > 0 && !text::contains_text(s, p) ==> text::after_last(s, p) == s,
    decreases s.len(),
{
    let occurs = text::occurs_at(s, p, at) && (forall|k: int| at < k ==> !text::occurs_at(s, p, k));
    if s.len() == 0 {
        if occurs {
            assert(s.skip(at + p.len()) =~= text::after_last(s, p));
        }
        assert(text::after_last(s, p) =~= s);
    } else if text::finishes_with(s, p) {
        if occurs {
            if at < s.len() - p.len() {
                assert(!text::occurs_at(s, p, s.len() - p.len()));
            }
            assert(s.skip(at + p.len()) =~= Seq::empty());
        }
        assert(text::contains_text(s, p));
    } else {
        let r = s.drop_last();
        law_after_last(r, p, at);
        assert forall|k: int| #![trigger text::occurs_at(r, p, k)] k + p.len() < s.len() implies (
        text::occurs_at(r, p, k) <==> text::occurs_at(s, p, k)) by {
            if 0 <= k {
                assert(r.subrange(k, k + p.len()) =~= s.subrange(k, k + p.len()));
            }
        }
        if occurs {
            assert(at + p.len() < s.len()) by {
                if at + p.len() == s.len() {
                    assert(text::finishes_with(s, p));
                }
            }
            assert forall|k: int| at < k implies !text::occurs_at(r, p, k) by {
                if k + p.len() < s.len() {
                    assert(!text::occurs_at(s, p, k));
                }
            }
            assert(text::occurs_at(r, p, at));
            assert(r.skip(at + p.len()).push(s.last()) =~= s.skip(at + p.len()));
        }
        if text::contains_text(r, p) {
            let k = choose|k: int| text::occurs_at(r, p, k);
            assert(text::occurs_at(s, p, k));
        }
        assert(r.push(s.last()) =~= s);
    }
}

/// Replacing a text: where it stands in front it goes, and the rest is replaced on its own; where it
/// stands nowhere nothing changes.
pub proof fn law_replaced_text(s: Seq<char>, p: Seq<char>, q: Seq<char>)
    requires
        p.len() > 0,
    ensures
        text::replaced_text(p + s, p, q) == q + text::replaced_text(s, p, q),
        s.len() > 0 && !text::begins_with(s, p) ==> text::replaced_text(s, p, q) == seq![s[0]]
            + text::replaced_text(s.skip(1), p, q),
        !text::contains_text(s, p) ==> text::replaced_text(s, p, q) == s,
    decreases s.len(),
{
    law_parts_of_texts(Seq::empty(), p, s, s);
    assert((p + s).skip(p.len() as int) =~= s);
    if s.len() > 0 && !text::contains_text(s, p) {
        let r = s.skip(1);
        law_replaced_text(r, p, q);
        assert(!text::begins_with(s, p)) by {
            if text::begins_with(s, p) {
                assert(text::occurs_at(s, p, 0));
            }
        }
        if text::contains_text(r, p) {
            let k = choose|k: int| text::occurs_at(r, p, k);
            assert(r.subrange(k, k + p.len()) =~= s.subrange(k + 1, k + 1 + p.len()));
            assert(text::occurs_at(s, p, k + 1));
        }
        assert(seq![s[0]] + r =~= s);
    }
}

/// Stripping takes a character off both ends, as often as it stands there, and nothing else.
pub proof fn law_stripped(s: Seq<char>, c: char)
    ensures
        text::stripped(s, c).len() > 0 ==> text::stripped(s, c)[0] != c && text::stripped(s, c).last() != c,
        exists|i: int, j: int|
            0 <= i <= j <= s.len() && #[trigger] s.subrange(i, j) == text::stripped(s, c) && (forall|k: int|
                0 <= k < i || j <= k < s.len() ==> #[trigger] s[k] == c),
{
    let i = lemma_strip_front(s, c);
    let r = s.skip(i);
    let j = lemma_strip_back(r, c);
    assert(s.subrange(i, i + j) =~= r.take(j));
    assert forall|k: int| 0 <= k < i || i + j <= k < s.len() implies #[trigger] s[k] == c by {
        if k >= i {
            assert(s[k] == r[k - i]);
        }
    }
}

proof fn lemma_strip_front(s: Seq<char>, c: char) -> (i: int)
    ensures
        0 <= i <= s.len(),
        forall|k: int| 0 <= k < i ==> #[trigger] s[k] == c,
        i < s.len() ==> s[i] != c,
        text::strip_front(s, c) == s.skip(i),
    decreases s.len(),
{
    if s.len() > 0 && s[0] == c {
        let r = s.drop_first();
        let i = lemma_strip_front(r, c);
        assert forall|k: int| 0 <= k < i + 1 implies #[trigger] s[k] == c by {
            if k > 0 {
                assert(s[k] == r[k - 1]);
            }
        }
        if i < r.len() {
            assert(s[i + 1] == r[i]);
        }
        assert(r.skip(i) =~= s.skip(i + 1));
        i + 1
    } else {
        assert(s.skip(0) =~= s);
        0
    }
}

proof fn lemma_strip_back(s: Seq<char>, c: char) -> (j: int)
    ensures
        0 <= j <= s.len(),
        forall|k: int| j <= k < s.len() ==> #[trigger] s[k] == c,
        0 < j ==> s[j - 1] != c,
        text::strip_back(s, c) == s.take(j),
    decreases s.len(),
{
    if s.len() > 0 && s.last() == c {
        let r = s.drop_last();
        let j = lemma_strip_back(r, c);
        assert forall|k: int| j <= k < s.len() implies #[trigger] s[k] == c by {
            if k < r.len() {
                assert(s[k] == r[k]);
            }
        }
        assert(r.take(j) =~= s.take(j));
        j
    } else {
        assert(s.take(s.len() as int) =~= s);
        s.len() as int
    }
}

/// Taking an ending off as often as it stands there leaves a text that does not end with it, with so
/// many endings behind it as were taken off.
pub proof fn law_without_endings(s: Seq<char>, p: Seq<char>)
    requires
        p.len() > 0,
    ensures
        !text::finishes_with(text::without_endings(s, p), p),
        !text::finishes_with(s, p) ==> text::without_endings(s, p) == s,
        text::without_endings(s + p, p) == text::without_endings(s, p),
        text::without_endings(s, p).len() <= s.len(),
        text::without_endings(s, p) == s.take(text::without_endings(s, p).len() as int),
    decreases s.len(),
{
    law_parts_of_texts(s, p, Seq::empty(), s);
    assert((s + p).take(s.len() as int) =~= s);
    if text::finishes_with(s, p) {
        let r = s.take(s.len() - p.len());
        law_without_endings(r, p);
        let n = text::without_endings(r, p).len() as int;
        assert(r.take(n) =~= s.take(n));
    } else {
        assert(s.take(s.len() as int) =~= s);
    }
}

} // verus!
