//! Text as a sequence of characters: building, comparing, searching and cutting.

use vstd::prelude::*;

verus! {

/// `String::push` appends one character.
pub assume_specification[ String::push ](s: &mut String, c: char)
    ensures
        final(s)@ == old(s)@.push(c),
;

/// The characters of `s`, in order.
pub fn chars_of(s: &str) -> (r: Vec<char>)
    ensures
        r@ == s@,
{
    broadcast use vstd::string::axiom_spec_iter;

    let mut out: Vec<char> = Vec::new();
    for c in it: s.chars()
        invariant
            it.seq() == s@,
            out@ == s@.take(it.index()),
    {
        out.push(c);
        assert(out@ =~= s@.take(it.index() + 1));
    }
    assert(s@.take(s@.len() as int) =~= s@);
    out
}

/// The text made of `cs`.
pub fn text_of(cs: &Vec<char>) -> (r: String)
    ensures
        r@ == cs@,
{
    let mut out = String::new();
    let mut i: usize = 0;
    while i < cs.len()
        invariant
            i <= cs.len(),
            out@ == cs@.take(i as int),
        decreases cs.len() - i,
    {
        out.push(cs[i]);
        assert(cs@.take(i as int).push(cs@[i as int]) =~= cs@.take(i + 1));
        i = i + 1;
    }
    assert(cs@.take(cs@.len() as int) =~= cs@);
    out
}

/// A copy of `s`.
pub fn owned(s: &str) -> (r: String)
    ensures
        r@ == s@,
{
    s.to_owned()
}

/// Appends `t` to `s`.
pub fn append_text(s: &mut String, t: &str)
    ensures
        final(s)@ == old(s)@ + t@,
{
    let cs = chars_of(t);
    let ghost s0 = s@;
    let mut i: usize = 0;
    while i < cs.len()
        invariant
            i <= cs.len(),
            s@ == s0 + cs@.take(i as int),
        decreases cs.len() - i,
    {
        s.push(cs[i]);
        assert(s@ =~= s0 + cs@.take(i + 1));
        i = i + 1;
    }
    assert(cs@.take(cs@.len() as int) =~= cs@);
}

/// Whether two texts hold the same characters.
pub fn same_text(a: &str, b: &str) -> (r: bool)
    ensures
        r == (a@ == b@),
{
    let x = a.to_owned();
    let y = b.to_owned();
    x.eq(&y)
}

/// Whether two byte strings are equal.
pub fn same_bytes(a: &Vec<u8>, b: &Vec<u8>) -> (r: bool)
    ensures
        r == (a@ == b@),
{
    if a.len() != b.len() {
        return false;
    }
    let mut i: usize = 0;
    while i < a.len()
        invariant
            a.len() == b.len(),
            i <= a.len(),
            forall|k: int| 0 <= k < i ==> a@[k] == b@[k],
        decreases a.len() - i,
    {
        if a[i] != b[i] {
            return false;
        }
        i = i + 1;
    }
    assert(a@ =~= b@);
    true
}

/// A copy of the bytes `a`.
pub fn copy_bytes(a: &Vec<u8>) -> (r: Vec<u8>)
    ensures
        r@ == a@,
{
    let mut out: Vec<u8> = Vec::new();
    let mut i: usize = 0;
    while i < a.len()
        invariant
            i <= a.len(),
            out@ == a@.take(i as int),
        decreases a.len() - i,
    {
        out.push(a[i]);
        assert(out@ =~= a@.take(i + 1));
        i = i + 1;
    }
    assert(a@.take(a@.len() as int) =~= a@);
    out
}

/// `s` has `p` at position `at`.
pub open spec fn occurs_at(s: Seq<char>, p: Seq<char>, at: int) -> bool {
    &&& 0 <= at
    &&& at + p.len() <= s.len()
    &&& s.subrange(at, at + p.len()) == p
}

/// `s` begins with `p`.
pub open spec fn begins_with(s: Seq<char>, p: Seq<char>) -> bool {
    occurs_at(s, p, 0)
}

/// `s` ends with `p`.
pub open spec fn finishes_with(s: Seq<char>, p: Seq<char>) -> bool {
    occurs_at(s, p, s.len() - p.len())
}

/// `p` occurs somewhere in `s`.
pub open spec fn contains_text(s: Seq<char>, p: Seq<char>) -> bool {
    exists|at: int| occurs_at(s, p, at)
}

/// Whether `p` stands in `s` at position `at`.
pub fn chars_occur_at(s: &Vec<char>, p: &Vec<char>, at: usize) -> (r: bool)
    ensures
        r == occurs_at(s@, p@, at as int),
{
    if at > s.len() || p.len() > s.len() - at {
        return false;
    }
    let mut i: usize = 0;
    while i < p.len()
        invariant
            at + p.len() <= s.len(),
            i <= p.len(),
            forall|k: int| 0 <= k < i ==> s@[at + k] == p@[k],
        decreases p.len() - i,
    {
        if s[at + i] != p[i] {
            assert(s@.subrange(at as int, at + p@.len())[i as int] != p@[i as int]);
            return false;
        }
        i = i + 1;
    }
    assert(s@.subrange(at as int, at + p@.len()) =~= p@);
    true
}

/// Whether `s` begins with `p`.
pub fn text_begins_with(s: &str, p: &str) -> (r: bool)
    ensures
        r == begins_with(s@, p@),
{
    chars_occur_at(&chars_of(s), &chars_of(p), 0)
}

/// Whether `s` ends with `p`.
pub fn text_finishes_with(s: &str, p: &str) -> (r: bool)
    ensures
        r == finishes_with(s@, p@),
{
    let cs = chars_of(s);
    let ps = chars_of(p);
    if ps.len() > cs.len() {
        return false;
    }
    chars_occur_at(&cs, &ps, cs.len() - ps.len())
}

/// Whether `p` occurs in `s`.
pub fn text_contains(s: &str, p: &str) -> (r: bool)
    ensures
        r == contains_text(s@, p@),
{
    let cs = chars_of(s);
    let ps = chars_of(p);
    if ps.len() > cs.len() {
        return false;
    }
    let last: usize = cs.len() - ps.len();
    let mut i: usize = 0;
    while i <= last
        invariant
            cs@ == s@,
            ps@ == p@,
            i <= last + 1,
            last + ps.len() == cs.len(),
            forall|k: int| 0 <= k < i ==> !occurs_at(s@, p@, k),
        decreases last + 1 - i,
    {
        if chars_occur_at(&cs, &ps, i) {
            return true;
        }
        if i == last {
            assert forall|k: int| !occurs_at(s@, p@, k) by {
                if k == i {
                } else if k < i {
                } else {
                }
            }
            return false;
        }
        i = i + 1;
    }
    false
}

/// The characters of `cs` from `from` up to `to`.
pub fn cut(cs: &Vec<char>, from: usize, to: usize) -> (r: Vec<char>)
    requires
        from <= to <= cs.len(),
    ensures
        r@ == cs@.subrange(from as int, to as int),
{
    let mut out: Vec<char> = Vec::new();
    let mut i: usize = from;
    while i < to
        invariant
            from <= i <= to <= cs.len(),
            out@ == cs@.subrange(from as int, i as int),
        decreases to - i,
    {
        out.push(cs[i]);
        assert(out@ =~= cs@.subrange(from as int, i + 1));
        i = i + 1;
    }
    out
}

/// The characters with the White_Space property.
pub open spec fn is_space(c: char) -> bool {
    let n = c as u32;
    ||| 0x9 <= n <= 0xd
    ||| n == 0x20
    ||| n == 0x85
    ||| n == 0xa0
    ||| n == 0x1680
    ||| 0x2000 <= n <= 0x200a
    ||| n == 0x2028
    ||| n == 0x2029
    ||| n == 0x202f
    ||| n == 0x205f
    ||| n == 0x3000
}

/// Whether `c` is white space.
pub fn char_is_space(c: char) -> (r: bool)
    ensures
        r == is_space(c),
{
    let n: u32 = c as u32;
    (0x9 <= n && n <= 0xd) || n == 0x20 || n == 0x85 || n == 0xa0 || n == 0x1680 || (0x2000 <= n
        && n <= 0x200a) || n == 0x2028 || n == 0x2029 || n == 0x202f || n == 0x205f || n == 0x3000
}

/// `s` without leading white space.
pub open spec fn trim_start(s: Seq<char>) -> Seq<char>
    decreases s.len(),
{
    if s.len() > 0 && is_space(s[0]) {
        trim_start(s.drop_first())
    } else {
        s
    }
}

/// `s` without trailing white space.
pub open spec fn trim_end(s: Seq<char>) -> Seq<char>
    decreases s.len(),
{
    if s.len() > 0 && is_space(s.last()) {
        trim_end(s.drop_last())
    } else {
        s
    }
}

/// `s` without white space at either end.
pub open spec fn trimmed(s: Seq<char>) -> Seq<char> {
    trim_end(trim_start(s))
}

/// `s` without leading white space.
pub fn chars_trim_start(s: &Vec<char>) -> (r: Vec<char>)
    ensures
        r@ == trim_start(s@),
{
    let mut i: usize = 0;
    assert(s@.skip(0) =~= s@);
    while i < s.len() && char_is_space(s[i])
        invariant
            i <= s.len(),
            trim_start(s@) == trim_start(s@.skip(i as int)),
        decreases s.len() - i,
    {
        assert(s@.skip(i as int).drop_first() =~= s@.skip(i + 1));
        i = i + 1;
    }
    assert(s@.skip(i as int) =~= s@.subrange(i as int, s@.len() as int));
    cut(s, i, s.len())
}

/// `s` without trailing white space.
pub fn chars_trim_end(s: &Vec<char>) -> (r: Vec<char>)
    ensures
        r@ == trim_end(s@),
{
    let mut n: usize = s.len();
    assert(s@.take(n as int) =~= s@);
    while n > 0 && char_is_space(s[n - 1])
        invariant
            n <= s.len(),
            trim_end(s@) == trim_end(s@.take(n as int)),
        decreases n,
    {
        assert(s@.take(n as int).drop_last() =~= s@.take(n - 1));
        n = n - 1;
    }
    assert(s@.take(n as int) =~= s@.subrange(0, n as int));
    cut(s, 0, n)
}

/// `s` without white space at either end.
pub fn text_trim(s: &str) -> (r: String)
    ensures
        r@ == trimmed(s@),
{
    text_of(&chars_trim_end(&chars_trim_start(&chars_of(s))))
}

/// `s` with every `from` replaced by `to`.
pub open spec fn replaced(s: Seq<char>, from: char, to: char) -> Seq<char> {
    s.map_values(
        |c: char|
            if c == from {
                to
            } else {
                c
            },
    )
}

/// `s` with every `from` replaced by `to`.
pub fn chars_replace(s: &Vec<char>, from: char, to: char) -> (r: Vec<char>)
    ensures
        r@ == replaced(s@, from, to),
{
    let mut out: Vec<char> = Vec::new();
    let mut i: usize = 0;
    while i < s.len()
        invariant
            i <= s.len(),
            out.len() == i,
            forall|k: int| 0 <= k < i ==> out@[k] == replaced(s@, from, to)[k],
        decreases s.len() - i,
    {
        if s[i] == from {
            out.push(to);
        } else {
            out.push(s[i]);
        }
        i = i + 1;
    }
    assert(out@ =~= replaced(s@, from, to));
    out
}

/// The pieces of `s` between occurrences of `sep`.
pub open spec fn pieces(s: Seq<char>, sep: char) -> Seq<Seq<char>>
    decreases s.len(),
{
    if s.len() == 0 {
        seq![Seq::<char>::empty()]
    } else {
        let rest = pieces(s.drop_first(), sep);
        if s[0] == sep {
            seq![Seq::<char>::empty()] + rest
        } else {
            seq![seq![s[0]] + rest[0]] + rest.skip(1)
        }
    }
}

/// The character sequences that the vectors of `v` hold.
pub open spec fn chars_views(v: Seq<Vec<char>>) -> Seq<Seq<char>> {
    v.map_values(|w: Vec<char>| w@)
}

/// The texts that the strings of `v` hold.
pub open spec fn texts(v: Seq<String>) -> Seq<Seq<char>> {
    v.map_values(|w: String| w@)
}

/// There is always at least one piece.
pub proof fn lemma_pieces_nonempty(s: Seq<char>, sep: char)
    ensures
        pieces(s, sep).len() >= 1,
    decreases s.len(),
{
    if s.len() > 0 {
        lemma_pieces_nonempty(s.drop_first(), sep);
    }
}

/// A text without `sep` in front of `sep` and a rest is the first piece, the rest's pieces follow.
pub proof fn lemma_pieces_of_joined(a: Seq<char>, sep: char, rest: Seq<char>)
    requires
        !a.contains(sep),
    ensures
        pieces(a + seq![sep] + rest, sep) == seq![a] + pieces(rest, sep),
    decreases a.len(),
{
    let s = a + seq![sep] + rest;
    if a.len() == 0 {
        assert(s.drop_first() =~= rest);
        assert(a =~= Seq::<char>::empty());
    } else {
        let b = a.drop_first();
        assert forall|i: int| 0 <= i < b.len() implies b[i] != sep by {
            assert(a[i + 1] == b[i]);
            assert(a.contains(a[i + 1]));
        }
        lemma_pieces_of_joined(b, sep, rest);
        assert(s.drop_first() =~= b + seq![sep] + rest);
        assert(a.contains(a[0]));
        assert(seq![s[0]] + b =~= a);
        assert((seq![b] + pieces(rest, sep)).skip(1) =~= pieces(rest, sep));
    }
}

/// A text without `sep` is its own only piece.
pub proof fn lemma_pieces_of_whole(a: Seq<char>, sep: char)
    requires
        !a.contains(sep),
    ensures
        pieces(a, sep) == seq![a],
    decreases a.len(),
{
    if a.len() > 0 {
        let b = a.drop_first();
        assert forall|i: int| 0 <= i < b.len() implies b[i] != sep by {
            assert(a[i + 1] == b[i]);
            assert(a.contains(a[i + 1]));
        }
        lemma_pieces_of_whole(b, sep);
        assert(a.contains(a[0]));
        assert(seq![a[0]] + b =~= a);
        assert(seq![b].skip(1) =~= Seq::<Seq<char>>::empty());
        assert(pieces(a, sep) =~= seq![a]);
    } else {
        assert(a =~= Seq::<char>::empty());
    }
}

/// Splits a character sequence at every `sep`.
pub fn chars_split(s: &Vec<char>, sep: char) -> (r: Vec<Vec<char>>)
    ensures
        chars_views(r@) == pieces(s@, sep),
{
    // The pieces are built back to front; each is itself built back to front.
    let mut out: Vec<Vec<char>> = Vec::new();
    let mut start: usize = 0;
    let mut i: usize = 0;
    proof {
        assert(s@.skip(0) =~= s@);
        lemma_pieces_nonempty(s@, sep);
        let p = pieces(s@, sep);
        assert(chars_views(out@) + (seq![Seq::<char>::empty() + p[0]] + p.skip(1)) =~= p);
        assert(s@.subrange(0, 0) =~= Seq::<char>::empty());
    }
    while i < s.len()
        invariant
            start <= i <= s.len(),
            chars_views(out@) + (seq![s@.subrange(start as int, i as int) + pieces(
                s@.skip(i as int),
                sep,
            )[0]] + pieces(s@.skip(i as int), sep).skip(1)) == pieces(s@, sep),
        decreases s.len() - i,
    {
        let ghost tail = pieces(s@.skip(i + 1), sep);
        let ghost cur = s@.subrange(start as int, i as int);
        proof {
            assert(s@.skip(i as int).drop_first() =~= s@.skip(i + 1));
            lemma_pieces_nonempty(s@.skip(i + 1), sep);
        }
        if s[i] == sep {
            let ghost before = chars_views(out@);
            out.push(cut(s, start, i));
            start = i + 1;
            proof {
                assert(chars_views(out@) =~= before.push(cur));
                assert(s@.subrange(start as int, i + 1) =~= Seq::<char>::empty());
                let all = pieces(s@.skip(i as int), sep);
                assert(all == seq![Seq::<char>::empty()] + tail);
                assert(all[0] == Seq::<char>::empty());
                assert(all.skip(1) =~= tail);
                assert(cur + all[0] =~= cur);
                assert(Seq::<char>::empty() + tail[0] =~= tail[0]);
                assert(before + (seq![cur + all[0]] + all.skip(1)) =~= before.push(cur) + (
                seq![Seq::<char>::empty() + tail[0]] + tail.skip(1)));
            }
        } else {
            proof {
                let all = pieces(s@.skip(i as int), sep);
                assert(all == seq![seq![s@[i as int]] + tail[0]] + tail.skip(1));
                assert(all.skip(1) =~= tail.skip(1));
                assert(s@.subrange(start as int, i + 1) =~= cur.push(s@[i as int]));
                assert(cur + all[0] =~= s@.subrange(start as int, i + 1) + tail[0]);
            }
        }
        i = i + 1;
    }
    let ghost before = chars_views(out@);
    out.push(cut(s, start, i));
    proof {
        let cur = s@.subrange(start as int, i as int);
        assert(s@.skip(i as int) =~= Seq::<char>::empty());
        assert(chars_views(out@) =~= before.push(cur));
        let all = pieces(s@.skip(i as int), sep);
        assert(cur + all[0] =~= cur);
        assert(all.skip(1) =~= Seq::<Seq<char>>::empty());
        assert(before + (seq![cur + all[0]] + all.skip(1)) =~= before.push(cur));
    }
    out
}

/// Copies a list of texts.
pub fn copy_texts(v: &Vec<String>) -> (r: Vec<String>)
    ensures
        texts(r@) == texts(v@),
{
    let mut out: Vec<String> = Vec::new();
    let mut i: usize = 0;
    while i < v.len()
        invariant
            i <= v.len(),
            texts(out@) == texts(v@).take(i as int),
        decreases v.len() - i,
    {
        let ghost before = out@;
        out.push(v[i].clone());
        assert(texts(out@) =~= texts(before).push(v@[i as int]@));
        assert(texts(out@) =~= texts(v@).take(i + 1));
        i = i + 1;
    }
    assert(texts(v@).take(v@.len() as int) =~= texts(v@));
    out
}

/// Whether `t` is among `v`.
pub fn texts_contain(v: &Vec<String>, t: &str) -> (r: bool)
    ensures
        r == texts(v@).contains(t@),
{
    let mut i: usize = 0;
    while i < v.len()
        invariant
            i <= v.len(),
            forall|k: int| 0 <= k < i ==> texts(v@)[k] != t@,
        decreases v.len() - i,
    {
        if same_text(v[i].as_str(), t) {
            assert(texts(v@)[i as int] == t@);
            return true;
        }
        i = i + 1;
    }
    false
}

/// `s` without the characters `c` that it begins with.
pub open spec fn strip_front(s: Seq<char>, c: char) -> Seq<char>
    decreases s.len(),
{
    if s.len() > 0 && s[0] == c {
        strip_front(s.drop_first(), c)
    } else {
        s
    }
}

/// `s` without the characters `c` that it ends with.
pub open spec fn strip_back(s: Seq<char>, c: char) -> Seq<char>
    decreases s.len(),
{
    if s.len() > 0 && s.last() == c {
        strip_back(s.drop_last(), c)
    } else {
        s
    }
}

/// `s` without the characters `c` at either end.
pub open spec fn stripped(s: Seq<char>, c: char) -> Seq<char> {
    strip_back(strip_front(s, c), c)
}

/// Takes the characters `c` at either end off a text.
pub fn text_strip(s: &str, c: char) -> (r: String)
    ensures
        r@ == stripped(s@, c),
{
    let cs = chars_of(s);
    let mut from: usize = 0;
    assert(cs@.skip(0) =~= cs@);
    while from < cs.len() && cs[from] == c
        invariant
            from <= cs.len(),
            strip_front(cs@, c) == strip_front(cs@.skip(from as int), c),
        decreases cs.len() - from,
    {
        assert(cs@.skip(from as int).drop_first() =~= cs@.skip(from + 1));
        from = from + 1;
    }
    let ghost rest = strip_front(cs@, c);
    assert(rest =~= cs@.subrange(from as int, cs@.len() as int));
    let mut to: usize = cs.len();
    while to > from && cs[to - 1] == c
        invariant
            from <= to <= cs.len(),
            strip_back(rest, c) == strip_back(cs@.subrange(from as int, to as int), c),
        decreases to,
    {
        assert(cs@.subrange(from as int, to as int).drop_last() =~= cs@.subrange(
            from as int,
            to - 1,
        ));
        to = to - 1;
    }
    let part = cut(&cs, from, to);
    text_of(&part)
}

/// `s` without the copies of `p` that it ends with.
pub open spec fn without_endings(s: Seq<char>, p: Seq<char>) -> Seq<char>
    decreases s.len(),
{
    if p.len() > 0 && finishes_with(s, p) {
        without_endings(s.take(s.len() - p.len()), p)
    } else {
        s
    }
}

/// Takes the copies of `p` that a text ends with off it.
pub fn text_drop_endings(s: &str, p: &str) -> (r: String)
    ensures
        r@ == without_endings(s@, p@),
{
    let cs = chars_of(s);
    let ps = chars_of(p);
    let mut to: usize = cs.len();
    assert(cs@.take(to as int) =~= cs@);
    if ps.len() == 0 {
        return text_of(&cs);
    }
    while to >= ps.len() && chars_occur_at(&cs, &ps, to - ps.len())
        invariant
            to <= cs.len(),
            ps.len() > 0,
            cs@ == s@,
            ps@ == p@,
            without_endings(s@, p@) == without_endings(s@.take(to as int), p@),
        decreases to,
    {
        proof {
            let t = s@.take(to as int);
            assert(t.subrange(t.len() - p@.len(), t.len() as int) =~= s@.subrange(
                to - p@.len(),
                to as int,
            ));
            assert(t.take(t.len() - p@.len()) =~= s@.take(to - p@.len()));
        }
        to = to - ps.len();
    }
    proof {
        let t = s@.take(to as int);
        if to >= ps.len() {
            assert(t.subrange(t.len() - p@.len(), t.len() as int) =~= s@.subrange(
                to - p@.len(),
                to as int,
            ));
        }
        assert(!finishes_with(t, p@));
    }
    let part = cut(&cs, 0, to);
    assert(part@ =~= s@.take(to as int));
    text_of(&part)
}

/// What stands in front of the first `p` in `s`; all of `s` where there is none.
pub open spec fn before(s: Seq<char>, p: Seq<char>) -> Seq<char>
    decreases s.len(),
{
    if s.len() == 0 || begins_with(s, p) {
        Seq::empty()
    } else {
        seq![s[0]] + before(s.skip(1), p)
    }
}

/// Reads what stands in front of the first `p` in a text.
pub fn text_before(s: &str, p: &str) -> (r: String)
    ensures
        r@ == before(s@, p@),
{
    let cs = chars_of(s);
    let ps = chars_of(p);
    let mut out: Vec<char> = Vec::new();
    let mut i: usize = 0;
    assert(s@.skip(0) =~= s@);
    assert(out@ + before(s@.skip(0), p@) =~= before(s@, p@));
    while i < cs.len()
        invariant
            i <= cs.len(),
            cs@ == s@,
            ps@ == p@,
            out@ + before(s@.skip(i as int), p@) == before(s@, p@),
        decreases cs.len() - i,
    {
        let ghost rest = s@.skip(i as int);
        proof {
            assert(occurs_at(s@, p@, i as int) ==> s@.subrange(i as int, i + p@.len())
                =~= rest.subrange(0, p@.len() as int));
            assert(begins_with(rest, p@) ==> s@.subrange(i as int, i + p@.len())
                =~= rest.subrange(0, p@.len() as int));
            assert(rest.skip(1) =~= s@.skip(i + 1));
            assert(rest[0] == cs@[i as int]);
        }
        if chars_occur_at(&cs, &ps, i) {
            assert(out@ + before(rest, p@) =~= out@);
            return text_of(&out);
        }
        let ghost so_far = out@;
        out.push(cs[i]);
        assert(out@ + before(rest.skip(1), p@) =~= so_far + before(rest, p@));
        i = i + 1;
    }
    assert(out@ + before(s@.skip(i as int), p@) =~= out@);
    text_of(&out)
}

/// `s` without the copies of `p` that it begins with.
pub open spec fn without_beginnings(s: Seq<char>, p: Seq<char>) -> Seq<char>
    decreases s.len(),
{
    if p.len() > 0 && begins_with(s, p) {
        without_beginnings(s.skip(p.len() as int), p)
    } else {
        s
    }
}

/// Takes the copies of `p` that a text begins with off it.
pub fn text_drop_beginnings(s: &str, p: &str) -> (r: String)
    ensures
        r@ == without_beginnings(s@, p@),
{
    let cs = chars_of(s);
    let ps = chars_of(p);
    let mut from: usize = 0;
    assert(cs@.skip(0) =~= cs@);
    if ps.len() == 0 {
        return text_of(&cs);
    }
    while chars_occur_at(&cs, &ps, from)
        invariant
            from <= cs.len(),
            ps.len() > 0,
            cs@ == s@,
            ps@ == p@,
            without_beginnings(s@, p@) == without_beginnings(s@.skip(from as int), p@),
        decreases cs.len() - from,
    {
        proof {
            let t = s@.skip(from as int);
            assert(t.subrange(0, p@.len() as int) =~= s@.subrange(
                from as int,
                from + p@.len(),
            ));
            assert(t.skip(p@.len() as int) =~= s@.skip(from + p@.len()));
        }
        from = from + ps.len();
    }
    proof {
        let t = s@.skip(from as int);
        if from + p@.len() <= s@.len() {
            assert(t.subrange(0, p@.len() as int) =~= s@.subrange(
                from as int,
                from + p@.len(),
            ));
        }
        assert(!begins_with(t, p@));
    }
    let part = cut(&cs, from, cs.len());
    assert(part@ =~= s@.skip(from as int));
    text_of(&part)
}

/// What stands behind the last `p` in `s`; all of `s` where there is none.
pub open spec fn after_last(s: Seq<char>, p: Seq<char>) -> Seq<char>
    decreases s.len(),
{
    if s.len() == 0 || finishes_with(s, p) {
        Seq::empty()
    } else {
        after_last(s.drop_last(), p).push(s.last())
    }
}

/// Reads what stands behind the last `p` in a text.
pub fn text_after_last(s: &str, p: &str) -> (r: String)
    ensures
        r@ == after_last(s@, p@),
{
    let cs = chars_of(s);
    let ps = chars_of(p);
    let mut i: usize = cs.len();
    proof {
        assert(s@.take(i as int) =~= s@);
        assert(after_last(s@, p@) + s@.skip(i as int) =~= after_last(s@, p@));
    }
    while i > 0 && !(ps.len() <= i && chars_occur_at(&cs, &ps, i - ps.len()))
        invariant
            i <= cs.len(),
            cs@ == s@,
            ps@ == p@,
            after_last(s@.take(i as int), p@) + s@.skip(i as int) == after_last(s@, p@),
        decreases i,
    {
        let ghost t = s@.take(i as int);
        proof {
            if finishes_with(t, p@) {
                assert(t.subrange(t.len() - p@.len(), t.len() as int) =~= s@.subrange(
                    i - p@.len(),
                    i as int,
                ));
            }
            assert(t.drop_last() =~= s@.take(i - 1));
            assert(after_last(t.drop_last(), p@).push(t.last()) + s@.skip(i as int)
                =~= after_last(t.drop_last(), p@) + s@.skip(i - 1));
        }
        i = i - 1;
    }
    proof {
        let t = s@.take(i as int);
        if i > 0 {
            assert(t.subrange(t.len() - p@.len(), t.len() as int) =~= s@.subrange(
                i - p@.len(),
                i as int,
            ));
            assert(finishes_with(t, p@));
        }
        assert(after_last(t, p@) =~= Seq::<char>::empty());
        assert(after_last(t, p@) + s@.skip(i as int) =~= s@.skip(i as int));
    }
    let part = cut(&cs, i, cs.len());
    assert(part@ =~= s@.skip(i as int));
    text_of(&part)
}

/// `s` with each `p` in it, from the left, replaced by `q`.
pub open spec fn replaced_text(s: Seq<char>, p: Seq<char>, q: Seq<char>) -> Seq<char>
    decreases s.len(),
{
    if s.len() == 0 {
        Seq::empty()
    } else if p.len() > 0 && begins_with(s, p) {
        q + replaced_text(s.skip(p.len() as int), p, q)
    } else {
        seq![s[0]] + replaced_text(s.skip(1), p, q)
    }
}

/// Replaces each `p` in a text by `q`.
pub fn text_replace(s: &str, p: &str, q: &str) -> (r: String)
    ensures
        r@ == replaced_text(s@, p@, q@),
{
    let cs = chars_of(s);
    let ps = chars_of(p);
    let qs = chars_of(q);
    let mut out: Vec<char> = Vec::new();
    let mut i: usize = 0;
    proof {
        assert(s@.skip(0) =~= s@);
        assert(out@ + replaced_text(s@.skip(0), p@, q@) =~= replaced_text(s@, p@, q@));
    }
    while i < cs.len()
        invariant
            i <= cs.len(),
            cs@ == s@,
            ps@ == p@,
            qs@ == q@,
            out@ + replaced_text(s@.skip(i as int), p@, q@) == replaced_text(s@, p@, q@),
        decreases cs.len() - i,
    {
        let ghost rest = s@.skip(i as int);
        let ghost so_far = out@;
        proof {
            if i + p@.len() <= s@.len() {
                assert(s@.subrange(i as int, i + p@.len()) =~= rest.subrange(0, p@.len() as int));
            }
            assert(rest[0] == cs@[i as int]);
        }
        if ps.len() > 0 && chars_occur_at(&cs, &ps, i) {
            assert(begins_with(rest, p@));
            let mut k: usize = 0;
            assert(out@ =~= so_far + q@.take(0));
            while k < qs.len()
                invariant
                    k <= qs.len(),
                    qs@ == q@,
                    out@ == so_far + q@.take(k as int),
                decreases qs.len() - k,
            {
                out.push(qs[k]);
                assert(out@ =~= so_far + q@.take(k + 1));
                k = k + 1;
            }
            proof {
                assert(q@.take(q@.len() as int) =~= q@);
                assert(rest.skip(p@.len() as int) =~= s@.skip(i + p@.len()));
                assert(out@ + replaced_text(s@.skip(i + p@.len()), p@, q@) =~= so_far
                    + replaced_text(rest, p@, q@));
            }
            i = i + ps.len();
        } else {
            out.push(cs[i]);
            proof {
                assert(!(p@.len() > 0 && begins_with(rest, p@)));
                assert(rest.skip(1) =~= s@.skip(i + 1));
                assert(out@ + replaced_text(s@.skip(i + 1), p@, q@) =~= so_far + replaced_text(
                    rest,
                    p@,
                    q@,
                ));
            }
            i = i + 1;
        }
    }
    assert(out@ + replaced_text(s@.skip(i as int), p@, q@) =~= out@);
    text_of(&out)
}

} // verus!
