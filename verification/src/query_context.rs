//! Context for a query: cut to a budget of tokens, and given up on when the query is cancelled.

use crate::hex;
use crate::hex::decimal_text;
use crate::spans;
use crate::spans::{byte_length, find_index};
use crate::text::{append_text, chars_of, cut, owned, text_of};
use vstd::prelude::*;

verus! {

/// Counts the tokens of texts.
pub trait Tokenizer {
    /// How many tokens a text has.
    spec fn tokens(&self, text: Seq<char>) -> nat;

    /// Counts the tokens of a text.
    fn count_tokens(&self, text: &str) -> (n: usize)
        requires
            spans::byte_len(text@) + 3 <= usize::MAX,
        ensures
            n == self.tokens(text@),
    ;
}

/// Takes four bytes for a token.
#[derive(Debug, Clone, Copy)]
pub struct CharApproxTokenizer;

impl Tokenizer for CharApproxTokenizer {
    open spec fn tokens(&self, text: Seq<char>) -> nat {
        (spans::byte_len(text) + 3) / 4
    }

    fn count_tokens(&self, text: &str) -> (n: usize) {
        let cs = chars_of(text);
        (byte_length(&cs) + 3) / 4
    }
}

/// Speculative symbols are left out of the search by meaning, whatever they are.
pub fn hybrid_search_excludes_speculative(_speculative: bool) -> (r: bool)
    ensures
        r,
{
    true
}

/// Orders what a session wrote itself in front of what is committed.
#[derive(Debug, Clone, Copy, Default)]
pub struct DedupShell;

impl DedupShell {
    /// How far in front something comes for a session.
    pub fn prefer_session_speculative(&self, _session_id: u64, is_speculative: bool) -> (r: i32)
        ensures
            r == (if is_speculative {
                1i32
            } else {
                0i32
            }),
    {
        if is_speculative {
            1
        } else {
            0
        }
    }
}

/// A candidate of the search by meaning and by structure; what its scores are made of is left open.
#[derive(Debug, Clone)]
pub struct HybridSearchCandidate<W> {
    pub id: String,
    pub vector_score: W,
    pub structural_score: W,
    pub speculative: bool,
}

/// Turns a list round.
fn turned_round<T>(v: Vec<T>) -> (r: Vec<T>)
    ensures
        r@ == v@.reverse(),
{
    let ghost all = v@;
    let mut left = v;
    let mut out: Vec<T> = Vec::new();
    assert(all.reverse() =~= out@ + left@.reverse());
    while left.len() > 0
        invariant
            out@ + left@.reverse() == all.reverse(),
        decreases left.len(),
    {
        let ghost l = left@;
        let ghost o = out@;
        if let Some(x) = left.pop() {
            assert(l.reverse() =~= seq![l.last()] + left@.reverse());
            out.push(x);
            assert(out@ + left@.reverse() =~= o + l.reverse());
        }
    }
    assert(out@ =~= all.reverse());
    out
}

/// The candidates that are ranked: those that are not speculative, in order.
pub open spec fn ranked_pool<W>(candidates: Seq<HybridSearchCandidate<W>>) -> Seq<
    HybridSearchCandidate<W>,
>
    decreases candidates.len(),
{
    if candidates.len() == 0 {
        Seq::empty()
    } else {
        let front = ranked_pool(candidates.drop_last());
        if candidates.last().speculative {
            front
        } else {
            front.push(candidates.last())
        }
    }
}

/// Leaves speculative candidates out before the others are ranked.
pub fn hybrid_pool<W>(candidates: Vec<HybridSearchCandidate<W>>) -> (r: Vec<
    HybridSearchCandidate<W>,
>)
    ensures
        r@ == ranked_pool(candidates@),
{
    let ghost all = ranked_pool(candidates@);
    let mut left = candidates;
    let mut back: Vec<HybridSearchCandidate<W>> = Vec::new();
    assert(all =~= ranked_pool(left@) + back@.reverse());
    while left.len() > 0
        invariant
            all == ranked_pool(left@) + back@.reverse(),
        decreases left.len(),
    {
        let ghost l = left@;
        let ghost b = back@;
        if let Some(c) = left.pop() {
            assert(left@ =~= l.drop_last());
            if !c.speculative {
                let ghost last = c;
                back.push(c);
                assert(back@.reverse() =~= seq![last] + b.reverse());
                assert(ranked_pool(left@) + back@.reverse() =~= ranked_pool(left@).push(last)
                    + b.reverse());
            }
        }
    }
    assert(all =~= back@.reverse());
    turned_round(back)
}

/// Keeps the best of a ranked list: as many as are asked for, and at least one.
pub fn keep_top<T>(ranked: &mut Vec<T>, vector_top_k: usize)
    ensures
        ({
            let k = if vector_top_k > 1 {
                vector_top_k as int
            } else {
                1
            };
            final(ranked)@ == (if old(ranked)@.len() > k {
                old(ranked)@.take(k)
            } else {
                old(ranked)@
            })
        }),
{
    let k: usize = if vector_top_k > 1 {
        vector_top_k
    } else {
        1
    };
    ranked.truncate(k);
}

/// No speculative candidate is ranked, and every other is.
pub proof fn law_pool_leaves_out_speculative<W>(candidates: Seq<HybridSearchCandidate<W>>)
    ensures
        forall|i: int|
            0 <= i < ranked_pool(candidates).len() ==> !(
            #[trigger] ranked_pool(candidates)[i]).speculative,
        forall|i: int|
            0 <= i < candidates.len() && !(#[trigger] candidates[i]).speculative ==> ranked_pool(
                candidates,
            ).contains(candidates[i]),
    decreases candidates.len(),
{
    if candidates.len() > 0 {
        let front = candidates.drop_last();
        law_pool_leaves_out_speculative(front);
        let a = ranked_pool(front);
        let b = ranked_pool(candidates);
        assert forall|i: int| 0 <= i < candidates.len() && !(
        #[trigger] candidates[i]).speculative implies b.contains(candidates[i]) by {
            if i < front.len() {
                assert(front[i] == candidates[i]);
                let k = choose|k: int| 0 <= k < a.len() && a[k] == candidates[i];
                assert(b[k] == candidates[i]);
            } else {
                assert(b[a.len() as int] == candidates[i]);
            }
        }
    }
}

/// Whether a query was cancelled. There is one flag for a query: whoever cancels it and whoever polls
/// it share that flag, so it is not copied.
#[derive(Debug)]
pub struct QueryCancelFlag {
    cancelled: bool,
}

impl View for QueryCancelFlag {
    type V = bool;

    closed spec fn view(&self) -> bool {
        self.cancelled
    }
}

impl QueryCancelFlag {
    /// A query that goes on.
    pub fn new() -> (r: Self)
        ensures
            !r@,
    {
        QueryCancelFlag { cancelled: false }
    }

    /// Cancels the query, for good.
    pub fn cancel(&mut self)
        ensures
            final(self)@,
    {
        self.cancelled = true;
    }

    /// Whether the query was cancelled.
    pub fn is_cancelled(&self) -> (r: bool)
        ensures
            r == self@,
    {
        self.cancelled
    }
}

impl Default for QueryCancelFlag {
    fn default() -> (r: Self)
        ensures
            !r@,
    {
        QueryCancelFlag::new()
    }
}

/// The first bytes of a text.
pub open spec fn front_bytes(s: Seq<char>, bytes: nat) -> Seq<char> {
    match spans::index_at(s, bytes) {
        Some(k) => s.take(k as int),
        None => Seq::empty(),
    }
}

/// How many bytes of a text are kept, by halving between a number that fits and one that does not;
/// none where a half ends inside of a character.
pub open spec fn kept_bytes<T: Tokenizer>(tok: T, s: Seq<char>, budget: nat, lo: nat, hi: nat) -> Option<
    nat,
>
    decreases hi - lo,
{
    if lo + 1 >= hi {
        Some(lo)
    } else {
        let mid = (lo + hi) / 2;
        if spans::index_at(s, mid) is None {
            None
        } else if tok.tokens(front_bytes(s, mid)) <= budget {
            kept_bytes(tok, s, budget, mid, hi)
        } else {
            kept_bytes(tok, s, budget, lo, mid)
        }
    }
}

/// A text can be cut to a budget: it fits, or halving never ends inside of a character.
pub open spec fn can_be_cut<T: Tokenizer>(tok: T, s: Seq<char>, budget: nat) -> bool {
    tok.tokens(s) <= budget || kept_bytes(tok, s, budget, 0, spans::byte_len(s)) is Some
}

/// How many tokens are left out where some bytes are kept.
pub open spec fn omitted_tokens<T: Tokenizer>(tok: T, s: Seq<char>, kept: nat) -> nat {
    let total = tok.tokens(s);
    let left = tok.tokens(front_bytes(s, kept));
    if total > left {
        (total - left) as nat
    } else {
        0
    }
}

/// A text cut to a budget: what is kept, with a note on what is left out.
pub open spec fn cut_to_budget<T: Tokenizer>(tok: T, s: Seq<char>, budget: nat) -> (
    Seq<char>,
    bool,
    nat,
) {
    if tok.tokens(s) <= budget {
        (s, false, 0)
    } else {
        let kept = kept_bytes(tok, s, budget, 0, spans::byte_len(s))->0;
        let omitted = omitted_tokens(tok, s, kept);
        (
            front_bytes(s, kept) + "\n// ... [truncated, "@ + hex::decimal(omitted)
                + " tokens omitted]"@,
            true,
            omitted,
        )
    }
}

/// The first bytes of a text are no more than all of it.
proof fn lemma_front_shorter(s: Seq<char>, k: int)
    requires
        0 <= k <= s.len(),
    ensures
        spans::byte_len(s.take(k)) <= spans::byte_len(s),
    decreases s.len() - k,
{
    if k < s.len() {
        assert(s.take(k + 1).drop_last() =~= s.take(k));
        lemma_front_shorter(s, k + 1);
    } else {
        assert(s.take(k) =~= s);
    }
}

/// Reads the first bytes of a text.
fn read_front(cs: &Vec<char>, k: usize) -> (r: String)
    requires
        k <= cs.len(),
    ensures
        r@ == cs@.take(k as int),
{
    let part = cut(cs, 0, k);
    assert(part@ =~= cs@.take(k as int));
    text_of(&part)
}

/// Finds by halving how many characters of a text are kept.
fn find_cut<T: Tokenizer>(cs: &Vec<char>, budget_tokens: usize, tok: &T) -> (r: Option<usize>)
    requires
        spans::byte_len(cs@) + 3 <= usize::MAX,
    ensures
        match r {
            Some(at) => {
                let kept = kept_bytes(*tok, cs@, budget_tokens as nat, 0, spans::byte_len(cs@));
                kept is Some && at <= cs@.len() && spans::index_at(cs@, kept->0) == Some(at as nat)
            },
            None => kept_bytes(*tok, cs@, budget_tokens as nat, 0, spans::byte_len(cs@)) is None,
        },
{
    let ghost s = cs@;
    let ghost budget = budget_tokens as nat;
    let mut lo: usize = 0;
    let mut hi: usize = byte_length(cs);
    let mut at: usize = 0;
    while lo + 1 < hi
        invariant
            cs@ == s,
            budget == budget_tokens,
            spans::byte_len(s) + 3 <= usize::MAX,
            lo <= usize::MAX - 1,
            hi <= spans::byte_len(s),
            spans::index_at(s, lo as nat) == Some(at as nat),
            at <= s.len(),
            kept_bytes(*tok, s, budget, lo as nat, hi as nat) == kept_bytes(
                *tok,
                s,
                budget,
                0,
                spans::byte_len(s),
            ),
        decreases hi - lo,
    {
        let mid = lo + (hi - lo) / 2;
        assert(mid == (lo + hi) / 2);
        match find_index(cs, mid) {
            Some(k) => {
                proof {
                    lemma_front_shorter(s, k as int);
                }
                let front = read_front(cs, k);
                if tok.count_tokens(front.as_str()) <= budget_tokens {
                    lo = mid;
                    at = k;
                } else {
                    hi = mid;
                }
            },
            None => {
                return None;
            },
        }
    }
    Some(at)
}

/// Whether a text can be cut to a budget.
pub fn fits_or_can_be_cut<T: Tokenizer>(text: &str, budget_tokens: usize, tok: &T) -> (r: bool)
    requires
        spans::byte_len(text@) + 3 <= usize::MAX,
    ensures
        r == can_be_cut(*tok, text@, budget_tokens as nat),
{
    if tok.count_tokens(text) <= budget_tokens {
        return true;
    }
    let cs = chars_of(text);
    find_cut(&cs, budget_tokens, tok).is_some()
}

/// Cuts a text to a budget.
pub fn build_context_truncated<T: Tokenizer>(text: &str, budget_tokens: usize, tok: &T) -> (r: (
    String,
    bool,
    usize,
))
    requires
        spans::byte_len(text@) + 3 <= usize::MAX,
        can_be_cut(*tok, text@, budget_tokens as nat),
    ensures
        (r.0@, r.1, r.2 as nat) == cut_to_budget(*tok, text@, budget_tokens as nat),
{
    let total = tok.count_tokens(text);
    if total <= budget_tokens {
        return (owned(text), false, 0);
    }
    let cs = chars_of(text);
    let at = match find_cut(&cs, budget_tokens, tok) {
        Some(at) => at,
        None => 0,
    };
    proof {
        lemma_front_shorter(text@, at as int);
    }
    let front = read_front(&cs, at);
    let kept = tok.count_tokens(front.as_str());
    let omitted: usize = if total > kept {
        total - kept
    } else {
        0
    };
    let mut out = front;
    append_text(&mut out, "\n// ... [truncated, ");
    append_text(&mut out, decimal_text(omitted as u64).as_str());
    append_text(&mut out, " tokens omitted]");
    (out, true, omitted)
}

/// What is kept of a text fits the budget, and with one more byte it would not.
pub proof fn law_cut_fits<T: Tokenizer>(tok: T, s: Seq<char>, budget: nat, lo: nat, hi: nat)
    requires
        lo < hi,
        tok.tokens(front_bytes(s, lo)) <= budget,
        tok.tokens(front_bytes(s, hi)) > budget,
        kept_bytes(tok, s, budget, lo, hi) is Some,
    ensures
        ({
            let kept = kept_bytes(tok, s, budget, lo, hi)->0;
            &&& lo <= kept < hi
            &&& tok.tokens(front_bytes(s, kept)) <= budget
            &&& tok.tokens(front_bytes(s, kept + 1)) > budget
        }),
    decreases hi - lo,
{
    if lo + 1 < hi {
        let mid = (lo + hi) / 2;
        if tok.tokens(front_bytes(s, mid)) <= budget {
            law_cut_fits(tok, s, budget, mid, hi);
        } else {
            law_cut_fits(tok, s, budget, lo, mid);
        }
    }
}

/// A text of ASCII characters.
pub open spec fn all_ascii(s: Seq<char>) -> bool {
    forall|i: int| 0 <= i < s.len() ==> (#[trigger] s[i]) as u32 <= 127
}

/// In a text of ASCII characters each byte is the first of a character.
proof fn lemma_ascii_index(s: Seq<char>, byte: nat)
    requires
        all_ascii(s),
        byte <= s.len(),
    ensures
        spans::index_at(s, byte) == Some(byte),
    decreases s.len(),
{
    if byte > 0 {
        let rest = s.skip(1);
        assert forall|i: int| 0 <= i < rest.len() implies (#[trigger] rest[i]) as u32 <= 127 by {
            assert(rest[i] == s[i + 1]);
        }
        assert(s[0] as u32 <= 127);
        lemma_ascii_index(rest, (byte - 1) as nat);
    }
}

/// A text of ASCII characters has as many bytes as characters.
proof fn lemma_ascii_len(s: Seq<char>)
    requires
        all_ascii(s),
    ensures
        spans::byte_len(s) == s.len(),
    decreases s.len(),
{
    if s.len() > 0 {
        let front = s.drop_last();
        assert forall|i: int| 0 <= i < front.len() implies (#[trigger] front[i]) as u32 <= 127 by {
            assert(front[i] == s[i]);
        }
        assert(s[s.len() - 1] as u32 <= 127);
        lemma_ascii_len(front);
    }
}

/// Halving a text of ASCII characters never ends inside of a character.
proof fn lemma_ascii_kept<T: Tokenizer>(tok: T, s: Seq<char>, budget: nat, lo: nat, hi: nat)
    requires
        all_ascii(s),
        hi <= s.len(),
    ensures
        kept_bytes(tok, s, budget, lo, hi) is Some,
    decreases hi - lo,
{
    if lo + 1 < hi {
        let mid = (lo + hi) / 2;
        lemma_ascii_index(s, mid);
        lemma_ascii_kept(tok, s, budget, mid, hi);
        lemma_ascii_kept(tok, s, budget, lo, mid);
    }
}

/// A text of ASCII characters can be cut to any budget.
pub proof fn law_ascii_can_be_cut<T: Tokenizer>(tok: T, s: Seq<char>, budget: nat)
    requires
        all_ascii(s),
    ensures
        can_be_cut(tok, s, budget),
{
    lemma_ascii_len(s);
    lemma_ascii_kept(tok, s, budget, 0, spans::byte_len(s));
}

} // verus!
