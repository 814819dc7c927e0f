//! Searching symbols by meaning, as far as it needs no arithmetic on vectors: which symbols come into
//! question, how often their names hold the text, and what the search has to do without.

use crate::graph;
use crate::graph::{InMemoryGraph, RevisionStatus, RevisionView};
use crate::ids::{BranchId, NodeRevisionId};
use crate::status;
use crate::status::{Shortages, degraded_modes, hashes_contain, note_if};
use crate::text;
use crate::text::{chars_occur_at, chars_of, owned};
use crate::time_travel;
use crate::time_travel::to_lower;
use vstd::prelude::*;

verus! {

/// How often a text occurs in another, counted from the left without overlap.
pub open spec fn match_count(s: Seq<char>, p: Seq<char>) -> nat
    decreases s.len(),
{
    if s.len() == 0 || p.len() == 0 {
        0
    } else if text::begins_with(s, p) {
        1 + match_count(s.skip(p.len() as int), p)
    } else {
        match_count(s.skip(1), p)
    }
}

/// Counts how often a text occurs in another.
pub fn count_matches(s: &str, p: &str) -> (n: usize)
    ensures
        n == match_count(s@, p@),
{
    let cs = chars_of(s);
    let ps = chars_of(p);
    if ps.len() == 0 {
        return 0;
    }
    let mut n: usize = 0;
    let mut i: usize = 0;
    assert(s@.skip(0) =~= s@);
    while i < cs.len()
        invariant
            i <= cs.len(),
            n <= i,
            cs@ == s@,
            ps@ == p@,
            ps.len() > 0,
            n + match_count(s@.skip(i as int), p@) == match_count(s@, p@),
        decreases cs.len() - i,
    {
        let ghost rest = s@.skip(i as int);
        proof {
            if i + p@.len() <= s@.len() {
                assert(s@.subrange(i as int, i + p@.len()) =~= rest.subrange(0, p@.len() as int));
            }
        }
        if chars_occur_at(&cs, &ps, i) {
            assert(text::begins_with(rest, p@));
            assert(rest.skip(p@.len() as int) =~= s@.skip(i + p@.len()));
            n = n + 1;
            i = i + ps.len();
        } else {
            assert(!text::begins_with(rest, p@));
            assert(rest.skip(1) =~= s@.skip(i + 1));
            i = i + 1;
        }
    }
    n
}

/// A text occurs in another exactly where it is counted.
pub proof fn law_counted_where_contained(s: Seq<char>, p: Seq<char>)
    requires
        p.len() > 0,
    ensures
        match_count(s, p) > 0 <==> text::contains_text(s, p),
    decreases s.len(),
{
    if s.len() > 0 {
        if text::begins_with(s, p) {
            assert(text::occurs_at(s, p, 0));
        } else {
            let rest = s.skip(1);
            law_counted_where_contained(rest, p);
            if text::contains_text(rest, p) {
                let at = choose|at: int| text::occurs_at(rest, p, at);
                assert(rest.subrange(at, at + p.len()) =~= s.subrange(at + 1, at + 1 + p.len()));
                assert(text::occurs_at(s, p, at + 1));
            }
            if text::contains_text(s, p) {
                let at = choose|at: int| text::occurs_at(s, p, at);
                assert(at > 0);
                assert(rest.subrange(at - 1, at - 1 + p.len()) =~= s.subrange(at, at + p.len()));
                assert(text::occurs_at(rest, p, at - 1));
            }
        }
    } else {
        if text::contains_text(s, p) {
            let at = choose|at: int| text::occurs_at(s, p, at);
        }
    }
}

/// A symbol that comes into question.
#[derive(Debug)]
pub struct SemanticRow {
    pub revision_id: NodeRevisionId,
    pub qualified_name: String,
    pub body_hash: [u8; 32],
    /// How often its name holds the text that is looked for.
    pub matches: usize,
}

/// The values of a symbol that comes into question.
pub struct RowView {
    pub revision_id: NodeRevisionId,
    pub qualified_name: Seq<char>,
    pub body_hash: [u8; 32],
    pub matches: nat,
}

impl View for SemanticRow {
    type V = RowView;

    open spec fn view(&self) -> RowView {
        RowView {
            revision_id: self.revision_id,
            qualified_name: self.qualified_name@,
            body_hash: self.body_hash,
            matches: self.matches as nat,
        }
    }
}

/// The values of symbols that come into question.
pub open spec fn row_views(v: Seq<SemanticRow>) -> Seq<RowView> {
    v.map_values(|r: SemanticRow| r@)
}

/// What is looked at of a revision.
pub open spec fn row_of(r: RevisionView, needle: Seq<char>) -> RowView {
    RowView {
        revision_id: r.revision_id,
        qualified_name: r.qualified_name,
        body_hash: r.body_hash,
        matches: match_count(time_travel::lowercase_of(r.qualified_name), needle),
    }
}

/// The active revisions of a branch, as symbols that come into question.
pub open spec fn active_rows(revs: Seq<RevisionView>, branch: BranchId, needle: Seq<char>) -> Seq<
    RowView,
>
    decreases revs.len(),
{
    if revs.len() == 0 {
        Seq::empty()
    } else {
        let front = active_rows(revs.drop_last(), branch, needle);
        let r = revs.last();
        if r.branch_id == branch && r.status == RevisionStatus::Active {
            front.push(row_of(r, needle))
        } else {
            front
        }
    }
}

/// How many symbols have a body among some hashes.
pub open spec fn rows_among(rows: Seq<RowView>, hashes: Seq<[u8; 32]>) -> nat
    decreases rows.len(),
{
    if rows.len() == 0 {
        0
    } else {
        rows_among(rows.drop_last(), hashes) + (if hashes.contains(rows.last().body_hash) {
            1nat
        } else {
            0
        })
    }
}

/// The symbols that come into question, and how many of them have a vector.
#[derive(Debug)]
pub struct SemanticCandidates {
    pub rows: Vec<SemanticRow>,
    pub embedded_count: usize,
    pub stale_count: usize,
}

/// Finds the symbols that come into question; `embedded` are the bodies that have a vector of the
/// model in use.
pub fn semantic_candidates(
    graph: &InMemoryGraph,
    branch: BranchId,
    query: &str,
    embedded: &Vec<[u8; 32]>,
) -> (r: SemanticCandidates)
    ensures
        row_views(r.rows@) == active_rows(graph@.revisions, branch, time_travel::lowercase_of(query@)),
        r.embedded_count == rows_among(row_views(r.rows@), embedded@),
        r.embedded_count + r.stale_count == r.rows@.len(),
{
    let needle = to_lower(query);
    let revs = graph.revisions();
    let ghost s = graph@.revisions;
    let mut rows: Vec<SemanticRow> = Vec::new();
    let mut embedded_count: usize = 0;
    let mut stale_count: usize = 0;
    let mut i: usize = 0;
    proof {
        assert(s.take(0) =~= Seq::<RevisionView>::empty());
        assert(row_views(rows@) =~= Seq::<RowView>::empty());
    }
    while i < revs.len()
        invariant
            i <= revs.len(),
            rows.len() <= i,
            s == graph::revision_views(revs@),
            row_views(rows@) == active_rows(s.take(i as int), branch, needle@),
            embedded_count == rows_among(row_views(rows@), embedded@),
            embedded_count + stale_count == rows.len(),
        decreases revs.len() - i,
    {
        let r = &revs[i];
        proof {
            assert(s.take(i + 1).drop_last() =~= s.take(i as int));
            assert(s.take(i + 1).last() == r@);
        }
        if r.branch_id == branch && r.status == RevisionStatus::Active {
            let ghost before = row_views(rows@);
            if hashes_contain(embedded, &r.body_hash) {
                embedded_count = embedded_count + 1;
            } else {
                stale_count = stale_count + 1;
            }
            let lower = to_lower(r.qualified_name.as_str());
            let row = SemanticRow {
                revision_id: r.revision_id,
                qualified_name: owned(r.qualified_name.as_str()),
                body_hash: r.body_hash,
                matches: count_matches(lower.as_str(), needle.as_str()),
            };
            rows.push(row);
            proof {
                assert(row_views(rows@) =~= before.push(row_of(r@, needle@)));
                assert(row_views(rows@).drop_last() =~= before);
            }
        }
        i = i + 1;
    }
    assert(s.take(s.len() as int) =~= s);
    SemanticCandidates { rows, embedded_count, stale_count }
}

/// The symbols whose bodies were scored.
pub open spec fn scored_rows(rows: Seq<RowView>, scored: Seq<[u8; 32]>) -> Seq<RowView> {
    rows.filter(|r: RowView| scored.contains(r.body_hash))
}

/// Where the index of vectors was asked, only the symbols whose bodies it scored are ranked; their
/// places among the candidates.
pub fn scored_places(rows: &Vec<SemanticRow>, scored: &Vec<[u8; 32]>) -> (r: Vec<usize>)
    ensures
        forall|a: int| 0 <= a < r.len() ==> #[trigger] r[a] < rows.len(),
        r@.map_values(|i: usize| rows[i as int]@) == scored_rows(row_views(rows@), scored@),
{
    let ghost all = row_views(rows@);
    let ghost p = |r: RowView| scored@.contains(r.body_hash);
    let ghost pick = |i: usize| rows[i as int]@;
    let mut out: Vec<usize> = Vec::new();
    let mut i: usize = 0;
    proof {
        assert(all.take(0) =~= Seq::<RowView>::empty());
        reveal(Seq::filter);
        assert(all.take(0).filter(p) =~= Seq::<RowView>::empty());
        assert(out@.map_values(pick) =~= Seq::<RowView>::empty());
    }
    while i < rows.len()
        invariant
            i <= rows.len(),
            all == row_views(rows@),
            p == (|r: RowView| scored@.contains(r.body_hash)),
            pick == (|i: usize| rows[i as int]@),
            forall|a: int| 0 <= a < out.len() ==> #[trigger] out[a] < rows.len(),
            out@.map_values(pick) == all.take(i as int).filter(p),
        decreases rows.len() - i,
    {
        let ghost before = out@;
        proof {
            reveal(Seq::filter);
            assert(all.take(i + 1).drop_last() =~= all.take(i as int));
            assert(all.take(i + 1).last() == rows@[i as int]@);
        }
        if hashes_contain(scored, &rows[i].body_hash) {
            out.push(i);
            assert(out@.map_values(pick) =~= before.map_values(pick).push(rows@[i as int]@));
        }
        i = i + 1;
    }
    assert(all.take(all.len() as int) =~= all);
    out
}

/// A symbol is found by its name: the text is empty, or the name holds it.
pub open spec fn found_by_name(r: RowView, needle: Seq<char>) -> bool {
    needle.len() == 0 || r.matches > 0
}

/// Without vectors, only the symbols are ranked that are found by their names; their places among the
/// candidates.
pub fn named_places(rows: &Vec<SemanticRow>, query: &str) -> (r: Vec<usize>)
    ensures
        forall|a: int| 0 <= a < r.len() ==> #[trigger] r[a] < rows.len(),
        r@.map_values(|i: usize| rows[i as int]@) == row_views(rows@).filter(
            |row: RowView| found_by_name(row, time_travel::lowercase_of(query@)),
        ),
{
    let needle = to_lower(query);
    let empty = needle.as_str().is_empty();
    let ghost all = row_views(rows@);
    let ghost p = |row: RowView| found_by_name(row, time_travel::lowercase_of(query@));
    let ghost pick = |i: usize| rows[i as int]@;
    let mut out: Vec<usize> = Vec::new();
    let mut i: usize = 0;
    proof {
        assert(all.take(0) =~= Seq::<RowView>::empty());
        reveal(Seq::filter);
        assert(all.take(0).filter(p) =~= Seq::<RowView>::empty());
        assert(out@.map_values(pick) =~= Seq::<RowView>::empty());
    }
    while i < rows.len()
        invariant
            i <= rows.len(),
            all == row_views(rows@),
            needle@ == time_travel::lowercase_of(query@),
            empty == (needle@.len() == 0),
            p == (|row: RowView| found_by_name(row, time_travel::lowercase_of(query@))),
            pick == (|i: usize| rows[i as int]@),
            forall|a: int| 0 <= a < out.len() ==> #[trigger] out[a] < rows.len(),
            out@.map_values(pick) == all.take(i as int).filter(p),
        decreases rows.len() - i,
    {
        let ghost before = out@;
        proof {
            reveal(Seq::filter);
            assert(all.take(i + 1).drop_last() =~= all.take(i as int));
            assert(all.take(i + 1).last() == rows@[i as int]@);
        }
        if empty || rows[i].matches > 0 {
            out.push(i);
            assert(out@.map_values(pick) =~= before.map_values(pick).push(rows@[i as int]@));
        }
        i = i + 1;
    }
    assert(all.take(all.len() as int) =~= all);
    out
}

/// What a search had to do without.
pub open spec fn search_words(
    s: Shortages,
    embedded_query: bool,
    stale_count: nat,
    api_embedder: bool,
) -> Seq<Seq<char>> {
    status::shortage_words(s) + status::word_if(!embedded_query, "semantic_degraded"@) + status::word_if(
        stale_count > 0,
        "embeddings_pending"@,
    ) + status::word_if(!api_embedder, "stub_embedder"@) + status::word_if(s.vector_degraded, "vector_degraded"@)
}

/// Names what a search had to do without: a vector of the query, vectors of some symbols, a model
/// that tells meanings apart, or vectors that keep up.
pub fn search_modes(s: Shortages, embedded_query: bool, stale_count: usize, api_embedder: bool) -> (r:
    Vec<String>)
    ensures
        text::texts(r@) == search_words(s, embedded_query, stale_count as nat, api_embedder),
{
    let mut modes = degraded_modes(s);
    note_if(!embedded_query, "semantic_degraded", &mut modes);
    note_if(stale_count > 0, "embeddings_pending", &mut modes);
    note_if(!api_embedder, "stub_embedder", &mut modes);
    note_if(s.vector_degraded, "vector_degraded", &mut modes);
    modes
}

/// How many of the nearest vectors the index is asked for.
pub fn nearest_asked(limit: usize) -> (k: usize)
    ensures
        k == (if limit * 10 > usize::MAX {
            usize::MAX as int
        } else if limit * 10 > 50 {
            limit * 10
        } else {
            50
        }),
{
    let wide = match limit.checked_mul(10) {
        Some(x) => x,
        None => usize::MAX,
    };
    if wide > 50 {
        wide
    } else {
        50
    }
}

} // verus!
