//! What holds of the graph and of places in texts.

use crate::graph;
use crate::graph::{EdgeType, GraphEdge, GraphView, Language, RevisionStatus, RevisionView};
use crate::ids::{BranchId, IdentityId, NodeRevisionId};
use crate::language;
use crate::query_engine;
use crate::seqs;
use crate::spans;
use crate::text;
use crate::text_laws;
use crate::tree_laws;
use vstd::prelude::*;

verus! {

/// What a search for the first element of a list gives.
proof fn lemma_first_at<A>(s: Seq<A>, p: spec_fn(A) -> bool, k: int)
    ensures
        0 <= k < s.len() && p(s[k]) && (forall|j: int| 0 <= j < k ==> !p(#[trigger] s[j])) ==> seqs::first_such(
            s,
            p,
        ) == Some(s[k]),
        (forall|j: int| 0 <= j < s.len() ==> !p(#[trigger] s[j])) ==> seqs::first_such(s, p) is None,
    decreases s.len(),
{
    if s.len() > 0 {
        let rest = s.drop_first();
        lemma_first_at(rest, p, k - 1);
        assert forall|j: int| 0 <= j < rest.len() implies #[trigger] rest[j] == s[j + 1] by {}
        if p(s[0]) && k > 0 && (forall|j: int| 0 <= j < k ==> !p(#[trigger] s[j])) {
            assert(!p(s[0]));
        }
        if (forall|j: int| 0 <= j < s.len() ==> !p(#[trigger] s[j])) {
            assert(!p(s[0]));
        }
    }
}

/// A revision is found by its id, and none by an id that no revision has.
pub proof fn law_revision_by_id(g: GraphView, k: int, rid: NodeRevisionId)
    requires
        graph::ids_unique(g.revisions),
    ensures
        0 <= k < g.revisions.len() ==> g.rev(g.revisions[k].revision_id) == Some(g.revisions[k]),
        (forall|j: int| 0 <= j < g.revisions.len() ==> (#[trigger] g.revisions[j]).revision_id != rid) ==> g.rev(
            rid,
        ) is None,
{
    if 0 <= k < g.revisions.len() {
        let id = g.revisions[k].revision_id;
        assert forall|j: int| 0 <= j < k implies (#[trigger] g.revisions[j]).revision_id != id by {}
        lemma_first_at(g.revisions, |r: RevisionView| r.revision_id == id, k);
    }
    lemma_first_at(g.revisions, |r: RevisionView| r.revision_id == rid, 0);
}

/// The edges that leave a revision are those that were put there last, and those of other revisions stay.
pub proof fn law_edges_put_are_found(g: GraphView, rid: NodeRevisionId, edges: Seq<GraphEdge>, other: NodeRevisionId)
    ensures
        g.with_edges(rid, edges).out(rid) == edges,
        other != rid ==> g.with_edges(rid, edges).out(other) == g.out(other),
        g.with_edges(rid, edges).rev(other) == g.rev(other),
{
}

/// What a renamed revision lives on as: the target of its first edge that tells of a rename.
pub proof fn law_successor(g: GraphView, rid: NodeRevisionId, k: int)
    ensures
        0 <= k < g.out(rid).len() && g.out(rid)[k].ty == EdgeType::RenamedFrom && (forall|j: int|
            0 <= j < k ==> (#[trigger] g.out(rid)[j]).ty != EdgeType::RenamedFrom) ==> g.rename_successor(rid)
            == Some(g.out(rid)[k].target_identity_id),
        (forall|j: int| 0 <= j < g.out(rid).len() ==> (#[trigger] g.out(rid)[j]).ty != EdgeType::RenamedFrom)
            ==> g.rename_successor(rid) is None,
{
    lemma_first_at(g.out(rid), |e: GraphEdge| e.ty == EdgeType::RenamedFrom, k);
}

/// The symbols that refer to a symbol: those of which some revision has an edge to it, of whatever type;
/// each once.
pub proof fn law_sources(g: GraphView, n: nat, iid: IdentityId, s: IdentityId)
    requires
        n <= g.revisions.len(),
    ensures
        g.sources_among(n, iid).contains(s) <==> exists|i: int, k: int|
            #![trigger g.revisions[i], g.out(g.revisions[i].revision_id)[k]]
            0 <= i < n && g.revisions[i].identity_id == s && 0 <= k < g.out(g.revisions[i].revision_id).len()
                && g.out(g.revisions[i].revision_id)[k].target_identity_id == iid,
        g.sources_among(n, iid).no_duplicates(),
    decreases n,
{
    if n > 0 {
        let p = (n - 1) as nat;
        let a = g.sources_among(p, iid);
        let r = g.revisions[n - 1];
        law_sources(g, p, iid, s);
        if g.targets(r.revision_id, iid) {
            let k = choose|k: int|
                0 <= k < g.out(r.revision_id).len() && (#[trigger] g.out(r.revision_id)[k]).target_identity_id
                    == iid;
            assert(g.out(g.revisions[n - 1].revision_id)[k].target_identity_id == iid);
            if !a.contains(r.identity_id) {
                assert(a.push(r.identity_id) =~= a + seq![r.identity_id]);
                tree_laws::lemma_both(a, seq![r.identity_id], s);
                tree_laws::lemma_one(r.identity_id, s);
                assert forall|i: int, j: int| 0 <= i < j < a.push(r.identity_id).len() implies a.push(
                    r.identity_id,
                )[i] != a.push(r.identity_id)[j] by {
                    if j == a.len() {
                        assert(a.contains(a[i]));
                    }
                }
            }
        }
        if exists|i: int, k: int|
            #![trigger g.revisions[i], g.out(g.revisions[i].revision_id)[k]]
            0 <= i < n && g.revisions[i].identity_id == s && 0 <= k < g.out(g.revisions[i].revision_id).len()
                && g.out(g.revisions[i].revision_id)[k].target_identity_id == iid {
            let (i, k) = choose|i: int, k: int|
                #![trigger g.revisions[i], g.out(g.revisions[i].revision_id)[k]]
                0 <= i < n && g.revisions[i].identity_id == s && 0 <= k < g.out(
                    g.revisions[i].revision_id,
                ).len() && g.out(g.revisions[i].revision_id)[k].target_identity_id == iid;
            if i == n - 1 {
                assert(g.targets(r.revision_id, iid));
            }
        }
    }
}

/// The tombstone of a symbol is looked for from the nearest branch on.
pub proof fn law_nearest_tombstone(g: GraphView, chain: Seq<BranchId>, iid: IdentityId, k: int)
    ensures
        0 <= k < chain.len() && g.in_status(chain[k], iid, RevisionStatus::Tombstone) is Some && (forall|j: int|
            0 <= j < k ==> g.in_status(#[trigger] chain[j], iid, RevisionStatus::Tombstone) is None)
            ==> g.tombstone_in_chain(chain, iid) == g.in_status(chain[k], iid, RevisionStatus::Tombstone),
        (forall|j: int|
            0 <= j < chain.len() ==> g.in_status(#[trigger] chain[j], iid, RevisionStatus::Tombstone) is None)
            ==> g.tombstone_in_chain(chain, iid) is None,
    decreases chain.len(),
{
    if chain.len() > 0 {
        let rest = chain.drop_first();
        law_nearest_tombstone(g, rest, iid, k - 1);
        assert forall|j: int| 0 <= j < rest.len() implies #[trigger] rest[j] == chain[j + 1] by {}
        if k > 0 && (forall|j: int|
            0 <= j < k ==> g.in_status(#[trigger] chain[j], iid, RevisionStatus::Tombstone) is None) {
            assert(g.in_status(chain[0], iid, RevisionStatus::Tombstone) is None);
        }
        if forall|j: int|
            0 <= j < chain.len() ==> g.in_status(#[trigger] chain[j], iid, RevisionStatus::Tombstone) is None {
            assert(g.in_status(chain[0], iid, RevisionStatus::Tombstone) is None);
        }
    }
}

/// The first revision of a symbol on a branch that has a status; there is none only if none has it.
pub proof fn law_first_in_status(
    g: GraphView,
    branch: BranchId,
    iid: IdentityId,
    status: RevisionStatus,
    k: int,
)
    ensures
        0 <= k < g.revisions.len() && has_status(g.revisions[k], branch, iid, status) && (forall|j: int|
            0 <= j < k ==> !has_status(#[trigger] g.revisions[j], branch, iid, status)) ==> g.in_status(
            branch,
            iid,
            status,
        ) == Some(g.revisions[k]),
        (forall|j: int|
            0 <= j < g.revisions.len() ==> !has_status(#[trigger] g.revisions[j], branch, iid, status))
            ==> g.in_status(branch, iid, status) is None,
{
    let p = |r: RevisionView| r.branch_id == branch && r.identity_id == iid && r.status == status;
    assert forall|r: RevisionView| #[trigger] p(r) == has_status(r, branch, iid, status) by {}
    lemma_first_at(g.revisions, p, k);
}

/// A revision of a symbol on a branch in a status.
pub open spec fn has_status(r: RevisionView, branch: BranchId, iid: IdentityId, status: RevisionStatus) -> bool {
    r.branch_id == branch && r.identity_id == iid && r.status == status
}

/// The hub of a file: of the ids that are derived for the branches of a chain, nearest first, the first
/// that the graph has on a branch of the chain.
pub proof fn law_hub_of_a_file(g: GraphView, chain: Seq<BranchId>, branches: Seq<BranchId>, path: Seq<char>, k: int)
    ensures
        0 <= k < branches.len() && leads_to_hub(g, chain, branches[k], path) && (forall|j: int|
            0 <= j < k ==> !leads_to_hub(g, chain, #[trigger] branches[j], path)) ==> query_engine::hub_by_ids(
            g,
            chain,
            branches,
            path,
        ) == g.hub_id(branches[k], path),
        (forall|j: int| 0 <= j < branches.len() ==> !leads_to_hub(g, chain, #[trigger] branches[j], path))
            ==> query_engine::hub_by_ids(g, chain, branches, path) is None,
    decreases branches.len(),
{
    if branches.len() > 0 {
        let rest = branches.skip(1);
        law_hub_of_a_file(g, chain, rest, path, k - 1);
        assert forall|j: int| 0 <= j < rest.len() implies #[trigger] rest[j] == branches[j + 1] by {}
        if k > 0 && (forall|j: int| 0 <= j < k ==> !leads_to_hub(g, chain, #[trigger] branches[j], path)) {
            assert(!leads_to_hub(g, chain, branches[0], path));
        }
        if forall|j: int| 0 <= j < branches.len() ==> !leads_to_hub(g, chain, #[trigger] branches[j], path) {
            assert(!leads_to_hub(g, chain, branches[0], path));
        }
    }
}

/// The id that is derived for a file on a branch leads to a revision on the chain.
pub open spec fn leads_to_hub(g: GraphView, chain: Seq<BranchId>, branch: BranchId, path: Seq<char>) -> bool {
    match g.hub_id(branch, path) {
        Some(rid) => g.rev(rid) is Some && chain.contains(g.rev(rid)->0.branch_id),
        None => false,
    }
}

/// Which language a file is in, by the end of its name.
pub proof fn law_language(base: Seq<char>, path: Seq<char>)
    ensures
        language::language_of(base + ".py"@) == Language::Python,
        language::language_of(base + ".ts"@) == Language::TypeScript,
        language::language_of(base + ".tsx"@) == Language::TypeScript,
        language::language_of(base + ".rs"@) == Language::Rust,
        !text::finishes_with(path, ".py"@) && !text::finishes_with(path, ".ts"@) && !text::finishes_with(
            path,
            ".tsx"@,
        ) && !text::finishes_with(path, ".rs"@) ==> language::language_of(path) == Language::Unknown
            && !language::indexable(path),
{
    reveal_strlit(".py");
    reveal_strlit(".ts");
    reveal_strlit(".tsx");
    reveal_strlit(".rs");
    let (a, b, c, d) = (base + ".py"@, base + ".ts"@, base + ".tsx"@, base + ".rs"@);
    text_laws::law_parts_of_texts(base, ".py"@, Seq::empty(), a);
    text_laws::law_parts_of_texts(base, ".ts"@, Seq::empty(), b);
    text_laws::law_parts_of_texts(base, ".tsx"@, Seq::empty(), c);
    text_laws::law_parts_of_texts(base, ".rs"@, Seq::empty(), d);
    lemma_last_of(b, ".py"@);
    lemma_last_of(c, ".py"@);
    lemma_last_of(d, ".py"@);
    lemma_last_of(d, ".ts"@);
    lemma_last_of(d, ".tsx"@);
    assert(b.last() == 's' && c.last() == 'x' && d.last() == 's');
    if text::finishes_with(d, ".ts"@) {
        assert(d.subrange(d.len() - 3, d.len() as int)[1] == 't');
        assert(d[d.len() - 2] == 'r');
    }
}

proof fn lemma_last_of(s: Seq<char>, p: Seq<char>)
    requires
        p.len() > 0,
    ensures
        text::finishes_with(s, p) ==> s.len() > 0 && s.last() == p.last(),
{
    if text::finishes_with(s, p) {
        assert(s.subrange(s.len() - p.len(), s.len() as int)[p.len() - 1] == s.last());
    }
}

proof fn lemma_byte_len_front(c: char, s: Seq<char>)
    ensures
        spans::byte_len(seq![c] + s) == spans::width(c) + spans::byte_len(s),
    decreases s.len(),
{
    reveal_with_fuel(spans::byte_len, 2);
    let t = seq![c] + s;
    if s.len() > 0 {
        lemma_byte_len_front(c, s.drop_last());
        assert(t.drop_last() =~= seq![c] + s.drop_last());
        assert(t.last() == s.last());
    } else {
        assert(t.drop_last() =~= Seq::empty());
        assert(t.last() == c);
    }
}

proof fn lemma_width(c: char)
    ensures
        1 <= spans::width(c) <= 4,
{
}

/// What lies before a text that is cut off at a byte: as many characters as have that many bytes.
pub proof fn lemma_index_of_front(a: Seq<char>, r: Seq<char>)
    ensures
        spans::index_at(a + r, spans::byte_len(a)) == Some(a.len()),
    decreases a.len(),
{
    if a.len() > 0 {
        let rest = a.skip(1);
        lemma_byte_len_front(a[0], rest);
        assert(seq![a[0]] + rest =~= a);
        lemma_width(a[0]);
        lemma_index_of_front(rest, r);
        assert((a + r).skip(1) =~= rest + r);
        assert((a + r)[0] == a[0]);
    }
}

/// The text between two places, told in bytes.
pub proof fn law_text_between(a: Seq<char>, b: Seq<char>, c: Seq<char>)
    ensures
        spans::text_between(a + b + c, spans::byte_len(a), spans::byte_len(a + b)) == b,
        spans::text_from(a + b, spans::byte_len(a)) == b,
{
    lemma_index_of_front(a, b + c);
    lemma_index_of_front(a + b, c);
    lemma_index_of_front(a, b);
    assert(a + (b + c) =~= a + b + c);
    assert((a + b + c).subrange(a.len() as int, (a + b).len() as int) =~= b);
    assert((a + b).skip(a.len() as int) =~= b);
}

proof fn lemma_point_of_front(a: Seq<char>, r: Seq<char>, line: u32, col: u32)
    ensures
        spans::point_from(a + r, spans::byte_len(a), line, col) == spans::end_point(a, line, col),
    decreases a.len(),
{
    if a.len() > 0 {
        let rest = a.skip(1);
        lemma_byte_len_front(a[0], rest);
        assert(seq![a[0]] + rest =~= a);
        lemma_width(a[0]);
        assert((a + r).skip(1) =~= rest + r);
        assert((a + r)[0] == a[0]);
        if a[0] == '\n' {
            lemma_point_of_front(rest, r, spans::next_capped(line, 1), 0);
        } else {
            lemma_point_of_front(rest, r, line, spans::next_capped(col, spans::width(a[0])));
        }
    }
}

proof fn lemma_end_point_push(a: Seq<char>, c: char, line: u32, col: u32)
    ensures
        spans::end_point(a.push(c), line, col) == (if c == '\n' {
            (spans::next_capped(spans::end_point(a, line, col).0, 1), 0u32)
        } else {
            (
                spans::end_point(a, line, col).0,
                spans::next_capped(spans::end_point(a, line, col).1, spans::width(c)),
            )
        }),
    decreases a.len(),
{
    reveal_with_fuel(spans::end_point, 2);
    if a.len() > 0 {
        assert(a.push(c).skip(1) =~= a.skip(1).push(c));
        assert(a.push(c)[0] == a[0]);
        if a[0] == '\n' {
            lemma_end_point_push(a.skip(1), c, spans::next_capped(line, 1), 0);
        } else {
            lemma_end_point_push(a.skip(1), c, line, spans::next_capped(col, spans::width(a[0])));
        }
    } else {
        assert(a.push(c).skip(1) =~= Seq::empty());
        assert(a.push(c)[0] == c);
    }
}

/// Lines are counted from one and columns, in bytes, from zero: behind an end of line a new line begins,
/// behind any other character the column grows by the bytes that it takes.
pub proof fn law_lines_and_columns(a: Seq<char>, c: char, r: Seq<char>)
    requires
        spans::point_at(a + seq![c] + r, spans::byte_len(a)).0 < u32::MAX,
        spans::point_at(a + seq![c] + r, spans::byte_len(a)).1 < u32::MAX - 4,
    ensures
        ({
            let s = a + seq![c] + r;
            let before = spans::point_at(s, spans::byte_len(a));
            let behind = spans::point_at(s, spans::byte_len(a + seq![c]));
            &&& spans::point_at(s, 0) == (1u32, 0u32)
            &&& c == '\n' ==> behind.0 == before.0 + 1 && behind.1 == 0
            &&& c != '\n' ==> behind.0 == before.0 && behind.1 == before.1 + spans::width(c)
            &&& (c as u32) < 128 ==> spans::width(c) == 1
        }),
{
    let s = a + seq![c] + r;
    lemma_point_of_front(a, seq![c] + r, 1, 0);
    lemma_point_of_front(a + seq![c], r, 1, 0);
    assert(a + (seq![c] + r) =~= s);
    lemma_end_point_push(a, c, 1, 0);
    assert(a.push(c) =~= a + seq![c]);
    lemma_width(c);
}

/// A span goes from the point of its first byte to that of the byte behind it; the span of a whole text
/// to the point behind the text.
pub proof fn law_spans(s: Seq<char>, from: nat, to: nat)
    ensures
        spans::span_between(s, from, to).start_line == spans::point_at(s, from).0,
        spans::span_between(s, from, to).start_col == spans::point_at(s, from).1,
        spans::span_between(s, from, to).end_line == spans::point_at(s, to).0,
        spans::span_between(s, from, to).end_col == spans::point_at(s, to).1,
        spans::whole_span(s) == spans::span_between(s, 0, spans::byte_len(s)),
{
    lemma_point_of_front(s, Seq::empty(), 1, 0);
    assert(s + Seq::<char>::empty() =~= s);
}

} // verus!
