//! What the rules of the engine come down to.

use crate::absence;
use crate::bytes;
use crate::graph::{GraphView, RevisionStatus, RevisionView};
use crate::ids::{BranchId, IdentityId, MergeId};
use crate::kv;
use crate::merge_branch;
use crate::merge_branch::{MergeOutcome, MergeState, merge_branch};
use crate::merge_classify::MergeWorkflowStatus;
use crate::merge_lock;
use crate::merge_metrics;
use crate::merge_metrics::MergeMetricsRecord;
use crate::merge_resume::ResumeInput;
use crate::path_lease;
use crate::path_lease::SessionId;
use crate::ranking_policy;
use crate::ranking_policy::{Fraction, FractionChecks, PolicyValidationError, RankingPolicy};
use crate::revision_index;
use crate::security;
use crate::security::AuthError;
use crate::semantic_ann;
use crate::semantic_ann::IndexedVectors;
use crate::semantic_search;
use crate::status;
use crate::status::{Findings, Shortages};
use crate::symbol_body;
use crate::symbol_body::BodySource;
use crate::text;
use crate::text_laws;
use crate::time_travel;
use crate::tree_laws;
use crate::wal;
use crate::wal::{MutationKind, MutationPhase};
use vstd::prelude::*;

verus! {

proof fn lemma_word(holds: bool, word: Seq<char>, w: Seq<char>)
    ensures
        status::word_if(holds, word).contains(w) <==> holds && w == word,
{
    tree_laws::lemma_one(word, w);
}

/// Which words a shortage has.
pub proof fn law_shortage_words(s: Shortages, w: Seq<char>)
    ensures
        status::shortage_words(s).contains(w) <==> {
            ||| !s.lsp_active && w == "lsp_unavailable"@
            ||| s.disk_pressure && w == "disk_pressure"@
            ||| s.vector_degraded && w == "vector_degraded"@
        },
{
    let a = status::word_if(!s.lsp_active, "lsp_unavailable"@);
    let b = status::word_if(s.disk_pressure, "disk_pressure"@);
    let c = status::word_if(s.vector_degraded, "vector_degraded"@);
    tree_laws::lemma_both(a + b, c, w);
    tree_laws::lemma_both(a, b, w);
    lemma_word(!s.lsp_active, "lsp_unavailable"@, w);
    lemma_word(s.disk_pressure, "disk_pressure"@, w);
    lemma_word(s.vector_degraded, "vector_degraded"@, w);
}

/// Which words a report on health has, and when the engine is healthy.
pub proof fn law_health_words(s: Shortages, f: Findings, audit_ok: bool, w: Seq<char>)
    ensures
        status::health_words(s, f, audit_ok).contains(w) <==> {
            ||| !s.lsp_active && w == "lsp_unavailable"@
            ||| s.disk_pressure && w == "disk_pressure"@
            ||| s.vector_degraded && w == "vector_degraded"@
            ||| !f.clean && w == "consistency_violations"@
            ||| f.any_stale && w == "worker_stale"@
            ||| !audit_ok && w == "audit_chain_broken"@
        },
        !f.clean || !audit_ok || f.any_stale || s.disk_pressure ==> !status::is_healthy(s, f, audit_ok),
        f.clean && audit_ok && !f.any_stale && !s.disk_pressure ==> status::is_healthy(s, f, audit_ok),
{
    let a = status::shortage_words(s);
    let b = status::word_if(!f.clean, "consistency_violations"@);
    let c = status::word_if(f.any_stale, "worker_stale"@);
    let d = status::word_if(!audit_ok, "audit_chain_broken"@);
    tree_laws::lemma_both(a + b + c, d, w);
    tree_laws::lemma_both(a + b, c, w);
    tree_laws::lemma_both(a, b, w);
    law_shortage_words(s, w);
    lemma_word(!f.clean, "consistency_violations"@, w);
    lemma_word(f.any_stale, "worker_stale"@, w);
    lemma_word(!audit_ok, "audit_chain_broken"@, w);
}

/// Which words a status of the index has.
pub proof fn law_index_words(s: Shortages, ever_indexed: bool, w: Seq<char>)
    ensures
        status::index_words(s, ever_indexed).contains(w) <==> status::shortage_words(s).contains(w)
            || !ever_indexed && w == "index_not_bootstrapped"@,
{
    tree_laws::lemma_both(
        status::shortage_words(s),
        status::word_if(!ever_indexed, "index_not_bootstrapped"@),
        w,
    );
    lemma_word(!ever_indexed, "index_not_bootstrapped"@, w);
}

/// Which words the answer to a search has.
pub proof fn law_search_words(
    s: Shortages,
    embedded_query: bool,
    stale_count: nat,
    api_embedder: bool,
    w: Seq<char>,
)
    ensures
        semantic_search::search_words(s, embedded_query, stale_count, api_embedder).contains(w) <==> {
            ||| !s.lsp_active && w == "lsp_unavailable"@
            ||| s.disk_pressure && w == "disk_pressure"@
            ||| s.vector_degraded && w == "vector_degraded"@
            ||| !embedded_query && w == "semantic_degraded"@
            ||| stale_count > 0 && w == "embeddings_pending"@
            ||| !api_embedder && w == "stub_embedder"@
        },
{
    let a = status::shortage_words(s);
    let b = status::word_if(!embedded_query, "semantic_degraded"@);
    let c = status::word_if(stale_count > 0, "embeddings_pending"@);
    let d = status::word_if(!api_embedder, "stub_embedder"@);
    let e = status::word_if(s.vector_degraded, "vector_degraded"@);
    tree_laws::lemma_both(a + b + c + d, e, w);
    tree_laws::lemma_both(a + b + c, d, w);
    tree_laws::lemma_both(a + b, c, w);
    tree_laws::lemma_both(a, b, w);
    law_shortage_words(s, w);
    lemma_word(!embedded_query, "semantic_degraded"@, w);
    lemma_word(stale_count > 0, "embeddings_pending"@, w);
    lemma_word(!api_embedder, "stub_embedder"@, w);
    lemma_word(s.vector_degraded, "vector_degraded"@, w);
}

/// The branches that wait are those that have a job.
pub proof fn law_pending_branches(jobs: Set<(BranchId, u64)>, branches: Seq<(Seq<char>, BranchId)>, name: Seq<char>)
    ensures
        status::pending_names(jobs, branches).contains(name) <==> exists|i: int, job: u64|
            0 <= i < branches.len() && (#[trigger] branches[i]).0 == name && #[trigger] jobs.contains(
                (branches[i].1, job),
            ),
    decreases branches.len(),
{
    if branches.len() > 0 {
        let front = branches.drop_last();
        let l = branches.last();
        law_pending_branches(jobs, front, name);
        tree_laws::lemma_both(
            status::pending_names(jobs, front),
            status::word_if(status::has_jobs(jobs, l.1), l.0),
            name,
        );
        lemma_word(status::has_jobs(jobs, l.1), l.0, name);
        assert forall|i: int| 0 <= i < front.len() implies #[trigger] front[i] == branches[i] by {}
        assert(branches[branches.len() - 1] == l);
        if status::pending_names(jobs, front).contains(name) {
            let (i, job) = choose|i: int, job: u64|
                0 <= i < front.len() && (#[trigger] front[i]).0 == name && #[trigger] jobs.contains(
                    (front[i].1, job),
                );
            assert(branches[i].0 == name && jobs.contains((branches[i].1, job)));
        }
        if status::has_jobs(jobs, l.1) && l.0 == name {
            let job = choose|job: u64| #[trigger] jobs.contains((l.1, job));
            assert(branches[branches.len() - 1].0 == name && jobs.contains(
                (branches[branches.len() - 1].1, job),
            ));
        }
        if exists|i: int, job: u64|
            0 <= i < branches.len() && (#[trigger] branches[i]).0 == name && #[trigger] jobs.contains(
                (branches[i].1, job),
            ) {
            let (i, job) = choose|i: int, job: u64|
                0 <= i < branches.len() && (#[trigger] branches[i]).0 == name && #[trigger] jobs.contains(
                    (branches[i].1, job),
                );
            if i < front.len() {
                assert(front[i].0 == name && jobs.contains((front[i].1, job)));
            } else {
                assert(jobs.contains((l.1, job)));
            }
        }
    }
}

/// The files that count as scanned: those of the revisions that end like Python or TypeScript, each once.
pub proof fn law_scanned_files(revs: Seq<RevisionView>, path: Seq<char>)
    ensures
        status::scanned_files(revs).contains(path) <==> (text::finishes_with(path, ".py"@)
            || text::finishes_with(path, ".ts"@) || text::finishes_with(path, ".tsx"@)) && exists|i: int|
            0 <= i < revs.len() && (#[trigger] revs[i]).file_path == path,
        status::scanned_files(revs).no_duplicates(),
    decreases revs.len(),
{
    if revs.len() > 0 {
        let front = revs.drop_last();
        let q = revs.last().file_path;
        let a = status::scanned_files(front);
        law_scanned_files(front, path);
        assert forall|i: int| 0 <= i < front.len() implies #[trigger] front[i] == revs[i] by {}
        assert(revs[revs.len() - 1].file_path == q);
        if status::is_scanned_file(q) && !a.contains(q) {
            assert(a.push(q) =~= a + seq![q]);
            tree_laws::lemma_both(a, seq![q], path);
            tree_laws::lemma_one(q, path);
            assert forall|i: int, j: int| 0 <= i < j < a.push(q).len() implies a.push(q)[i] != a.push(q)[j] by {
                if j == a.len() {
                    assert(a.contains(a[i]));
                }
            }
        }
        if a.contains(path) {
            let i = choose|i: int| 0 <= i < front.len() && (#[trigger] front[i]).file_path == path;
            assert(revs[i].file_path == path);
        }
        if exists|i: int| 0 <= i < revs.len() && (#[trigger] revs[i]).file_path == path {
            let i = choose|i: int| 0 <= i < revs.len() && (#[trigger] revs[i]).file_path == path;
            if i < front.len() {
                assert(front[i].file_path == path);
            }
        }
    }
}

/// How many revisions have a body that is known.
pub proof fn law_known_bodies(revs: Seq<RevisionView>, hashes: Seq<[u8; 32]>)
    ensures
        status::bodies_among(revs, hashes) == revs.filter(|r: RevisionView| hashes.contains(r.body_hash)).len(),
    decreases revs.len(),
{
    reveal(Seq::filter);
    if revs.len() > 0 {
        law_known_bodies(revs.drop_last(), hashes);
    }
}

/// The rows of a search: of the active revisions of the branch, in order, who they are and how often
/// their names have the text; and of no other.
pub proof fn law_search_rows(revs: Seq<RevisionView>, branch: BranchId, needle: Seq<char>, i: int)
    ensures
        ({
            let active = revs.filter(
                |r: RevisionView| r.branch_id == branch && r.status == RevisionStatus::Active,
            );
            let rows = semantic_search::active_rows(revs, branch, needle);
            &&& rows.len() == active.len()
            &&& 0 <= i < rows.len() ==> rows[i].revision_id == active[i].revision_id && rows[i].qualified_name
                == active[i].qualified_name && rows[i].body_hash == active[i].body_hash && rows[i].matches
                == semantic_search::match_count(
                time_travel::lowercase_of(active[i].qualified_name),
                needle,
            )
        }),
    decreases revs.len(),
{
    reveal(Seq::filter);
    if revs.len() > 0 {
        law_search_rows(revs.drop_last(), branch, needle, i);
    }
}

/// How often a text stands in another, from the left: once more where it stands in front, as often as in
/// the rest where it does not, and never in a text that does not have it.
pub proof fn law_counted_matches(s: Seq<char>, p: Seq<char>)
    requires
        p.len() > 0,
    ensures
        semantic_search::match_count(p + s, p) == 1 + semantic_search::match_count(s, p),
        s.len() > 0 && !text::begins_with(s, p) ==> semantic_search::match_count(s, p)
            == semantic_search::match_count(s.skip(1), p),
        s.len() == 0 ==> semantic_search::match_count(s, p) == 0,
{
    text_laws::law_parts_of_texts(Seq::empty(), p, s, s);
    assert((p + s).skip(p.len() as int) =~= s);
}

/// Which fault of a policy is told: the first of those that it has, and none if it has none.
pub proof fn law_policy_faults(p: RankingPolicy, c: FractionChecks)
    ensures
        ({
            let r = ranking_policy::policy_fault(p, c);
            let fractions = c.axis_weights && c.min_path_confidence && c.structural_threshold
                && c.rename_min_confidence && c.body_similarity_threshold && c.name_proximity_threshold;
            let queue = p.embedding_queue_lwm < p.embedding_queue_hwm;
            let disk = 0 < p.disk_min_free_pct < 100;
            let days = p.tombstone_retention_days;
            &&& r is None <==> fractions && queue && disk && days > 0 && days >= p.rename_detection_window_days
            &&& !c.axis_weights ==> r == Some(PolicyValidationError::AxisWeightsSum)
            &&& fractions && !queue ==> r == Some(
                PolicyValidationError::EmbeddingQueueWatermarks {
                    lwm: p.embedding_queue_lwm,
                    hwm: p.embedding_queue_hwm,
                },
            )
            &&& fractions && queue && !disk ==> r == Some(
                PolicyValidationError::DiskMinFreePct(p.disk_min_free_pct),
            )
            &&& fractions && queue && disk && days == 0 ==> r == Some(
                PolicyValidationError::TombstoneRetentionZero(days),
            )
            &&& fractions && queue && disk && 0 < days < p.rename_detection_window_days ==> r == Some(
                PolicyValidationError::TombstoneRetentionVsRenameWindow {
                    retention: days,
                    window: p.rename_detection_window_days,
                },
            )
            &&& c.axis_weights && !fractions ==> (r matches Some(PolicyValidationError::ProbabilityOutOfRange {
                field,
            }) && match field {
                Fraction::MinPathConfidence => !c.min_path_confidence,
                Fraction::StructuralThreshold => !c.structural_threshold,
                Fraction::RenameMinConfidence => !c.rename_min_confidence,
                Fraction::BodySimilarityThreshold => !c.body_similarity_threshold,
                Fraction::NameProximityThreshold => !c.name_proximity_threshold,
            })
        }),
{
}

/// The text of a symbol is taken from the first place that has one: its bytes in memory, its saved bytes,
/// its file as it is known, its file on disk; else it is told that there is none.
pub proof fn law_place_of_a_body(
    stored: Option<Seq<u8>>,
    blob: Option<Seq<u8>>,
    cached: Option<Seq<char>>,
    on_disk: Option<Seq<char>>,
    rev: RevisionView,
    t: Seq<char>,
)
    requires
        t.len() > 0,
    ensures
        ({
            let r = symbol_body::body_of(stored, blob, cached, on_disk, rev);
            let has_stored = stored is Some && vstd::utf8::valid_utf8(stored->0) && vstd::utf8::decode_utf8(
                stored->0,
            ).len() > 0;
            let has_blob = blob is Some && vstd::utf8::valid_utf8(blob->0) && vstd::utf8::decode_utf8(
                blob->0,
            ).len() > 0;
            let has_cached = cached is Some && cached->0.len() > 0;
            &&& has_stored ==> r == (vstd::utf8::decode_utf8(stored->0), BodySource::BodyStore)
            &&& !has_stored && has_blob ==> r == (vstd::utf8::decode_utf8(blob->0), BodySource::CisBlob)
            &&& !has_stored && !has_blob && cached == Some(t) ==> r == (t, BodySource::Disk)
            &&& !has_stored && !has_blob && !has_cached && on_disk == Some(t) ==> r == (t, BodySource::Disk)
            &&& !has_stored && !has_blob && !has_cached && on_disk is None ==> r.1 == BodySource::Stub
        }),
{
}

/// A symbol is hidden from a chain of branches: some branch of it has a mark of deletion, which is that of
/// the nearest, or was set no later than the next nearer branch left it, as far as that is known.
pub proof fn law_hidden_symbols(m: Map<Seq<char>, Seq<u8>>, chain: Seq<BranchId>, identity: IdentityId, k: int, t: u64, f: u64)
    requires
        0 <= k < chain.len(),
    ensures
        k == 0 && absence::deleted_at(m, chain[0], identity) == Some(t) ==> absence::hidden(m, chain, identity),
        k > 0 && absence::deleted_at(m, chain[k], identity) == Some(t) && revision_index::forked_at(
            m,
            chain[k - 1],
        ) == Some(f) && t <= f ==> absence::hidden(m, chain, identity),
        k > 0 && absence::deleted_at(m, chain[k], identity) == Some(t) && revision_index::forked_at(
            m,
            chain[k - 1],
        ) is None ==> absence::hidden(m, chain, identity),
        (forall|j: int|
            0 <= j < chain.len() ==> absence::deleted_at(m, #[trigger] chain[j], identity) is None)
            ==> !absence::hidden(m, chain, identity),
        chain.len() == 2 && absence::deleted_at(m, chain[0], identity) is None && absence::deleted_at(
            m,
            chain[1],
            identity,
        ) == Some(t) && revision_index::forked_at(m, chain[0]) == Some(f) && t > f ==> !absence::hidden(
            m,
            chain,
            identity,
        ),
{
    if k == 0 {
        assert(absence::deleted_at(m, chain[0], identity) == Some(t) ==> absence::hides(m, chain, 0, identity));
    } else {
        assert(absence::deleted_at(m, chain[k], identity) == Some(t) && revision_index::forked_at(
            m,
            chain[k - 1],
        ) == Some(f) && t <= f ==> absence::hides(m, chain, k, identity));
        assert(absence::deleted_at(m, chain[k], identity) == Some(t) && revision_index::forked_at(
            m,
            chain[k - 1],
        ) is None ==> absence::hides(m, chain, k, identity));
    }
    if absence::hidden(m, chain, identity) {
        let j = choose|j: int| 0 <= j < chain.len() && #[trigger] absence::hides(m, chain, j, identity);
        assert(absence::deleted_at(m, chain[j], identity) is Some);
    }
}

/// A merge's lock is out of time once more hours have passed since the merge began than it may hold it;
/// a merge of which no beginning is known never is.
pub proof fn law_lock_runs_out(m: Map<Seq<char>, Seq<u8>>, merge_id: MergeId, start: u64, now_ms: u64, ttl_hours: u32)
    ensures
        kv::value_at(m, merge_lock::started_key(merge_id)) == Some(bytes::le(start as nat, 8)) ==> (
        merge_lock::ttl_expired(m, merge_id, now_ms, ttl_hours) <==> now_ms > start + ttl_hours * 3_600_000),
        kv::value_at(m, merge_lock::started_key(merge_id)) is None ==> !merge_lock::ttl_expired(
            m,
            merge_id,
            now_ms,
            ttl_hours,
        ),
{
    bytes::lemma_le_spans();
    bytes::lemma_le_reads_back(start as nat, 8);
}

/// A lease that a session gives back is free; one that another has stays where it is; no other path
/// changes hands.
pub proof fn law_released_lease(m: Map<Seq<char>, SessionId>, path: Seq<char>, session: SessionId, other: Seq<char>)
    ensures
        ({
            let after = path_lease::lease_released(m, path, session);
            &&& m.contains_key(path) && m[path] == session ==> !after.contains_key(path)
            &&& m.contains_key(path) && m[path] != session ==> after.contains_key(path) && after[path]
                == m[path]
            &&& other != path ==> (after.contains_key(other) <==> m.contains_key(other)) && (m.contains_key(
                other,
            ) ==> after[other] == m[other])
        }),
{
}

/// A session may use a path that stands below one of its roots and does not climb; no other.
pub proof fn law_allowed_paths(roots: Seq<Seq<char>>, i: int, rest: Seq<char>, path: Seq<char>)
    ensures
        0 <= i < roots.len() && path == roots[i] + rest && !text::contains_text(path, ".."@)
            ==> security::path_allowed(roots, path),
        text::contains_text(path, ".."@) ==> !security::path_allowed(roots, path),
        (forall|j: int| 0 <= j < roots.len() ==> !text::begins_with(path, #[trigger] roots[j]))
            ==> !security::path_allowed(roots, path),
{
    if 0 <= i < roots.len() && path == roots[i] + rest {
        text_laws::law_parts_of_texts(Seq::empty(), roots[i], rest, path);
    }
}

/// The records that are listed: those that were read and began no earlier than was asked, in order.
pub proof fn law_listed_records(read: Seq<Option<MergeMetricsRecord>>, since_ms: Option<u64>, rec: MergeMetricsRecord)
    ensures
        merge_metrics::kept_since(read, since_ms).contains(rec) <==> exists|i: int|
            0 <= i < read.len() && #[trigger] read[i] == Some(rec) && (since_ms is Some ==> rec.started_at_ms
                >= since_ms->0),
    decreases read.len(),
{
    if read.len() > 0 {
        let front = read.drop_last();
        law_listed_records(front, since_ms, rec);
        assert forall|i: int| 0 <= i < front.len() implies #[trigger] front[i] == read[i] by {}
        assert(read[read.len() - 1] == read.last());
        let a = merge_metrics::kept_since(front, since_ms);
        if let Some(r) = read.last() {
            assert(a.push(r) =~= a + seq![r]);
            tree_laws::lemma_both(a, seq![r], rec);
            tree_laws::lemma_one(r, rec);
        }
        if a.contains(rec) {
            let i = choose|i: int|
                0 <= i < front.len() && #[trigger] front[i] == Some(rec) && (since_ms is Some
                    ==> rec.started_at_ms >= since_ms->0);
            assert(read[i] == Some(rec));
        }
        if exists|i: int|
            0 <= i < read.len() && #[trigger] read[i] == Some(rec) && (since_ms is Some ==> rec.started_at_ms
                >= since_ms->0) {
            let i = choose|i: int|
                0 <= i < read.len() && #[trigger] read[i] == Some(rec) && (since_ms is Some
                    ==> rec.started_at_ms >= since_ms->0);
            if i < front.len() {
                assert(front[i] == Some(rec));
            }
        }
    }
}

/// Of a list that is too long the last are kept.
pub proof fn law_last_are_kept<T>(s: Seq<T>, limit: nat, i: int)
    ensures
        s.len() <= limit ==> merge_metrics::at_most_last(s, limit) == s,
        s.len() > limit ==> merge_metrics::at_most_last(s, limit).len() == limit,
        s.len() > limit && 0 <= i < limit ==> merge_metrics::at_most_last(s, limit)[i] == s[s.len() - limit + i],
{
}

/// How many answers are yes.
pub proof fn law_counted_answers(answers: Seq<bool>)
    ensures
        merge_metrics::count_of(answers) == answers.filter(|b: bool| b).len(),
    decreases answers.len(),
{
    reveal(Seq::filter);
    if answers.len() > 0 {
        law_counted_answers(answers.drop_last());
    }
}

/// A vector that was put in is there, and those of other bodies stay as they are; one that does not fit
/// the others changes nothing.
pub proof fn law_vector_put<T>(v: IndexedVectors<T>, hash: [u8; 32], vec: Seq<T>, other: [u8; 32], w: Seq<T>)
    requires
        semantic_ann::in_order(v),
    ensures
        ({
            let r = semantic_ann::vector_put(v, hash, vec);
            &&& vec.len() == 0 || v.dim != 0 && vec.len() != v.dim ==> r == v
            &&& vec.len() > 0 && (v.dim == 0 || vec.len() == v.dim) ==> r.entries.contains((hash, vec)) && r.dim
                == vec.len()
            &&& other != hash ==> (r.entries.contains((other, w)) <==> v.entries.contains((other, w)))
        }),
{
    lemma_place(v.entries, hash);
    let r = semantic_ann::vector_put(v, hash, vec);
    if vec.len() > 0 && (v.dim == 0 || vec.len() == v.dim) {
        match semantic_ann::place_of(v.entries, hash) {
            Some(i) => {
                assert(r.entries[i] == (hash, vec));
                assert forall|k: int| 0 <= k < v.entries.len() && k != i implies #[trigger] r.entries[k]
                    == v.entries[k] by {}
                if other != hash {
                    if v.entries.contains((other, w)) {
                        let k = choose|k: int| 0 <= k < v.entries.len() && v.entries[k] == (other, w);
                        assert(r.entries[k] == (other, w));
                    }
                    if r.entries.contains((other, w)) {
                        let k = choose|k: int| 0 <= k < r.entries.len() && r.entries[k] == (other, w);
                        assert(v.entries[k] == (other, w));
                    }
                }
            },
            None => {
                assert(r.entries =~= v.entries + seq![(hash, vec)]);
                tree_laws::lemma_both(v.entries, seq![(hash, vec)], (hash, vec));
                tree_laws::lemma_both(v.entries, seq![(hash, vec)], (other, w));
                tree_laws::lemma_one((hash, vec), (hash, vec));
                tree_laws::lemma_one((hash, vec), (other, w));
            },
        }
    }
}

proof fn lemma_place<T>(entries: Seq<([u8; 32], Seq<T>)>, hash: [u8; 32])
    ensures
        semantic_ann::place_of(entries, hash) matches Some(i) ==> 0 <= i < entries.len() && entries[i].0 == hash,
        semantic_ann::place_of(entries, hash) is None ==> forall|i: int|
            0 <= i < entries.len() ==> (#[trigger] entries[i]).0 != hash,
    decreases entries.len(),
{
    if entries.len() > 0 {
        lemma_place(entries.drop_last(), hash);
        assert forall|i: int| 0 <= i < entries.len() - 1 implies #[trigger] entries[i] == entries.drop_last()[i] by {}
    }
}

/// A vector that was taken out is gone, and those of other bodies stay.
pub proof fn law_vector_removed<T>(v: IndexedVectors<T>, hash: [u8; 32], other: [u8; 32], w: Seq<T>)
    requires
        semantic_ann::in_order(v),
    ensures
        ({
            let r = semantic_ann::vector_removed(v, hash);
            &&& !r.entries.contains((hash, w))
            &&& other != hash ==> (r.entries.contains((other, w)) <==> v.entries.contains((other, w)))
        }),
{
    lemma_place(v.entries, hash);
    let r = semantic_ann::vector_removed(v, hash);
    let n = v.entries.len() as int;
    if let Some(i) = semantic_ann::place_of(v.entries, hash) {
        assert forall|k: int| 0 <= k < r.entries.len() implies #[trigger] r.entries[k] == v.entries[if k == i {
            n - 1
        } else {
            k
        }] by {}
        if r.entries.contains((hash, w)) {
            let k = choose|k: int| 0 <= k < r.entries.len() && r.entries[k] == (hash, w);
            let at = if k == i {
                n - 1
            } else {
                k
            };
            assert(v.entries[at].0 == hash);
            assert(at != i);
        }
        if other != hash && v.entries.contains((other, w)) {
            let k = choose|k: int| 0 <= k < v.entries.len() && v.entries[k] == (other, w);
            if k == n - 1 {
                assert(r.entries[i] == (other, w));
            } else {
                assert(r.entries[k] == (other, w));
            }
        }
        if other != hash && r.entries.contains((other, w)) {
            let k = choose|k: int| 0 <= k < r.entries.len() && r.entries[k] == (other, w);
            let at = if k == i {
                n - 1
            } else {
                k
            };
            assert(v.entries[at] == (other, w));
        }
    }
}

/// A merge is admitted that goes on with the lock of its target, and refused if it goes on without it;
/// neither changes anything.
pub proof fn law_going_on_needs_the_lock(
    m: Map<Seq<char>, Seq<u8>>,
    g: GraphView,
    counts: Map<Seq<char>, u32>,
    target: BranchId,
    merge_id: MergeId,
    now_ms: u64,
    r: Result<(), AuthError>,
    after: Map<Seq<char>, Seq<u8>>,
)
    requires
        merge_branch::merge_admitted(m, g, counts, target, merge_id, true, now_ms, r, after),
    ensures
        after == m,
        r is Ok <==> merge_lock::lock_holder(m, target) == Some(merge_id),
        r is Err ==> r == Err::<(), AuthError>(AuthError::InvalidInput),
{
}

/// A merge with conflicts waits where no strategy is given, and leaves the graph, the log and the jobs as
/// they are; else it is committed, and the log says which revisions it put in force.
pub proof fn law_merge_waits_or_commits(
    x: ResumeInput,
    m: Map<Seq<char>, Seq<u8>>,
    before: MergeState,
    o: MergeOutcome,
    after: MergeState,
)
    requires
        merge_branch::merge_ran(
            x,
            m,
            before.g,
            before.log,
            before.jobs,
            o,
            after.m,
            after.g,
            after.log,
            after.jobs,
        ),
        before.log.len() < u64::MAX,
    ensures
        o.committed <==> x.ctx.strategy is Some || o.phase_a.report@.status
            != MergeWorkflowStatus::RequiresResolution,
        !o.committed ==> after.g == before.g && after.log == before.log && after.jobs == before.jobs
            && o.phase_b.promoted@.len() == 0,
        o.committed ==> after.log.len() == before.log.len() + 1 && after.log.last().kind == (
        MutationKind::Merge { merge_id: x.merge_id }) && after.log.last().phase == MutationPhase::Committed
            && after.log.last().affected == wal::promoted_revisions(o.phase_b.promoted@),
        o.committed ==> o.progress@.len() == 5 && o.progress@[0]@.0 == "Intent"@ && o.progress@[1]@.0
            == "Classifying"@ && o.progress@[2]@.0 == "Promoting"@ && o.progress@[3]@.0
            == "EdgeReconciliation"@ && o.progress@[4]@.0 == "Committed"@,
        !o.committed ==> o.progress@.len() == 2 && o.progress@[0]@.0 == "Intent"@ && o.progress@[1]@.0
            == "Classifying"@,
{
    let v = merge_branch::event_views(o.progress@);
    if o.committed {
        assert(v[0].0 == "Intent"@ && v[1].0 == "Classifying"@ && v[2].0 == "Promoting"@ && v[3].0
            == "EdgeReconciliation"@ && v[4].0 == "Committed"@);
        assert(v.len() == 5);
        assert forall|k: int| 0 <= k < 5 implies #[trigger] v[k] == o.progress@[k]@ by {}
    } else {
        assert(v[0].0 == "Intent"@ && v[1].0 == "Classifying"@);
    }
}

/// How long each phase of a merge took: the time from the one before, and from the start for the first.
pub proof fn law_phase_times(names: Seq<Seq<char>>, times: Seq<u64>, n: int, i: int)
    requires
        0 <= i < n,
        n <= names.len(),
        names.len() == times.len(),
        forall|j: int| i < j < n ==> #[trigger] names[j] != names[i],
        i > 0 ==> times[i - 1] <= times[i],
    ensures
        merge_branch::durations(names, times, n).contains_key(names[i]),
        i > 0 ==> merge_branch::durations(names, times, n)[names[i]] == times[i] - times[i - 1],
        i == 0 ==> merge_branch::durations(names, times, n)[names[i]] == times[0],
    decreases n,
{
    if i < n - 1 {
        law_phase_times(names, times, n - 1, i);
        assert(names[n - 1] != names[i]);
    }
}

} // verus!
