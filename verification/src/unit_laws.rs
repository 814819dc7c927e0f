//! What the smaller rules of the engine come down to.

use crate::bytes;
use crate::file_index;
use crate::file_index::SymbolView;
use crate::graph::NodeKind;
use crate::hex;
use crate::ids::NodeRevisionId;
use crate::lsp_pool;
use crate::merge_classify::{ClassifiedView, MergeIdentityClass, MergeStrategy};
use crate::merge_metrics;
use crate::merge_promote;
use crate::optimistic_patcher;
use crate::optimistic_patcher::OptimisticPatcher;
use crate::path_lease;
use crate::path_lease::SessionId;
use crate::policy_watcher;
use crate::pre_write_snapshot;
use crate::pre_write_snapshot::RestoreView;
use crate::python_indexer;
use crate::reconciliation;
use crate::reconciliation::{ConsistencyFinding, RecoveryReport};
use crate::semantic_search;
use crate::semantic_search::RowView;
use crate::status;
use crate::status::ConfigFile;
use crate::text;
use crate::text_laws;
use crate::typescript_indexer;
use crate::wal::MutationPhase;
use vstd::prelude::*;

verus! {

/// A patch that was opened: it has the next number, the session has every path that it asked for and no
/// other path changes hands, and each of the paths is counted once more for each time it was asked for.
pub proof fn law_opened_patch(
    before: OptimisticPatcher,
    after: OptimisticPatcher,
    session: SessionId,
    asked: Seq<Seq<char>>,
    id: u64,
    q: Seq<char>,
)
    requires
        before.patch_opened(after, session, asked, id),
    ensures
        id == before.next(),
        after.next() == id + 1,
        after.open().contains_key(id),
        after.open()[id].session == session,
        asked.contains(q) ==> path_lease::leased_to(after.leased(), q) == Some(session),
        !asked.contains(q) ==> path_lease::leased_to(after.leased(), q) == path_lease::leased_to(
            before.leased(),
            q,
        ),
        path_lease::count_of(after.counts(), q) == path_lease::count_of(before.counts(), q)
            + asked.to_multiset().count(q),
        after.open()[id].paths.contains(q) <==> asked.contains(q),
        forall|o: u64| o != id ==> (#[trigger] after.open().contains_key(o) <==> before.open().contains_key(o)),
        forall|o: u64| o != id && #[trigger] before.open().contains_key(o) ==> after.open()[o] == before.open()[o],
{
    let p = after.open()[id];
    assert(path_lease::leased_to(after.leased(), q) == (if asked.contains(q) {
        Some(session)
    } else {
        path_lease::leased_to(before.leased(), q)
    }));
    assert(path_lease::count_of(after.counts(), q) == path_lease::count_of(before.counts(), q)
        + optimistic_patcher::times(asked, q));
    vstd::seq_lib::to_multiset_contains(p.paths, q);
    vstd::seq_lib::to_multiset_contains(asked, q);
}

/// A patch that was closed: it is open no more, the session's leases on its paths are given back, no other
/// path changes hands, and the other patches stay.
pub proof fn law_closed_patch(
    before: OptimisticPatcher,
    after: OptimisticPatcher,
    id: u64,
    session: SessionId,
    q: Seq<char>,
)
    requires
        before.patch_closed(after, id, session),
    ensures
        before.open().contains_key(id) && before.open()[id].session == session,
        !after.open().contains_key(id),
        forall|o: u64| o != id ==> (#[trigger] after.open().contains_key(o) <==> before.open().contains_key(o)),
        after.next() == before.next(),
        before.open()[id].paths.contains(q) && path_lease::leased_to(before.leased(), q) == Some(session)
            ==> path_lease::leased_to(after.leased(), q) is None,
        !before.open()[id].paths.contains(q) || path_lease::leased_to(before.leased(), q) != Some(session)
            ==> path_lease::leased_to(after.leased(), q) == path_lease::leased_to(before.leased(), q),
        path_lease::count_of(before.counts(), q) >= before.open()[id].paths.to_multiset().count(q)
            ==> path_lease::count_of(after.counts(), q) == path_lease::count_of(before.counts(), q)
            - before.open()[id].paths.to_multiset().count(q),
{
    let p = before.open()[id];
    assert(path_lease::leased_to(after.leased(), q) == (if p.paths.contains(q) && path_lease::leased_to(
        before.leased(),
        q,
    ) == Some(session) {
        None
    } else {
        path_lease::leased_to(before.leased(), q)
    }));
    assert(path_lease::count_of(after.counts(), q) == (if path_lease::count_of(before.counts(), q)
        >= optimistic_patcher::times(p.paths, q) {
        (path_lease::count_of(before.counts(), q) - optimistic_patcher::times(p.paths, q)) as nat
    } else {
        0
    }));
}

/// A patch is refused for a path that another session has.
pub proof fn law_refused_patch(
    before: OptimisticPatcher,
    after: OptimisticPatcher,
    session: SessionId,
    asked: Seq<Seq<char>>,
    holder: SessionId,
)
    requires
        before.lease_refused(after, session, asked, holder),
    ensures
        holder != session,
        exists|q: Seq<char>| #[trigger]
            asked.contains(q) && path_lease::leased_to(before.leased(), q) == Some(holder),
{
    let (sorted, k) = choose|sorted: Seq<Seq<char>>, k: int| #[trigger]
        before.refused_at(after, session, sorted, k, holder) && sorted.to_multiset() == asked.to_multiset();
    let q = sorted[k];
    assert(sorted.contains(q));
    vstd::seq_lib::to_multiset_contains(sorted, q);
    vstd::seq_lib::to_multiset_contains(asked, q);
    assert(asked.contains(q));
}

/// What becomes of a symbol that was renamed: their revision of it, and ours where they have none; what
/// both deleted is bound to nothing.
pub proof fn law_verdict_on_a_rename(c: ClassifiedView, strategy: Option<MergeStrategy>)
    ensures
        c.class == MergeIdentityClass::RenamedCandidate && c.theirs is Some ==> merge_promote::verdict(
            c,
            strategy,
        ) == Some(c.theirs),
        c.class == MergeIdentityClass::RenamedCandidate && c.theirs is None ==> merge_promote::verdict(
            c,
            strategy,
        ) == Some(c.ours),
        c.class == MergeIdentityClass::BothDeleted ==> merge_promote::verdict(c, strategy) == Some(
            None::<NodeRevisionId>,
        ),
{
}

proof fn lemma_namesakes(s: Seq<SymbolView>, n: int, kind: NodeKind, key: Seq<char>)
    requires
        0 <= n <= s.len(),
    ensures
        file_index::namesakes(s, n, kind, key) > 0 <==> exists|i: int|
            0 <= i < n && (#[trigger] s[i]).kind == kind && s[i].key == key,
    decreases n,
{
    if n > 0 {
        lemma_namesakes(s, n - 1, kind, key);
    }
}

proof fn lemma_namesakes_behind(s: Seq<SymbolView>, from: int, n: int, kind: NodeKind, key: Seq<char>)
    requires
        0 <= from <= n <= s.len(),
    ensures
        file_index::namesakes(s, n, kind, key) >= file_index::namesakes(s, from, kind, key),
        file_index::namesakes(s, n, kind, key) > file_index::namesakes(s, from, kind, key) <==> exists|i: int|
            from <= i < n && (#[trigger] s[i]).kind == kind && s[i].key == key,
    decreases n - from,
{
    if n > from {
        lemma_namesakes_behind(s, from, n - 1, kind, key);
    }
}

/// What tells namesakes apart: a function or a class behind which another of its kind and key stands says
/// how many stood before it; the last says nothing, but for a class that has a function's key.
pub proof fn law_what_tells_apart(s: Seq<SymbolView>, i: int)
    requires
        0 <= i < s.len(),
    ensures
        ({
            let d = file_index::disambiguator_of(s, i);
            let before = file_index::namesakes(s, i, s[i].kind, s[i].key);
            let more = exists|j: int| i < j < s.len() && (#[trigger] s[j]).kind == s[i].kind && s[j].key == s[i].key;
            let function = exists|j: int|
                0 <= j < s.len() && (#[trigger] s[j]).kind == NodeKind::Function && s[j].key == s[i].key;
            &&& s[i].kind == NodeKind::Function && more ==> d == "fn:"@ + hex::decimal(before)
            &&& s[i].kind == NodeKind::Function && !more ==> d.len() == 0
            &&& s[i].kind == NodeKind::Class && more ==> d == "class:"@ + hex::decimal(before)
            &&& s[i].kind == NodeKind::Class && !more && function ==> d == "class"@
            &&& s[i].kind == NodeKind::Class && !more && !function ==> d.len() == 0
            &&& s[i].kind == NodeKind::File ==> d.len() == 0
        }),
{
    let n = s.len() as int;
    lemma_namesakes_behind(s, i + 1, n, s[i].kind, s[i].key);
    lemma_namesakes(s, n, NodeKind::Function, s[i].key);
}

/// What is said of a file of settings.
pub proof fn law_settings_words(file: ConfigFile, refused: Seq<char>)
    ensures
        file is Missing ==> status::config_word(file, refused) == "missing_file"@ && status::config_reason(file)
            is None && !status::is_rejected(file),
        file is Applied ==> status::config_word(file, refused) == "applied"@ && status::config_reason(file) is None
            && !status::is_rejected(file),
        file is Unreadable ==> status::config_word(file, refused) == "read_error"@ && status::config_reason(file)
            is Some && status::is_rejected(file),
        file is Refused ==> status::config_word(file, refused) == refused && status::config_reason(file) is Some
            && status::is_rejected(file),
{
}

/// When a round of reconciliation has something to say.
pub proof fn law_reconciliation_lines(resumed: nat, compensated: nat, r: RecoveryReport, f: ConsistencyFinding)
    ensures
        reconciliation::merge_recovery_line(resumed, compensated) is None <==> resumed == 0 && compensated == 0,
        reconciliation::reconcile_line(r) is None <==> r.sagas_compensated == 0 && r.wal_replayed == 0,
        reconciliation::consistency_line(f) is None <==> f.clean,
{
}

/// How many records are listed at most: as many as were asked for, but one at least and five hundred at
/// most.
pub proof fn law_records_asked(limit: usize)
    ensures
        limit == 0 ==> merge_metrics::records_asked(limit) == 1,
        1 <= limit <= 500 ==> merge_metrics::records_asked(limit) == limit,
        limit > 500 ==> merge_metrics::records_asked(limit) == 500,
{
}

/// A row is found by its name if the name has the text; without a text every row is.
pub proof fn law_found_by_name(r: RowView, needle: Seq<char>)
    ensures
        needle.len() == 0 ==> semantic_search::found_by_name(r, needle),
        needle.len() > 0 ==> (semantic_search::found_by_name(r, needle) <==> r.matches > 0),
{
}

/// A change is in flight until it is committed or has failed.
pub proof fn law_in_flight(p: MutationPhase)
    ensures
        p.in_flight() <==> !(p is Committed) && !(p is Failed),
{
}

/// What is put back of a file: it is taken away if it was empty or was not there, else written.
pub proof fn law_put_back(path: Seq<char>, bytes: Seq<u8>)
    ensures
        bytes.len() == 0 ==> pre_write_snapshot::restoring(path, bytes) == RestoreView::Remove(path),
        bytes.len() > 0 ==> pre_write_snapshot::restoring(path, bytes) == RestoreView::Write(path, bytes),
{
}

/// A change of the settings is put off if the last was less long ago than is asked.
pub proof fn law_put_off(last_ns: u64, now_ns: u64, debounce_ns: u64)
    ensures
        now_ns >= last_ns ==> (policy_watcher::too_soon(Some(last_ns), now_ns, debounce_ns) <==> now_ns
            < last_ns + debounce_ns),
        !policy_watcher::too_soon(None, now_ns, debounce_ns),
{
}

/// What is kept of a language server's answers is stale once it is older than it may be.
pub proof fn law_stale_answers(stored_at_ms: u64, payload: Seq<u8>, now_ms: u64, ttl_ms: u64)
    ensures
        lsp_pool::is_stale(lsp_pool::stamped(stored_at_ms, payload), now_ms, ttl_ms) <==> now_ms > stored_at_ms
            + ttl_ms,
{
    bytes::lemma_le_spans();
    bytes::lemma_le_reads_back(stored_at_ms as nat, 8);
    let v = lsp_pool::stamped(stored_at_ms, payload);
    assert(v.subrange(0, 8) =~= bytes::le(stored_at_ms as nat, 8));
}

/// The key of a module: its path without the ending, with points for slashes.
pub proof fn law_module_keys(base: Seq<char>)
    requires
        !text::finishes_with(base, ".py"@),
        !text::finishes_with(base, ".ts"@),
        !text::finishes_with(base, ".tsx"@),
    ensures
        python_indexer::py_module_key(base + ".py"@) == text::replaced(base, '/', '.'),
        typescript_indexer::ts_module_key(base + ".ts"@) == text::replaced(base, '/', '.'),
        typescript_indexer::ts_module_key(base + ".tsx"@) == text::replaced(base, '/', '.'),
{
    reveal_strlit(".py");
    reveal_strlit(".ts");
    reveal_strlit(".tsx");
    text_laws::law_without_endings(base, ".py"@);
    text_laws::law_without_endings(base, ".ts"@);
    text_laws::law_without_endings(base, ".tsx"@);
    let c = base + ".tsx"@;
    if text::finishes_with(c, ".ts"@) {
        assert(c.subrange(c.len() - 3, c.len() as int)[2] == 's');
        assert(c.last() == 'x');
    }
    text_laws::law_without_endings(c, ".ts"@);
}

} // verus!
