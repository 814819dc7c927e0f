//! How the engine does: what it has to do without, and whether it is healthy.

use crate::audit;
use crate::audit::{EpochView, verify_audit_chain};
use crate::graph;
use crate::graph::{GraphView, InMemoryGraph, RevisionView};
use crate::ids::{BranchId, same_bytes32};
use crate::kv::MemoryKv;
use crate::paths;
use crate::paths::path_in;
use crate::queries;
use crate::queries::merge_in_progress;
use crate::security::{AuthError, AuthProvider, QuotaTracker};
use crate::text;
use crate::text::{owned, text_finishes_with, texts_contain};
use crate::tracker::BranchReconciliationTracker;
use vstd::prelude::*;

verus! {

/// What the engine has to do without.
#[derive(Debug, Clone, Copy, PartialEq, Eq, Structural)]
pub struct Shortages {
    /// Language servers answer.
    pub lsp_active: bool,
    /// The disk is nearly full.
    pub disk_pressure: bool,
    /// Vectors lag behind.
    pub vector_degraded: bool,
}

/// One word where something holds, none where it does not.
pub open spec fn word_if(holds: bool, word: Seq<char>) -> Seq<Seq<char>> {
    if holds {
        seq![word]
    } else {
        Seq::empty()
    }
}

/// Adds a word where something holds.
pub fn note_if(holds: bool, word: &str, modes: &mut Vec<String>)
    ensures
        text::texts(final(modes)@) == text::texts(old(modes)@) + word_if(holds, word@),
{
    let ghost before = text::texts(modes@);
    if holds {
        let w = owned(word);
        modes.push(w);
        assert(text::texts(modes@) =~= before + seq![word@]);
    } else {
        assert(text::texts(modes@) =~= before + Seq::<Seq<char>>::empty());
    }
}

/// The names of what the engine has to do without.
pub open spec fn shortage_words(s: Shortages) -> Seq<Seq<char>> {
    word_if(!s.lsp_active, "lsp_unavailable"@) + word_if(s.disk_pressure, "disk_pressure"@)
        + word_if(s.vector_degraded, "vector_degraded"@)
}

/// Names what the engine has to do without.
pub fn degraded_modes(s: Shortages) -> (r: Vec<String>)
    ensures
        text::texts(r@) == shortage_words(s),
{
    let mut modes: Vec<String> = Vec::new();
    assert(text::texts(modes@) =~= Seq::<Seq<char>>::empty());
    note_if(!s.lsp_active, "lsp_unavailable", &mut modes);
    note_if(s.disk_pressure, "disk_pressure", &mut modes);
    note_if(s.vector_degraded, "vector_degraded", &mut modes);
    assert(text::texts(modes@) =~= shortage_words(s));
    modes
}

/// How many queries are under way, and how many may be.
#[derive(Debug, Clone, Copy, PartialEq, Eq, Structural)]
pub struct QuotaStatus {
    pub active: u32,
    pub max: u32,
}

/// How the queue of embeddings does.
#[derive(Debug)]
pub struct VectorStatus {
    pub degraded: bool,
    pub queue_depth: usize,
    pub queue_state: String,
}

/// Which branches wait for a reconciliation.
#[derive(Debug)]
pub struct ReconciliationStatus {
    pub active_branch_pending: bool,
    pub pending_branches: Vec<String>,
}

/// A branch waits for a job.
pub open spec fn has_jobs(jobs: Set<(BranchId, u64)>, branch: BranchId) -> bool {
    exists|job: u64| #[trigger] jobs.contains((branch, job))
}

/// The names of the branches with jobs that are not done.
pub open spec fn pending_names(
    jobs: Set<(BranchId, u64)>,
    branches: Seq<(Seq<char>, BranchId)>,
) -> Seq<Seq<char>>
    decreases branches.len(),
{
    if branches.len() == 0 {
        Seq::empty()
    } else {
        pending_names(jobs, branches.drop_last()) + word_if(
            has_jobs(jobs, branches.last().1),
            branches.last().0,
        )
    }
}

/// Branches with their names.
pub open spec fn branch_rows(v: Seq<(String, BranchId)>) -> Seq<(Seq<char>, BranchId)> {
    v.map_values(|b: (String, BranchId)| (b.0@, b.1))
}

/// Finds which branches wait for a reconciliation.
pub fn reconciliation_status(
    tracker: &BranchReconciliationTracker,
    active: BranchId,
    branches: &Vec<(String, BranchId)>,
) -> (r: ReconciliationStatus)
    ensures
        r.active_branch_pending == has_jobs(tracker@, active),
        text::texts(r.pending_branches@) == pending_names(tracker@, branch_rows(branches@)),
{
    let mut names: Vec<String> = Vec::new();
    let ghost rows = branch_rows(branches@);
    let mut i: usize = 0;
    proof {
        assert(rows.take(0) =~= Seq::<(Seq<char>, BranchId)>::empty());
        assert(text::texts(names@) =~= Seq::<Seq<char>>::empty());
    }
    while i < branches.len()
        invariant
            i <= branches.len(),
            rows == branch_rows(branches@),
            text::texts(names@) == pending_names(tracker@, rows.take(i as int)),
        decreases branches.len() - i,
    {
        proof {
            assert(rows.take(i + 1).drop_last() =~= rows.take(i as int));
            assert(rows.take(i + 1).last() == rows[i as int]);
        }
        let pending = tracker.is_pending(branches[i].1);
        note_if(pending, branches[i].0.as_str(), &mut names);
        i = i + 1;
    }
    assert(rows.take(rows.len() as int) =~= rows);
    let active_branch_pending = tracker.is_pending(active);
    ReconciliationStatus { active_branch_pending, pending_branches: names }
}

/// What the checks of the engine found.
#[derive(Debug, Clone, Copy, PartialEq, Eq, Structural)]
pub struct Findings {
    /// The graph was consistent when it was last looked at.
    pub clean: bool,
    /// A background worker has not been heard of for too long.
    pub any_stale: bool,
}

/// The engine's health, and what it has to do without.
#[derive(Debug)]
pub struct SystemHealth {
    pub healthy: bool,
    pub degraded_modes: Vec<String>,
}

/// The engine is healthy: the graph is consistent, the audit chain holds, the workers are heard of
/// and the disk has room.
pub open spec fn is_healthy(s: Shortages, f: Findings, audit_ok: bool) -> bool {
    f.clean && audit_ok && !f.any_stale && !s.disk_pressure
}

/// All that is wrong with the engine.
pub open spec fn health_words(s: Shortages, f: Findings, audit_ok: bool) -> Seq<Seq<char>> {
    shortage_words(s) + word_if(!f.clean, "consistency_violations"@) + word_if(
        f.any_stale,
        "worker_stale"@,
    ) + word_if(!audit_ok, "audit_chain_broken"@)
}

/// Judges the engine's health, the audit chain of a store included.
pub fn system_health(kv: &MemoryKv, s: Shortages, f: Findings) -> (r: SystemHealth)
    ensures
        exists|epochs: Seq<EpochView>| #[trigger]
            audit::epochs_on_record(kv@, epochs) && r.healthy == is_healthy(
                s,
                f,
                audit::chain_verdict(epochs).ok,
            ) && text::texts(r.degraded_modes@) == health_words(s, f, audit::chain_verdict(epochs).ok),
{
    let audit_ok = verify_audit_chain(kv).ok;
    let mut modes = degraded_modes(s);
    note_if(!f.clean, "consistency_violations", &mut modes);
    note_if(f.any_stale, "worker_stale", &mut modes);
    note_if(!audit_ok, "audit_chain_broken", &mut modes);
    SystemHealth {
        healthy: f.clean && audit_ok && !f.any_stale && !s.disk_pressure,
        degraded_modes: modes,
    }
}

/// How the engine does as a whole.
#[derive(Debug)]
pub struct SystemStatus {
    pub health: SystemHealth,
    pub quota: QuotaStatus,
    pub vector: VectorStatus,
    pub reconciliation: ReconciliationStatus,
    pub merge_in_progress: bool,
}

/// Tells a session how the engine does as a whole.
pub fn system_status(
    auth: &AuthProvider,
    kv: &MemoryKv,
    quota: &QuotaTracker,
    tracker: &BranchReconciliationTracker,
    session_id: u64,
    active: BranchId,
    branches: &Vec<(String, BranchId)>,
    s: Shortages,
    f: Findings,
    queue_depth: usize,
    queue_state: &str,
) -> (r: Result<SystemStatus, AuthError>)
    requires
        quota.total() <= u32::MAX,
    ensures
        r is Ok <==> auth@.contains_key(session_id),
        r is Err ==> r->Err_0 == AuthError::Unauthorized,
        r matches Ok(st) ==> exists|epochs: Seq<EpochView>| #[trigger]
            audit::epochs_on_record(kv@, epochs) && st.health.healthy == is_healthy(
                s,
                f,
                audit::chain_verdict(epochs).ok,
            ) && text::texts(st.health.degraded_modes@) == health_words(
                s,
                f,
                audit::chain_verdict(epochs).ok,
            ),
        r matches Ok(st) ==> {
            &&& st.quota == (QuotaStatus {
                active: quota.total() as u32,
                max: quota.max(),
            })
            &&& st.vector.degraded == s.vector_degraded
            &&& st.vector.queue_depth == queue_depth
            &&& st.vector.queue_state@ == queue_state@
            &&& st.reconciliation.active_branch_pending == has_jobs(tracker@, active)
            &&& text::texts(st.reconciliation.pending_branches@) == pending_names(
                tracker@,
                branch_rows(branches@),
            )
            &&& st.merge_in_progress == queries::merge_under_way(kv@, active)
        },
{
    match auth.require_session(session_id) {
        Ok(_) => {},
        Err(e) => {
            return Err(e);
        },
    }
    let health = system_health(kv, s, f);
    let quota = QuotaStatus { active: quota.active_count(), max: quota.max_concurrent() };
    let vector = VectorStatus {
        degraded: s.vector_degraded,
        queue_depth,
        queue_state: owned(queue_state),
    };
    let reconciliation = reconciliation_status(tracker, active, branches);
    let merging = merge_in_progress(kv, active);
    Ok(SystemStatus { health, quota, vector, reconciliation, merge_in_progress: merging })
}

/// What became of a file of settings.
#[derive(Debug)]
pub enum ConfigFile {
    /// There is none.
    Missing,
    /// It could not be read, for a reason.
    Unreadable(String),
    /// It was read and refused, for a reason.
    Refused(String),
    /// It is in force.
    Applied,
}

/// What is told of a file of settings.
#[derive(Debug)]
pub struct ConfigReport {
    pub applied: bool,
    pub status: String,
    pub error: Option<String>,
}

/// The word for what became of a file of settings; one that was refused has a word of its own.
pub open spec fn config_word(file: ConfigFile, refused: Seq<char>) -> Seq<char> {
    match file {
        ConfigFile::Missing => "missing_file"@,
        ConfigFile::Unreadable(_) => "read_error"@,
        ConfigFile::Refused(_) => refused,
        ConfigFile::Applied => "applied"@,
    }
}

/// The reason why a file of settings is not in force.
pub open spec fn config_reason(file: ConfigFile) -> Option<Seq<char>> {
    match file {
        ConfigFile::Unreadable(e) => Some(e@),
        ConfigFile::Refused(e) => Some(e@),
        _ => None,
    }
}

/// Tells what became of a file of settings.
pub fn config_report(file: &ConfigFile, refused: &str) -> (r: ConfigReport)
    ensures
        r.applied == (*file is Applied),
        r.status@ == config_word(*file, refused@),
        match r.error {
            Some(e) => config_reason(*file) == Some(e@),
            None => config_reason(*file) is None,
        },
{
    match file {
        ConfigFile::Missing => ConfigReport {
            applied: false,
            status: owned("missing_file"),
            error: None,
        },
        ConfigFile::Unreadable(e) => ConfigReport {
            applied: false,
            status: owned("read_error"),
            error: Some(owned(e.as_str())),
        },
        ConfigFile::Refused(e) => ConfigReport {
            applied: false,
            status: owned(refused),
            error: Some(owned(e.as_str())),
        },
        ConfigFile::Applied => ConfigReport { applied: true, status: owned("applied"), error: None },
    }
}

/// What became of the settings, and what the engine has to do without.
#[derive(Debug)]
pub struct IngestedConfig {
    pub grammar_lock_path: String,
    pub grammar_lock: ConfigReport,
    /// The grammar that is pinned for Python, where the lock is in force.
    pub grammar_python: Option<String>,
    pub ranking_policy_path: String,
    pub ranking_policy: ConfigReport,
    pub degraded_modes: Vec<String>,
    pub merge_in_progress: bool,
}

/// The path of a file of settings.
pub open spec fn config_path(repo_root: Seq<char>, name: Seq<char>) -> Seq<char> {
    paths::in_directory(paths::in_directory(repo_root, ".cis"@), name)
}

/// A file of settings is there and not in force.
pub open spec fn is_rejected(file: ConfigFile) -> bool {
    !(file is Missing) && !(file is Applied)
}

/// Takes note of the settings: the grammars that are pinned, and the ranking policy. `python` is the
/// grammar that the lock pins for Python.
pub fn ingest_cis_config(
    repo_root: &str,
    kv: &MemoryKv,
    active: BranchId,
    grammar: &ConfigFile,
    python: &str,
    policy: &ConfigFile,
    s: Shortages,
) -> (r: IngestedConfig)
    ensures
        r.grammar_lock_path@ == config_path(repo_root@, "grammar.lock"@),
        r.ranking_policy_path@ == config_path(repo_root@, "ranking_policy.yaml"@),
        r.grammar_python is Some <==> *grammar is Applied,
        r.grammar_python is Some ==> r.grammar_python->0@ == python@,
        r.merge_in_progress == queries::merge_under_way(kv@, active),
        r.grammar_lock.applied == (*grammar is Applied),
        r.grammar_lock.status@ == config_word(*grammar, "yaml_parse_error"@),
        r.grammar_lock.error is Some <==> config_reason(*grammar) is Some,
        r.grammar_lock.error is Some ==> config_reason(*grammar) == Some(r.grammar_lock.error->0@),
        r.ranking_policy.applied == (*policy is Applied),
        r.ranking_policy.status@ == config_word(*policy, "validation_error"@),
        r.ranking_policy.error is Some <==> config_reason(*policy) is Some,
        r.ranking_policy.error is Some ==> config_reason(*policy) == Some(
            r.ranking_policy.error->0@,
        ),
        text::texts(r.degraded_modes@) == shortage_words(s) + word_if(
            is_rejected(*grammar),
            "grammar_lock_invalid"@,
        ) + word_if(is_rejected(*policy), "ranking_policy_rejected"@),
{
    let grammar_lock = config_report(grammar, "yaml_parse_error");
    let ranking_policy = config_report(policy, "validation_error");
    let mut modes = degraded_modes(s);
    let grammar_bad = match grammar {
        ConfigFile::Missing => false,
        ConfigFile::Applied => false,
        _ => true,
    };
    let policy_bad = match policy {
        ConfigFile::Missing => false,
        ConfigFile::Applied => false,
        _ => true,
    };
    note_if(grammar_bad, "grammar_lock_invalid", &mut modes);
    note_if(policy_bad, "ranking_policy_rejected", &mut modes);
    let grammar_python = match grammar {
        ConfigFile::Applied => Some(owned(python)),
        _ => None,
    };
    let cis = path_in(repo_root, ".cis");
    IngestedConfig {
        grammar_lock_path: path_in(cis.as_str(), "grammar.lock"),
        grammar_lock,
        grammar_python,
        ranking_policy_path: path_in(cis.as_str(), "ranking_policy.yaml"),
        ranking_policy,
        degraded_modes: modes,
        merge_in_progress: merge_in_progress(kv, active),
    }
}

/// What the graph holds, by numbers.
#[derive(Debug, Clone, Copy, PartialEq, Eq, Structural)]
pub struct IndexCounts {
    pub symbols_indexed: usize,
    pub edges_indexed: usize,
    pub files_scanned: usize,
    pub embeddings_indexed: usize,
    pub embeddings_stale: usize,
}

/// The number of edges that leave revisions.
pub open spec fn edges_leaving(g: GraphView, revs: Seq<RevisionView>) -> nat
    decreases revs.len(),
{
    if revs.len() == 0 {
        0
    } else {
        edges_leaving(g, revs.drop_last()) + g.out(revs.last().revision_id).len()
    }
}

/// A file counts as one that was scanned.
pub open spec fn is_scanned_file(path: Seq<char>) -> bool {
    text::finishes_with(path, ".py"@) || text::finishes_with(path, ".ts"@) || text::finishes_with(path, ".tsx"@)
}

/// The files of revisions that count, each once.
pub open spec fn scanned_files(revs: Seq<RevisionView>) -> Seq<Seq<char>>
    decreases revs.len(),
{
    if revs.len() == 0 {
        Seq::empty()
    } else {
        let front = scanned_files(revs.drop_last());
        let path = revs.last().file_path;
        if is_scanned_file(path) && !front.contains(path) {
            front.push(path)
        } else {
            front
        }
    }
}

/// How many revisions have a body among some hashes.
pub open spec fn bodies_among(revs: Seq<RevisionView>, hashes: Seq<[u8; 32]>) -> nat
    decreases revs.len(),
{
    if revs.len() == 0 {
        0
    } else {
        bodies_among(revs.drop_last(), hashes) + (if hashes.contains(revs.last().body_hash) {
            1nat
        } else {
            0
        })
    }
}

/// Whether a hash is among others.
pub fn hashes_contain(hashes: &Vec<[u8; 32]>, h: &[u8; 32]) -> (r: bool)
    ensures
        r == hashes@.contains(*h),
{
    let mut i: usize = 0;
    while i < hashes.len()
        invariant
            i <= hashes.len(),
            forall|k: int| 0 <= k < i ==> hashes@[k] != *h,
        decreases hashes.len() - i,
    {
        if same_bytes32(&hashes[i], h) {
            assert(hashes@[i as int] == *h);
            return true;
        }
        i = i + 1;
    }
    false
}

/// The edges of some revisions are no more than those of all.
proof fn lemma_edges_front(g: GraphView, revs: Seq<RevisionView>, n: int)
    requires
        0 <= n <= revs.len(),
    ensures
        edges_leaving(g, revs.take(n)) <= edges_leaving(g, revs),
    decreases revs.len() - n,
{
    if n < revs.len() {
        assert(revs.take(n + 1).drop_last() =~= revs.take(n));
        lemma_edges_front(g, revs, n + 1);
    } else {
        assert(revs.take(n) =~= revs);
    }
}

/// Counts what the graph holds; `embedded` are the bodies that have a vector of the model in use.
pub fn index_counts(graph: &InMemoryGraph, embedded: &Vec<[u8; 32]>) -> (r: IndexCounts)
    requires
        edges_leaving(graph@, graph@.revisions) <= usize::MAX,
    ensures
        r.symbols_indexed == graph@.revisions.len(),
        r.edges_indexed == edges_leaving(graph@, graph@.revisions),
        r.files_scanned == scanned_files(graph@.revisions).len(),
        r.embeddings_indexed == bodies_among(graph@.revisions, embedded@),
        r.embeddings_indexed + r.embeddings_stale == graph@.revisions.len(),
{
    let revs = graph.revisions();
    let ghost s = graph@.revisions;
    let mut edges: usize = 0;
    let mut files: Vec<String> = Vec::new();
    let mut found: usize = 0;
    let mut i: usize = 0;
    proof {
        assert(s.take(0) =~= Seq::<RevisionView>::empty());
        assert(text::texts(files@) =~= Seq::<Seq<char>>::empty());
    }
    while i < revs.len()
        invariant
            i <= revs.len(),
            s == graph::revision_views(revs@),
            s == graph@.revisions,
            edges_leaving(graph@, s) <= usize::MAX,
            edges == edges_leaving(graph@, s.take(i as int)),
            text::texts(files@) == scanned_files(s.take(i as int)),
            found == bodies_among(s.take(i as int), embedded@),
            found <= i,
        decreases revs.len() - i,
    {
        let r = &revs[i];
        proof {
            assert(s.take(i + 1).drop_last() =~= s.take(i as int));
            assert(s.take(i + 1).last() == r@);
            lemma_edges_front(graph@, s, i + 1);
        }
        let ghost before = text::texts(files@);
        edges = edges + graph.outbound_edges(r.revision_id).len();
        let path = r.file_path.as_str();
        if (text_finishes_with(path, ".py") || text_finishes_with(path, ".ts")
            || text_finishes_with(path, ".tsx")) && !texts_contain(&files, path) {
            let p = owned(path);
            files.push(p);
            assert(text::texts(files@) =~= before.push(path@));
        }
        if hashes_contain(embedded, &r.body_hash) {
            found = found + 1;
        }
        i = i + 1;
    }
    assert(s.take(s.len() as int) =~= s);
    IndexCounts {
        symbols_indexed: revs.len(),
        edges_indexed: edges,
        files_scanned: files.len(),
        embeddings_indexed: found,
        embeddings_stale: revs.len() - found,
    }
}

/// A healthy engine lacks at most language servers and fresh vectors, and each lack has its word.
pub proof fn law_health(s: Shortages, f: Findings, audit_ok: bool)
    ensures
        is_healthy(s, f, audit_ok) ==> health_words(s, f, audit_ok) == word_if(
            !s.lsp_active,
            "lsp_unavailable"@,
        ) + word_if(s.vector_degraded, "vector_degraded"@),
        !is_healthy(s, f, audit_ok) ==> health_words(s, f, audit_ok).len() > 0,
{
    assert(is_healthy(s, f, audit_ok) ==> health_words(s, f, audit_ok) =~= word_if(
        !s.lsp_active,
        "lsp_unavailable"@,
    ) + word_if(s.vector_degraded, "vector_degraded"@));
}

/// The names of what a status of the index has to say.
pub open spec fn index_words(s: Shortages, ever_indexed: bool) -> Seq<Seq<char>> {
    shortage_words(s) + word_if(!ever_indexed, "index_not_bootstrapped"@)
}

/// Names what a status of the index has to say: what the engine does without, and whether anything
/// was ever indexed.
pub fn index_modes(s: Shortages, ever_indexed: bool) -> (r: Vec<String>)
    ensures
        text::texts(r@) == index_words(s, ever_indexed),
{
    let mut modes = degraded_modes(s);
    note_if(!ever_indexed, "index_not_bootstrapped", &mut modes);
    modes
}

/// Names what a check of the graph has to say.
pub fn consistency_modes(clean: bool) -> (r: Vec<String>)
    ensures
        text::texts(r@) == word_if(!clean, "consistency_violations"@),
{
    let mut modes: Vec<String> = Vec::new();
    note_if(!clean, "consistency_violations", &mut modes);
    assert(text::texts(modes@) =~= word_if(!clean, "consistency_violations"@));
    modes
}

} // verus!
