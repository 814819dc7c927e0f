//! What is saved of a workspace and what is loaded again.

use crate::graph;
use crate::graph::{GraphView, InMemoryGraph, RevisionView};
use crate::hex;
use crate::hex::decimal_text;
use crate::ids::{BranchId, IdentityId, NodeRevisionId};
use crate::keys;
use crate::kv;
use crate::kv::MemoryKv;
use crate::paths;
use crate::paths::path_in;
use crate::revision_cow;
use crate::revision_cow::{Layer, RevisionIndexCow, ris_snapshot_kv_key};
use crate::status;
use crate::status::index_counts;
use crate::text;
use crate::text::{append_text, copy_bytes, owned, same_text, text_begins_with};
use vstd::prelude::*;

verus! {

pub const VECTOR_SNAPSHOT_VERSION: u32 = 2;

pub const VECTOR_SNAPSHOT_VERSION_V1: u32 = 1;

pub const KV_SNAPSHOT_VERSION: u32 = 1;

/// The directory of the engine's own files in a repository.
pub fn cis_dir(repo_root: &str) -> (r: String)
    ensures
        r@ == paths::in_directory(repo_root@, ".cis"@),
{
    path_in(repo_root, ".cis")
}

/// The file of the mutation log.
pub fn wal_path(cis: &str) -> (r: String)
    ensures
        r@ == paths::in_directory(cis@, "wal.json"@),
{
    path_in(cis, "wal.json")
}

/// The file of the graph.
pub fn graph_snapshot_path(cis: &str) -> (r: String)
    ensures
        r@ == paths::in_directory(cis@, "graph.json"@),
{
    path_in(cis, "graph.json")
}

/// The file of the vectors.
pub fn vector_snapshot_path(cis: &str) -> (r: String)
    ensures
        r@ == paths::in_directory(cis@, "vector.json"@),
{
    path_in(cis, "vector.json")
}

/// The file of the key-value store.
pub fn kv_snapshot_path(cis: &str) -> (r: String)
    ensures
        r@ == paths::in_directory(cis@, "kv.json"@),
{
    path_in(cis, "kv.json")
}

/// Whether snapshots are written as files change: unless the setting is `0`.
pub fn snapshot_persist_enabled(setting: Option<&str>) -> (r: bool)
    ensures
        r == !(setting matches Some(v) && v@ == "0"@),
{
    match setting {
        Some(v) => !same_text(v, "0"),
        None => true,
    }
}

/// The name of a file while it is being written.
pub open spec fn temporary_name(stem: Seq<char>, process: nat, seq: nat) -> Seq<char> {
    stem + "."@ + hex::decimal(process) + "."@ + hex::decimal(seq) + ".tmp"@
}

/// The name of a file while it is being written: no two writers have one name.
pub fn temporary_file_name(stem: &str, process: u32, seq: u64) -> (r: String)
    ensures
        r@ == temporary_name(stem@, process as nat, seq as nat),
{
    let mut out = owned(stem);
    append_text(&mut out, ".");
    append_text(&mut out, decimal_text(process as u64).as_str());
    append_text(&mut out, ".");
    append_text(&mut out, decimal_text(seq).as_str());
    append_text(&mut out, ".tmp");
    out
}

/// What is told of a snapshot of another version.
pub open spec fn version_message(what: Seq<char>, version: u32, want: u32) -> Seq<char> {
    "unsupported "@ + what + " snapshot version "@ + hex::decimal(version as nat) + " (want "@ + hex::decimal(
        want as nat,
    ) + ")"@
}

/// Accepts a snapshot of the version that is wanted, and no other.
pub fn check_version(what: &str, version: u32, want: u32) -> (r: Result<(), String>)
    ensures
        r is Ok <==> version == want,
        r is Err ==> r->Err_0@ == version_message(what@, version, want),
{
    if version == want {
        return Ok(());
    }
    let mut out = owned("unsupported ");
    append_text(&mut out, what);
    append_text(&mut out, " snapshot version ");
    append_text(&mut out, decimal_text(version as u64).as_str());
    append_text(&mut out, " (want ");
    append_text(&mut out, decimal_text(want as u64).as_str());
    append_text(&mut out, ")");
    Err(out)
}

/// What is saved of the key-value store.
#[derive(Debug)]
pub struct KvSnapshotFile {
    pub version: u32,
    pub entries: Vec<(String, Vec<u8>)>,
}

/// A key begins with one of some prefixes.
pub open spec fn has_prefix(key: Seq<char>, prefixes: Seq<Seq<char>>) -> bool {
    exists|i: int| 0 <= i < prefixes.len() && text::begins_with(key, #[trigger] prefixes[i])
}

/// Whether a key begins with one of some prefixes.
pub fn key_has_prefix(key: &str, prefixes: &Vec<String>) -> (r: bool)
    ensures
        r == has_prefix(key@, text::texts(prefixes@)),
{
    let mut i: usize = 0;
    while i < prefixes.len()
        invariant
            i <= prefixes.len(),
            forall|k: int| 0 <= k < i ==> !text::begins_with(key@, #[trigger] text::texts(prefixes@)[k]),
        decreases prefixes.len() - i,
    {
        assert(text::texts(prefixes@)[i as int] == prefixes@[i as int]@);
        if text_begins_with(key, prefixes[i].as_str()) {
            return true;
        }
        i = i + 1;
    }
    false
}

/// Entries are exactly those of a store that last, each once.
pub open spec fn lasting(
    m: Map<Seq<char>, Seq<u8>>,
    prefixes: Seq<Seq<char>>,
    entries: Seq<(String, Vec<u8>)>,
) -> bool {
    &&& forall|i: int|
        0 <= i < entries.len() ==> has_prefix((#[trigger] entries[i]).0@, prefixes)
            && m.contains_pair(entries[i].0@, entries[i].1@)
    &&& forall|i: int, j: int|
        0 <= i < j < entries.len() ==> (#[trigger] entries[i]).0@ != (#[trigger] entries[j]).0@
    &&& forall|k: Seq<char>| #[trigger]
        m.contains_key(k) && has_prefix(k, prefixes) ==> exists|i: int|
            0 <= i < entries.len() && (#[trigger] entries[i]).0@ == k
}

/// What is saved of a store: the entries under the prefixes that last.
pub fn save_kv_snapshot(kv: &MemoryKv, durable_prefixes: &Vec<String>) -> (r: KvSnapshotFile)
    ensures
        r.version == KV_SNAPSHOT_VERSION,
        lasting(kv@, text::texts(durable_prefixes@), r.entries@),
{
    let ghost p = text::texts(durable_prefixes@);
    let rows = kv.scan_prefix("");
    proof {
        reveal_strlit("");
        assert forall|k: Seq<char>| text::begins_with(k, ""@) by {
            assert(k.subrange(0, 0) =~= ""@);
        }
    }
    let mut entries: Vec<(String, Vec<u8>)> = Vec::new();
    let mut i: usize = 0;
    while i < rows.len()
        invariant
            i <= rows.len(),
            p == text::texts(durable_prefixes@),
            kv::scanned(kv@, ""@, rows@),
            forall|j: int|
                0 <= j < entries.len() ==> has_prefix((#[trigger] entries[j]).0@, p)
                    && kv@.contains_pair(entries[j].0@, entries[j].1@) && exists|k: int|
                    0 <= k < i && (#[trigger] rows[k]).0@ == entries[j].0@,
            forall|a: int, b: int|
                0 <= a < b < entries.len() ==> (#[trigger] entries[a]).0@ != (
                #[trigger] entries[b]).0@,
            forall|k: int|
                0 <= k < i && has_prefix((#[trigger] rows[k]).0@, p) ==> exists|j: int|
                    0 <= j < entries.len() && (#[trigger] entries[j]).0@ == rows[k].0@,
        decreases rows.len() - i,
    {
        let ghost before = entries@;
        if key_has_prefix(rows[i].0.as_str(), durable_prefixes) {
            let e = (owned(rows[i].0.as_str()), copy_bytes(&rows[i].1));
            entries.push(e);
            proof {
                let n = before.len() as int;
                assert forall|j: int| 0 <= j < entries@.len() implies has_prefix(
                    (#[trigger] entries@[j]).0@,
                    p,
                ) && kv@.contains_pair(entries@[j].0@, entries@[j].1@) && exists|k: int|
                    0 <= k < i + 1 && (#[trigger] rows@[k]).0@ == entries@[j].0@ by {
                    if j < n {
                        assert(entries@[j] == before[j]);
                        let k = choose|k: int| 0 <= k < i && (#[trigger] rows@[k]).0@ == before[j].0@;
                        assert(rows@[k].0@ == entries@[j].0@);
                    } else {
                        assert(rows@[i as int].0@ == entries@[j].0@);
                    }
                }
                assert forall|a: int, b: int| 0 <= a < b < entries@.len() implies (
                #[trigger] entries@[a]).0@ != (#[trigger] entries@[b]).0@ by {
                    assert(entries@[a] == before[a]);
                    if b == n {
                        let k = choose|k: int|
                            0 <= k < i && (#[trigger] rows@[k]).0@ == before[a].0@;
                        assert(rows@[k].0@ != rows@[i as int].0@);
                    } else {
                        assert(entries@[b] == before[b]);
                    }
                }
            }
        }
        proof {
            assert forall|k: int| 0 <= k < i + 1 && has_prefix(
                (#[trigger] rows@[k]).0@,
                p,
            ) implies exists|j: int|
                0 <= j < entries@.len() && (#[trigger] entries@[j]).0@ == rows@[k].0@ by {
                if k < i {
                    let j = choose|j: int|
                        0 <= j < before.len() && (#[trigger] before[j]).0@ == rows@[k].0@;
                    assert(entries@[j] == before[j]);
                } else {
                    assert(entries@[before.len() as int].0@ == rows@[k].0@);
                }
            }
        }
        i = i + 1;
    }
    proof {
        assert forall|k: Seq<char>| #[trigger] kv@.contains_key(k) && has_prefix(
            k,
            p,
        ) implies exists|j: int| 0 <= j < entries@.len() && (#[trigger] entries@[j]).0@ == k by {
            assert(text::begins_with(k, ""@)) by {
                assert(k.subrange(0, 0) =~= ""@);
            }
            let a = choose|a: int| 0 <= a < rows@.len() && (#[trigger] rows@[a]).0@ == k;
            let j = choose|j: int|
                0 <= j < entries@.len() && (#[trigger] entries@[j]).0@ == rows@[a].0@;
            assert(entries@[j].0@ == k);
        }
    }
    KvSnapshotFile { version: KV_SNAPSHOT_VERSION, entries }
}

/// A store into which entries were put, one after another.
pub open spec fn entries_put(
    m: Map<Seq<char>, Seq<u8>>,
    entries: Seq<(String, Vec<u8>)>,
) -> Map<Seq<char>, Seq<u8>>
    decreases entries.len(),
{
    if entries.len() == 0 {
        m
    } else {
        entries_put(m, entries.drop_last()).insert(entries.last().0@, entries.last().1@)
    }
}

/// Puts what was saved of a store into another; how many entries there were. A snapshot of another
/// version is refused.
pub fn load_kv_snapshot(file: &KvSnapshotFile, kv: &mut MemoryKv) -> (r: Result<usize, String>)
    ensures
        r is Ok <==> file.version == KV_SNAPSHOT_VERSION,
        match r {
            Ok(n) => n == file.entries@.len() && final(kv)@ == entries_put(
                old(kv)@,
                file.entries@,
            ),
            Err(e) => final(kv)@ == old(kv)@ && e@ == version_message(
                "kv"@,
                file.version,
                KV_SNAPSHOT_VERSION,
            ),
        },
{
    if let Err(e) = check_version("kv", file.version, KV_SNAPSHOT_VERSION) {
        return Err(e);
    }
    let ghost m0 = kv@;
    let ghost all = file.entries@;
    let mut i: usize = 0;
    assert(all.take(0) =~= Seq::<(String, Vec<u8>)>::empty());
    while i < file.entries.len()
        invariant
            i <= file.entries.len(),
            all == file.entries@,
            kv@ == entries_put(m0, all.take(i as int)),
        decreases file.entries.len() - i,
    {
        proof {
            assert(all.take(i + 1).drop_last() =~= all.take(i as int));
            assert(all.take(i + 1).last() == all[i as int]);
        }
        kv.set(file.entries[i].0.as_str(), copy_bytes(&file.entries[i].1));
        i = i + 1;
    }
    assert(all.take(all.len() as int) =~= all);
    Ok(file.entries.len())
}

/// Entries that were put, none under one key, are there; the rest is as it was.
proof fn lemma_entries_put(m: Map<Seq<char>, Seq<u8>>, entries: Seq<(String, Vec<u8>)>, k: Seq<char>)
    requires
        forall|i: int, j: int|
            0 <= i < j < entries.len() ==> (#[trigger] entries[i]).0@ != (
            #[trigger] entries[j]).0@,
    ensures
        forall|i: int|
            0 <= i < entries.len() && (#[trigger] entries[i]).0@ == k ==> entries_put(
                m,
                entries,
            ).contains_pair(k, entries[i].1@),
        (forall|i: int| 0 <= i < entries.len() ==> (#[trigger] entries[i]).0@ != k) ==> kv::value_at(
            entries_put(m, entries),
            k,
        ) == kv::value_at(m, k),
    decreases entries.len(),
{
    if entries.len() > 0 {
        let front = entries.drop_last();
        assert forall|i: int, j: int| 0 <= i < j < front.len() implies (#[trigger] front[i]).0@ != (
        #[trigger] front[j]).0@ by {
            assert(front[i] == entries[i] && front[j] == entries[j]);
        }
        lemma_entries_put(m, front, k);
        let last = entries.len() - 1;
        assert forall|i: int|
            0 <= i < entries.len() && (#[trigger] entries[i]).0@ == k implies entries_put(
            m,
            entries,
        ).contains_pair(k, entries[i].1@) by {
            if i < last {
                assert(front[i] == entries[i]);
                assert(entries[i].0@ != entries[last].0@);
            }
        }
        if forall|i: int| 0 <= i < entries.len() ==> (#[trigger] entries[i]).0@ != k {
            assert(entries[last].0@ != k);
            assert forall|i: int| 0 <= i < front.len() implies (#[trigger] front[i]).0@ != k by {
                assert(front[i] == entries[i]);
            }
        }
    }
}

/// Saving a store and loading it into an empty one gives back exactly what lasts.
pub proof fn law_saved_store_reads_back(
    m: Map<Seq<char>, Seq<u8>>,
    prefixes: Seq<Seq<char>>,
    entries: Seq<(String, Vec<u8>)>,
    k: Seq<char>,
)
    requires
        lasting(m, prefixes, entries),
    ensures
        kv::value_at(entries_put(Map::empty(), entries), k) == (if has_prefix(k, prefixes) {
            kv::value_at(m, k)
        } else {
            None
        }),
{
    lemma_entries_put(Map::empty(), entries, k);
    if exists|i: int| 0 <= i < entries.len() && (#[trigger] entries[i]).0@ == k {
        let i = choose|i: int| 0 <= i < entries.len() && (#[trigger] entries[i]).0@ == k;
        assert(has_prefix(entries[i].0@, prefixes));
        assert(m.contains_pair(entries[i].0@, entries[i].1@));
    } else {
        assert(m.contains_key(k) ==> !has_prefix(k, prefixes));
    }
}

/// What came of reading something that was saved.
#[derive(Debug)]
pub enum Attempt<T> {
    Loaded(T),
    /// There was nothing.
    Absent,
    /// It could not be read, for a reason.
    Failed(String),
}

/// What was loaded of a workspace.
#[derive(Debug)]
pub struct PersistenceLoadReport {
    pub graph_loaded: bool,
    pub vector_loaded: bool,
    pub kv_loaded: bool,
    pub graph_identities: usize,
    pub graph_revisions: usize,
    pub graph_edges: usize,
    pub vector_chunks: usize,
    pub kv_entries: usize,
    pub graph_error: Option<String>,
    pub vector_error: Option<String>,
    pub kv_error: Option<String>,
}

impl Default for PersistenceLoadReport {
    fn default() -> (r: Self)
        ensures
            !r.graph_loaded && !r.vector_loaded && !r.kv_loaded,
            r.graph_identities == 0 && r.graph_revisions == 0 && r.graph_edges == 0,
            r.vector_chunks == 0 && r.kv_entries == 0,
            r.graph_error is None && r.vector_error is None && r.kv_error is None,
    {
        PersistenceLoadReport {
            graph_loaded: false,
            vector_loaded: false,
            kv_loaded: false,
            graph_identities: 0,
            graph_revisions: 0,
            graph_edges: 0,
            vector_chunks: 0,
            kv_entries: 0,
            graph_error: None,
            vector_error: None,
            kv_error: None,
        }
    }
}

/// The graph that is taken over: the first that was loaded.
pub open spec fn graph_taken(
    old_graph: GraphView,
    first: Attempt<InMemoryGraph>,
    second: Attempt<InMemoryGraph>,
) -> GraphView {
    match first {
        Attempt::Loaded(g) => g@,
        _ => match second {
            Attempt::Loaded(g) => g@,
            _ => old_graph,
        },
    }
}

/// Something was loaded.
pub open spec fn is_loaded<T>(a: Attempt<T>) -> bool {
    a is Loaded
}

/// Why the graph could not be read: the last reason that was met.
pub open spec fn graph_reason(
    first: Attempt<InMemoryGraph>,
    second: Attempt<InMemoryGraph>,
) -> Option<Seq<char>> {
    match first {
        Attempt::Loaded(_) => None,
        Attempt::Absent => match second {
            Attempt::Failed(e) => Some(e@),
            _ => None,
        },
        Attempt::Failed(e) => match second {
            Attempt::Failed(f) => Some(f@),
            _ => Some(e@),
        },
    }
}

/// Notes a graph that was loaded.
fn note_graph(report: &mut PersistenceLoadReport, graph: &InMemoryGraph)
    requires
        status::edges_leaving(graph@, graph@.revisions) <= usize::MAX,
    ensures
        final(report).graph_loaded,
        final(report).graph_identities == graph@.kinds.dom().len(),
        final(report).graph_revisions == graph@.revisions.len(),
        final(report).graph_edges == status::edges_leaving(graph@, graph@.revisions),
        final(report).graph_error == old(report).graph_error,
        final(report).vector_loaded == old(report).vector_loaded,
        final(report).vector_chunks == old(report).vector_chunks,
        final(report).vector_error == old(report).vector_error,
        final(report).kv_loaded == old(report).kv_loaded,
        final(report).kv_entries == old(report).kv_entries,
        final(report).kv_error == old(report).kv_error,
{
    let none: Vec<[u8; 32]> = Vec::new();
    let counts = index_counts(graph, &none);
    report.graph_loaded = true;
    report.graph_identities = graph.identity_count();
    report.graph_revisions = counts.symbols_indexed;
    report.graph_edges = counts.edges_indexed;
}

/// Takes over what was loaded: the graph from its store or, failing that, from its snapshot, and the
/// number of chunks of the vectors.
pub fn load_state_from_cis_dir(
    graph: &mut InMemoryGraph,
    first: Attempt<InMemoryGraph>,
    second: Attempt<InMemoryGraph>,
    vector: Attempt<usize>,
) -> (r: PersistenceLoadReport)
    requires
        first matches Attempt::Loaded(g) ==> status::edges_leaving(g@, g@.revisions) <= usize::MAX,
        second matches Attempt::Loaded(g) ==> status::edges_leaving(g@, g@.revisions) <= usize::MAX,
    ensures
        final(graph)@ == graph_taken(old(graph)@, first, second),
        r.graph_loaded == (is_loaded(first) || is_loaded(second)),
        r.graph_loaded ==> {
            &&& r.graph_identities == final(graph)@.kinds.dom().len()
            &&& r.graph_revisions == final(graph)@.revisions.len()
            &&& r.graph_edges == status::edges_leaving(final(graph)@, final(graph)@.revisions)
        },
        !r.graph_loaded ==> r.graph_identities == 0 && r.graph_revisions == 0 && r.graph_edges == 0,
        r.graph_error is Some <==> graph_reason(first, second) is Some,
        r.graph_error is Some ==> graph_reason(first, second) == Some(r.graph_error->0@),
        r.vector_loaded == is_loaded(vector),
        r.vector_chunks == (match vector {
            Attempt::Loaded(n) => n,
            _ => 0,
        }),
        r.vector_error is Some <==> vector is Failed,
        vector matches Attempt::Failed(e) ==> r.vector_error->0@ == e@,
        !r.kv_loaded && r.kv_entries == 0 && r.kv_error is None,
{
    let mut report = PersistenceLoadReport::default();
    match first {
        Attempt::Loaded(g) => {
            note_graph(&mut report, &g);
            *graph = g;
        },
        Attempt::Absent => {},
        Attempt::Failed(e) => {
            report.graph_error = Some(e);
        },
    }
    if !report.graph_loaded {
        match second {
            Attempt::Loaded(g) => {
                note_graph(&mut report, &g);
                *graph = g;
            },
            Attempt::Absent => {},
            Attempt::Failed(e) => {
                report.graph_error = Some(e);
            },
        }
    }
    match vector {
        Attempt::Loaded(n) => {
            report.vector_loaded = true;
            report.vector_chunks = n;
        },
        Attempt::Absent => {},
        Attempt::Failed(e) => {
            report.vector_error = Some(e);
        },
    }
    report
}

/// Notes what came of loading the key-value store, and how many snapshots a database had besides.
pub fn note_kv_loaded(report: &mut PersistenceLoadReport, kv: Attempt<usize>, hydrated: usize)
    ensures
        final(report).kv_loaded == (old(report).kv_loaded || is_loaded(kv)),
        ({
            let loaded = match kv {
                Attempt::Loaded(n) => n,
                _ => old(report).kv_entries,
            };
            final(report).kv_entries == (if loaded + hydrated > usize::MAX {
                usize::MAX as int
            } else {
                loaded + hydrated
            })
        }),
        kv matches Attempt::Failed(e) ==> final(report).kv_error is Some,
        kv matches Attempt::Failed(e) ==> final(report).kv_error->0@ == e@,
        !(kv is Failed) ==> final(report).kv_error == old(report).kv_error,
        final(report).graph_loaded == old(report).graph_loaded,
        final(report).graph_error == old(report).graph_error,
        final(report).vector_loaded == old(report).vector_loaded,
        final(report).vector_error == old(report).vector_error,
        final(report).graph_identities == old(report).graph_identities,
        final(report).graph_revisions == old(report).graph_revisions,
        final(report).graph_edges == old(report).graph_edges,
        final(report).vector_chunks == old(report).vector_chunks,
{
    match kv {
        Attempt::Loaded(n) => {
            report.kv_loaded = true;
            report.kv_entries = n;
        },
        Attempt::Absent => {},
        Attempt::Failed(e) => {
            report.kv_error = Some(e);
        },
    }
    report.kv_entries = match report.kv_entries.checked_add(hydrated) {
        Some(n) => n,
        None => usize::MAX,
    };
}

/// The bindings that the revisions of a branch stand for, in order.
pub open spec fn branch_pairs(revs: Seq<RevisionView>, branch: BranchId) -> Seq<
    (IdentityId, NodeRevisionId),
>
    decreases revs.len(),
{
    if revs.len() == 0 {
        Seq::empty()
    } else {
        let front = branch_pairs(revs.drop_last(), branch);
        if revs.last().branch_id == branch {
            front.push((revs.last().identity_id, revs.last().revision_id))
        } else {
            front
        }
    }
}

/// Bindings and a store after pairs were bound on a branch, one after another.
pub open spec fn pairs_bound(
    layers: Seq<Layer>,
    m: Map<Seq<char>, Seq<u8>>,
    pairs: Seq<(IdentityId, NodeRevisionId)>,
) -> (Seq<Layer>, Map<Seq<char>, Seq<u8>>)
    decreases pairs.len(),
{
    if pairs.len() == 0 {
        (layers, m)
    } else {
        let (l, n) = pairs_bound(layers, m, pairs.drop_last());
        let (iid, rid) = pairs.last();
        (
            l.update(0, Layer { branch: l[0].branch, local: l[0].local.insert(iid, rid) }),
            n.insert(keys::binding_key(l[0].branch, iid), rid.0@),
        )
    }
}

/// Binds what the revisions of a branch stand for.
pub fn hydrate_revision_index(
    ri: &mut RevisionIndexCow,
    kv: &mut MemoryKv,
    graph: &InMemoryGraph,
    branch: BranchId,
)
    ensures
        (final(ri).layers(), final(kv)@) == pairs_bound(
            old(ri).layers(),
            old(kv)@,
            branch_pairs(graph@.revisions, branch),
        ),
{
    let revs = graph.revisions();
    let ghost s = graph@.revisions;
    let ghost l0 = ri.layers();
    let ghost m0 = kv@;
    let mut i: usize = 0;
    assert(s.take(0) =~= Seq::<RevisionView>::empty());
    while i < revs.len()
        invariant
            i <= revs.len(),
            s == graph::revision_views(revs@),
            (ri.layers(), kv@) == pairs_bound(l0, m0, branch_pairs(s.take(i as int), branch)),
        decreases revs.len() - i,
    {
        let r = &revs[i];
        proof {
            assert(s.take(i + 1).drop_last() =~= s.take(i as int));
            assert(s.take(i + 1).last() == r@);
        }
        if r.branch_id == branch {
            let ghost before = branch_pairs(s.take(i as int), branch);
            proof {
                let more = before.push((r.identity_id, r.revision_id));
                assert(more.drop_last() =~= before);
            }
            ri.bind(kv, r.identity_id, r.revision_id);
        }
        i = i + 1;
    }
    assert(s.take(s.len() as int) =~= s);
}

/// A snapshot of the bindings of a branch, with its number.
pub type RisRow = (BranchId, u64, Vec<u8>);

/// A store after snapshots were put that it did not have; how many there were.
pub open spec fn rows_hydrated(m: Map<Seq<char>, Seq<u8>>, rows: Seq<RisRow>) -> (
    Map<Seq<char>, Seq<u8>>,
    nat,
)
    decreases rows.len(),
{
    if rows.len() == 0 {
        (m, 0)
    } else {
        let (n, count) = rows_hydrated(m, rows.drop_last());
        let key = revision_cow::snapshot_epoch_key(rows.last().0, rows.last().1);
        if n.contains_key(key) {
            (n, count)
        } else {
            (n.insert(key, rows.last().2@), count + 1)
        }
    }
}

/// Puts the snapshots of a database into a store that does not have them; how many there were.
pub fn hydrate_ris_rows(rows: &Vec<RisRow>, kv: &mut MemoryKv) -> (n: usize)
    ensures
        (final(kv)@, n as nat) == rows_hydrated(old(kv)@, rows@),
{
    let ghost m0 = kv@;
    let mut n: usize = 0;
    let mut i: usize = 0;
    assert(rows@.take(0) =~= Seq::<RisRow>::empty());
    while i < rows.len()
        invariant
            i <= rows.len(),
            n <= i,
            (kv@, n as nat) == rows_hydrated(m0, rows@.take(i as int)),
        decreases rows.len() - i,
    {
        proof {
            assert(rows@.take(i + 1).drop_last() =~= rows@.take(i as int));
            assert(rows@.take(i + 1).last() == rows@[i as int]);
        }
        let key = ris_snapshot_kv_key(rows[i].0, rows[i].1);
        if kv.get(key.as_str()).is_none() {
            kv.set(key.as_str(), copy_bytes(&rows[i].2));
            n = n + 1;
        }
        i = i + 1;
    }
    assert(rows@.take(rows@.len() as int) =~= rows@);
    n
}

} // verus!
