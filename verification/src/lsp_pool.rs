//! Virtual workspaces of language servers, and the cache of what the servers answered.

use crate::bytes;
use crate::bytes::{le_u64_at, u64_le};
use crate::graph::Language;
use crate::hashing;
use crate::hashing::{finish_text, hash_array32, hash_text, new_hasher};
use crate::hex;
use crate::hex::hex16;
use crate::ids::BranchId;
use crate::kv;
use crate::kv::MemoryKv;
use crate::text;
use crate::text::{append_text, owned};
use vstd::prelude::*;

verus! {

/// What the hashes of dependencies hand to a hasher, in order.
pub open spec fn dependency_writes(deps: Seq<[u8; 32]>) -> Seq<Seq<u8>>
    decreases deps.len(),
{
    if deps.len() == 0 {
        Seq::empty()
    } else {
        dependency_writes(deps.drop_last()) + hashing::array32_writes(deps.last())
    }
}

/// The key of a cached answer: it depends on the content and on all that the content depends on.
pub open spec fn cache_key(uri: Seq<char>, content: [u8; 32], deps: Seq<[u8; 32]>) -> Seq<char> {
    "lsp:"@ + uri + ":"@ + hashing::number_hex(
        hashing::digest_of(hashing::text_writes(uri) + hashing::array32_writes(content) + dependency_writes(deps)),
    )
}

/// The key of a cached answer.
pub fn lsp_cache_key(
    virtual_uri: &str,
    content_hash: &[u8; 32],
    dependency_hashes: &[[u8; 32]],
) -> (r: String)
    ensures
        r@ == cache_key(virtual_uri@, *content_hash, dependency_hashes@),
{
    let mut h = new_hasher();
    hash_text(&mut h, virtual_uri);
    hash_array32(&mut h, content_hash);
    let ghost front = hashing::text_writes(virtual_uri@) + hashing::array32_writes(*content_hash);
    let ghost deps = dependency_hashes@;
    let mut i: usize = 0;
    proof {
        assert(deps.take(0) =~= Seq::<[u8; 32]>::empty());
        assert(h@ =~= front + dependency_writes(deps.take(0)));
    }
    while i < dependency_hashes.len()
        invariant
            i <= dependency_hashes.len(),
            deps == dependency_hashes@,
            h@ == front + dependency_writes(deps.take(i as int)),
        decreases dependency_hashes.len() - i,
    {
        hash_array32(&mut h, &dependency_hashes[i]);
        proof {
            assert(deps.take(i + 1).drop_last() =~= deps.take(i as int));
            assert(deps.take(i + 1).last() == deps[i as int]);
            assert(h@ =~= front + dependency_writes(deps.take(i + 1)));
        }
        i = i + 1;
    }
    assert(deps.take(deps.len() as int) =~= deps);
    let mut out = owned("lsp:");
    append_text(&mut out, virtual_uri);
    append_text(&mut out, ":");
    append_text(&mut out, finish_text(&h).as_str());
    out
}

/// The name of a language in an address.
pub open spec fn language_word(language: Language) -> Seq<char> {
    match language {
        Language::Python => "Python"@,
        Language::TypeScript => "TypeScript"@,
        Language::Rust => "Rust"@,
        Language::Unknown => "Unknown"@,
    }
}

/// Renders the name of a language.
pub fn language_text(language: Language) -> (r: String)
    ensures
        r@ == language_word(language),
{
    match language {
        Language::Python => owned("Python"),
        Language::TypeScript => owned("TypeScript"),
        Language::Rust => owned("Rust"),
        Language::Unknown => owned("Unknown"),
    }
}

/// The address of the workspace of a language on a branch.
pub open spec fn workspace_uri(language: Language, branch: BranchId) -> Seq<char> {
    "cis-virtual://"@ + language_word(language) + "/"@ + hex::hex_of(branch.0@)
}

/// The workspaces handed out so far.
pub struct LspPoolState {
    uris: Vec<(Language, BranchId, String)>,
}

impl Default for LspPoolState {
    /// No workspace was handed out.
    fn default() -> (r: Self)
        ensures
            r.wf(),
            r.known() == Set::<(Language, BranchId)>::empty(),
    {
        LspPoolState::new()
    }
}

impl LspPoolState {
    /// Every workspace on record has the address of its language and branch.
    pub closed spec fn wf(&self) -> bool {
        forall|i: int|
            0 <= i < self.uris.len() ==> (#[trigger] self.uris[i]).2@ == workspace_uri(
                self.uris[i].0,
                self.uris[i].1,
            )
    }

    /// The languages and branches that have a workspace.
    pub closed spec fn known(&self) -> Set<(Language, BranchId)> {
        self.uris@.map_values(|u: (Language, BranchId, String)| (u.0, u.1)).to_set()
    }

    /// No workspaces yet.
    pub fn new() -> (r: Self)
        ensures
            r.wf(),
            r.known() == Set::<(Language, BranchId)>::empty(),
    {
        let r = LspPoolState { uris: Vec::new() };
        assert(r.known() =~= Set::<(Language, BranchId)>::empty());
        r
    }

    /// The address of the workspace of a language on a branch.
    pub fn virtual_uri_for(&mut self, language: Language, branch: BranchId) -> (r: String)
        requires
            old(self).wf(),
        ensures
            final(self).wf(),
            final(self).known() == old(self).known().insert((language, branch)),
            r@ == workspace_uri(language, branch),
    {
        let mut i: usize = 0;
        while i < self.uris.len()
            invariant
                i <= self.uris.len(),
                self.wf(),
                self.uris == old(self).uris,
            decreases self.uris.len() - i,
        {
            if self.uris[i].0 == language && self.uris[i].1 == branch {
                proof {
                    let all = self.uris@.map_values(|u: (Language, BranchId, String)| (u.0, u.1));
                    assert(all[i as int] == (language, branch));
                    assert(self.known() =~= self.known().insert((language, branch)));
                }
                return owned(self.uris[i].2.as_str());
            }
            i = i + 1;
        }
        let mut out = owned("cis-virtual://");
        append_text(&mut out, language_text(language).as_str());
        append_text(&mut out, "/");
        append_text(&mut out, hex16(&branch.0).as_str());
        let kept = owned(out.as_str());
        let ghost before = self.uris@;
        let u = (language, branch, kept);
        self.uris.push(u);
        proof {
            let f = |u: (Language, BranchId, String)| (u.0, u.1);
            assert(self.uris@.map_values(f) =~= before.map_values(f).push((language, branch)));
            assert(self.known() =~= old(self).known().insert((language, branch))) by {
                let a = before.map_values(f);
                let b = self.uris@.map_values(f);
                assert forall|p: (Language, BranchId)| b.to_set().contains(p) implies a.to_set().insert(
                    (language, branch),
                ).contains(p) by {
                    let j = choose|j: int| 0 <= j < b.len() && b[j] == p;
                    if j < a.len() {
                        assert(a[j] == p);
                    }
                }
                assert forall|p: (Language, BranchId)|
                    a.to_set().insert((language, branch)).contains(p) implies b.to_set().contains(p) by {
                    if p == (language, branch) {
                        assert(b[a.len() as int] == p);
                    } else {
                        let j = choose|j: int| 0 <= j < a.len() && a[j] == p;
                        assert(b[j] == p);
                    }
                }
            }
        }
        out
    }
}

/// How the language servers of a session do.
#[derive(Debug, Clone, Copy, PartialEq, Eq, Structural, Default)]
pub struct LspSessionFlags {
    pub lsp_unavailable: bool,
}

impl LspSessionFlags {
    /// Notes whether the servers are out of reach.
    pub fn set_degraded(&mut self, unavailable: bool)
        ensures
            final(self).lsp_unavailable == unavailable,
    {
        self.lsp_unavailable = unavailable;
    }
}

/// A cached answer: the time it was stored, in eight bytes, and the answer.
pub open spec fn stamped(stored_at_ms: u64, payload: Seq<u8>) -> Seq<u8> {
    bytes::le(stored_at_ms as nat, 8) + payload
}

/// The time a cached answer was stored.
pub open spec fn stored_at(value: Seq<u8>) -> Option<nat> {
    if value.len() < 8 {
        None
    } else {
        Some(bytes::le_value(value.subrange(0, 8)))
    }
}

/// A cached answer was stored more than `ttl_ms` ago.
pub open spec fn is_stale(value: Seq<u8>, now_ms: u64, ttl_ms: u64) -> bool {
    stored_at(value) matches Some(t) && now_ms - t > ttl_ms
}

/// The keys of cached answers that are stale.
pub open spec fn stale_keys(m: Map<Seq<char>, Seq<u8>>, now_ms: u64, ttl_ms: u64) -> Set<Seq<char>> {
    m.dom().filter(
        |k: Seq<char>| text::begins_with(k, "lsp:"@) && is_stale(m[k], now_ms, ttl_ms),
    )
}

/// Takes stale answers out of the cache.
#[derive(Debug, Clone, Copy)]
pub struct LspCacheSweeper {
    pub ttl_ms: u64,
}

/// The rows up to some place whose value is stale.
spec fn stale_rows(rows: Seq<(String, Vec<u8>)>, n: int, now_ms: u64, ttl_ms: u64) -> Set<Seq<char>>
    decreases n,
{
    if n <= 0 {
        Set::empty()
    } else {
        let rest = stale_rows(rows, n - 1, now_ms, ttl_ms);
        if is_stale(rows[n - 1].1@, now_ms, ttl_ms) {
            rest.insert(rows[n - 1].0@)
        } else {
            rest
        }
    }
}

/// The stale rows are those of the rows that are stale.
proof fn lemma_stale_rows(rows: Seq<(String, Vec<u8>)>, n: int, now_ms: u64, ttl_ms: u64)
    requires
        0 <= n <= rows.len(),
    ensures
        stale_rows(rows, n, now_ms, ttl_ms).finite(),
        forall|k: Seq<char>| #[trigger]
            stale_rows(rows, n, now_ms, ttl_ms).contains(k) <==> exists|i: int|
                0 <= i < n && (#[trigger] rows[i]).0@ == k && is_stale(rows[i].1@, now_ms, ttl_ms),
    decreases n,
{
    if n > 0 {
        lemma_stale_rows(rows, n - 1, now_ms, ttl_ms);
        assert forall|k: Seq<char>| #[trigger]
            stale_rows(rows, n, now_ms, ttl_ms).contains(k) <==> exists|i: int|
                0 <= i < n && (#[trigger] rows[i]).0@ == k && is_stale(
                    rows[i].1@,
                    now_ms,
                    ttl_ms,
                ) by {
            if stale_rows(rows, n, now_ms, ttl_ms).contains(k) {
                if stale_rows(rows, n - 1, now_ms, ttl_ms).contains(k) {
                    let i = choose|i: int|
                        0 <= i < n - 1 && (#[trigger] rows[i]).0@ == k && is_stale(
                            rows[i].1@,
                            now_ms,
                            ttl_ms,
                        );
                    assert(rows[i].0@ == k);
                } else {
                    assert(rows[n - 1].0@ == k);
                }
            }
        }
    }
}

impl LspCacheSweeper {
    pub const DEFAULT_TTL_MS: u64 = 86_400_000;

    /// A sweeper of answers older than `ttl_ms`.
    pub fn new(ttl_ms: u64) -> (r: Self)
        ensures
            r.ttl_ms == ttl_ms,
    {
        LspCacheSweeper { ttl_ms }
    }

    /// Takes the stale answers out of the cache; how many there were.
    pub fn sweep(&self, kv: &mut MemoryKv, now_ms: u64) -> (n: usize)
        ensures
            final(kv)@ == old(kv)@.remove_keys(stale_keys(old(kv)@, now_ms, self.ttl_ms)),
            n == stale_keys(old(kv)@, now_ms, self.ttl_ms).len(),
    {
        let ghost m0 = kv@;
        let rows = kv.scan_prefix("lsp:");
        let mut n: usize = 0;
        let mut i: usize = 0;
        assert(m0 =~= m0.remove_keys(stale_rows(rows@, 0, now_ms, self.ttl_ms)));
        while i < rows.len()
            invariant
                i <= rows.len(),
                n <= i,
                kv::scanned(m0, "lsp:"@, rows@),
                kv@ == m0.remove_keys(stale_rows(rows@, i as int, now_ms, self.ttl_ms)),
                n == stale_rows(rows@, i as int, now_ms, self.ttl_ms).len(),
            decreases rows.len() - i,
        {
            let ghost before = stale_rows(rows@, i as int, now_ms, self.ttl_ms);
            let ghost key = rows@[i as int].0@;
            proof {
                lemma_stale_rows(rows@, i as int, now_ms, self.ttl_ms);
                assert(!before.contains(key)) by {
                    if before.contains(key) {
                        let j = choose|j: int|
                            0 <= j < i && (#[trigger] rows@[j]).0@ == key && is_stale(
                                rows@[j].1@,
                                now_ms,
                                self.ttl_ms,
                            );
                        assert(rows@[j].0@ != rows@[i as int].0@);
                    }
                }
            }
            if rows[i].1.len() >= 8 {
                let stored = le_u64_at(&rows[i].1, 0);
                if now_ms > stored && now_ms - stored > self.ttl_ms {
                    kv.delete(rows[i].0.as_str());
                    assert(m0.remove_keys(before).remove(key) =~= m0.remove_keys(
                        before.insert(key),
                    ));
                    n = n + 1;
                }
            }
            i = i + 1;
        }
        proof {
            let all = stale_rows(rows@, rows@.len() as int, now_ms, self.ttl_ms);
            let want = stale_keys(m0, now_ms, self.ttl_ms);
            lemma_stale_rows(rows@, rows@.len() as int, now_ms, self.ttl_ms);
            assert(all =~= want) by {
                assert forall|k: Seq<char>| all.contains(k) implies want.contains(k) by {
                    let j = choose|j: int|
                        0 <= j < rows@.len() && (#[trigger] rows@[j]).0@ == k && is_stale(
                            rows@[j].1@,
                            now_ms,
                            self.ttl_ms,
                        );
                    assert(m0.contains_pair(k, rows@[j].1@));
                }
                assert forall|k: Seq<char>| want.contains(k) implies all.contains(k) by {
                    assert(m0.contains_key(k) && text::begins_with(k, "lsp:"@));
                    let j = choose|j: int| 0 <= j < rows@.len() && (#[trigger] rows@[j]).0@ == k;
                    assert(m0.contains_pair(k, rows@[j].1@));
                }
            }
        }
        n
    }
}

/// A cached answer with the time it was stored.
pub fn lsp_cache_value_with_timestamp(stored_at_ms: u64, payload: &[u8]) -> (r: Vec<u8>)
    ensures
        r@ == stamped(stored_at_ms, payload@),
{
    let mut v = u64_le(stored_at_ms);
    let ghost head = v@;
    let mut i: usize = 0;
    while i < payload.len()
        invariant
            i <= payload.len(),
            v@ =~= head + payload@.take(i as int),
        decreases payload.len() - i,
    {
        v.push(payload[i]);
        i = i + 1;
    }
    assert(payload@.take(payload@.len() as int) =~= payload@);
    v
}

/// An answer that was stored reads back with its time, and is stale once it is older than the limit.
pub proof fn law_stamp_reads_back(stored_at_ms: u64, payload: Seq<u8>, now_ms: u64, ttl_ms: u64)
    ensures
        stored_at(stamped(stored_at_ms, payload)) == Some(stored_at_ms as nat),
        stamped(stored_at_ms, payload).skip(8) == payload,
        is_stale(stamped(stored_at_ms, payload), now_ms, ttl_ms) <==> now_ms - stored_at_ms
            > ttl_ms,
{
    bytes::lemma_le_spans();
    bytes::lemma_le_reads_back(stored_at_ms as nat, 8);
    bytes::lemma_le_len(stored_at_ms as nat, 8);
    let v = stamped(stored_at_ms, payload);
    assert(v.subrange(0, 8) =~= bytes::le(stored_at_ms as nat, 8));
    assert(v.skip(8) =~= payload);
}

/// Sweeping leaves no stale answer and takes nothing else.
pub proof fn law_sweep_leaves_fresh(m: Map<Seq<char>, Seq<u8>>, now_ms: u64, ttl_ms: u64, k: Seq<char>)
    ensures
        ({
            let swept = m.remove_keys(stale_keys(m, now_ms, ttl_ms));
            &&& swept.contains_key(k) <==> m.contains_key(k) && !(text::begins_with(k, "lsp:"@)
                && is_stale(m[k], now_ms, ttl_ms))
            &&& swept.contains_key(k) ==> swept[k] == m[k]
            &&& stale_keys(swept, now_ms, ttl_ms) == Set::<Seq<char>>::empty()
        }),
{
    let swept = m.remove_keys(stale_keys(m, now_ms, ttl_ms));
    assert(stale_keys(swept, now_ms, ttl_ms) =~= Set::<Seq<char>>::empty());
}

} // verus!
