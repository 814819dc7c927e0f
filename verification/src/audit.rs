//! The record of what sessions did, sealed in epochs that are chained by digests.

use crate::clock::{millis_since, now_epoch_ms, this_moment};
use crate::hashing;
use crate::hashing::{finish_text, hash_number, hash_text, new_hasher};
use crate::hex;
use crate::hex::{decimal_text, padded_decimal, parse_decimal_u64};
use crate::json;
use crate::json::{
    JsonTree, field, object_value, text_value, value_from_bytes, value_member, value_text,
    value_to_bytes,
};
use crate::kv;
use crate::kv::MemoryKv;
use crate::syntax;
use crate::text;
use crate::text::{append_text, chars_of, cut, owned, same_text};
use vstd::prelude::*;

verus! {

/// An entry of the record.
#[derive(Debug)]
pub struct AuditRecord {
    pub ts_ms: u64,
    pub session_id: u64,
    pub action: String,
}

/// What an entry holds.
pub type AuditView = (u64, u64, Seq<char>);

impl View for AuditRecord {
    type V = AuditView;

    open spec fn view(&self) -> AuditView {
        (self.ts_ms, self.session_id, self.action@)
    }
}

/// Entries that were not handed on yet, in order.
#[derive(Debug)]
pub struct AuditLog {
    local_queue: Vec<AuditRecord>,
}

impl View for AuditLog {
    type V = Seq<AuditView>;

    closed spec fn view(&self) -> Seq<AuditView> {
        self.local_queue@.map_values(|r: AuditRecord| r@)
    }
}

impl AuditLog {
    /// No entries.
    pub fn new() -> (r: Self)
        ensures
            r@ == Seq::<AuditView>::empty(),
    {
        let r = AuditLog { local_queue: Vec::new() };
        assert(r@ =~= Seq::<AuditView>::empty());
        r
    }

    /// Adds an entry made at a time.
    pub fn record_at(&mut self, ts_ms: u64, session_id: u64, action: &str)
        ensures
            final(self)@ == old(self)@.push((ts_ms, session_id, action@)),
    {
        let ghost before = self@;
        self.local_queue.push(AuditRecord { ts_ms, session_id, action: owned(action) });
        assert(self@ =~= before.push((ts_ms, session_id, action@)));
    }

    /// Adds an entry made now.
    pub fn record_sync(&mut self, session_id: u64, action: &str)
        ensures
            exists|ts_ms: u64|
                final(self)@ == #[trigger] old(self)@.push((ts_ms, session_id, action@)),
    {
        let ts_ms = now_epoch_ms();
        self.record_at(ts_ms, session_id, action);
    }

    /// Hands the entries on.
    pub fn drained_local(&mut self) -> (r: Vec<AuditRecord>)
        ensures
            r@.map_values(|x: AuditRecord| x@) == old(self)@,
            final(self)@ == Seq::<AuditView>::empty(),
    {
        let mut out: Vec<AuditRecord> = Vec::new();
        std::mem::swap(&mut out, &mut self.local_queue);
        assert(self@ =~= Seq::<AuditView>::empty());
        out
    }
}

/// Where entries are written down, one a line.
#[derive(Debug)]
pub struct DurableAuditQueue {
    path: String,
}

impl View for DurableAuditQueue {
    type V = Seq<char>;

    closed spec fn view(&self) -> Seq<char> {
        self.path@
    }
}

impl DurableAuditQueue {
    /// Entries are written down in a file.
    pub fn new(path: &str) -> (r: Self)
        ensures
            r@ == path@,
    {
        DurableAuditQueue { path: owned(path) }
    }

    /// The file.
    pub fn path(&self) -> (r: &str)
        ensures
            r@ == self@,
    {
        self.path.as_str()
    }
}

/// The digest of an epoch: over its number, the digest in front of it, and its summary.
pub open spec fn epoch_digest(epoch_id: u64, prev: Seq<char>, summary: Seq<char>) -> Seq<char> {
    hashing::number_hex(hashing::digest_of(hashing::number_writes(epoch_id) + hashing::text_writes(prev) + hashing::text_writes(summary)))
}

/// Computes the digest of an epoch.
pub fn compute_audit_epoch_digest(epoch_id: u64, prev_chain_hex: &str, summary: &str) -> (r: String)
    ensures
        r@ == epoch_digest(epoch_id, prev_chain_hex@, summary@),
{
    let mut h = new_hasher();
    hash_number(&mut h, epoch_id);
    hash_text(&mut h, prev_chain_hex);
    hash_text(&mut h, summary);
    assert(h@ =~= hashing::number_writes(epoch_id) + hashing::text_writes(prev_chain_hex@) + hashing::text_writes(summary@));
    finish_text(&h)
}

/// The key of an epoch.
pub open spec fn epoch_key(epoch_id: u64) -> Seq<char> {
    "audit:epoch:"@ + hex::zero_padded(hex::decimal(epoch_id as nat), 20)
}

/// What is written down of an epoch.
pub open spec fn epoch_fields(prev: Seq<char>, dig: Seq<char>, summary: Seq<char>) -> Seq<
    (Seq<char>, JsonTree),
> {
    seq![
        ("prev"@, JsonTree::Text(prev)),
        ("digest"@, JsonTree::Text(dig)),
        ("summary"@, JsonTree::Text(summary)),
    ]
}

/// An epoch as a JSON value: an object with its three texts.
pub open spec fn epoch_tree(prev: Seq<char>, dig: Seq<char>, summary: Seq<char>) -> JsonTree {
    JsonTree::Object(json::members(epoch_fields(prev, dig, summary)))
}

/// The bytes of an epoch.
pub open spec fn epoch_bytes(epoch_id: u64, prev: Seq<char>, summary: Seq<char>) -> Seq<u8> {
    json::tree_bytes(epoch_tree(prev, epoch_digest(epoch_id, prev, summary), summary))
}

/// The store once an epoch is sealed.
pub open spec fn epoch_sealed(
    m: Map<Seq<char>, Seq<u8>>,
    epoch_id: u64,
    prev: Seq<char>,
    summary: Seq<char>,
) -> Map<Seq<char>, Seq<u8>> {
    m.insert(epoch_key(epoch_id), epoch_bytes(epoch_id, prev, summary))
}

/// Builds the key of an epoch.
fn epoch_key_text(epoch_id: u64) -> (r: String)
    ensures
        r@ == epoch_key(epoch_id),
{
    let mut key = owned("audit:epoch:");
    let digits = padded_decimal(epoch_id, 20);
    append_text(&mut key, digits.as_str());
    key
}

/// Seals an epoch; its digest is handed back.
pub fn append_audit_epoch(
    kv: &mut MemoryKv,
    epoch_id: u64,
    prev_chain_hex: &str,
    summary: &str,
) -> (r: String)
    ensures
        final(kv)@ == epoch_sealed(old(kv)@, epoch_id, prev_chain_hex@, summary@),
        r@ == epoch_digest(epoch_id, prev_chain_hex@, summary@),
{
    let dig = compute_audit_epoch_digest(epoch_id, prev_chain_hex, summary);
    let fields = vec![
        field("prev", text_value(prev_chain_hex)),
        field("digest", text_value(dig.as_str())),
        field("summary", text_value(summary)),
    ];
    assert(json::field_trees(fields@) =~= epoch_fields(prev_chain_hex@, dig@, summary@));
    if let Some(bytes) = value_to_bytes(&object_value(fields)) {
        kv.set(epoch_key_text(epoch_id).as_str(), bytes);
    }
    dig
}

/// An epoch as it is on record.
#[derive(Debug)]
pub struct AuditEpoch {
    pub id: u64,
    pub prev: Option<String>,
    pub digest: Option<String>,
    pub summary: Option<String>,
}

/// What an epoch on record holds.
#[verifier::ext_equal]
pub struct EpochView {
    pub id: u64,
    pub prev: Option<Seq<char>>,
    pub digest: Option<Seq<char>>,
    pub summary: Option<Seq<char>>,
}

impl View for AuditEpoch {
    type V = EpochView;

    open spec fn view(&self) -> EpochView {
        EpochView {
            id: self.id,
            prev: syntax::text_view(self.prev),
            digest: syntax::text_view(self.digest),
            summary: syntax::text_view(self.summary),
        }
    }
}

/// What epochs hold.
pub open spec fn epoch_views(v: Seq<AuditEpoch>) -> Seq<EpochView> {
    v.map_values(|e: AuditEpoch| e@)
}

/// The text that a value has under a name.
pub open spec fn member_text(t: JsonTree, name: Seq<char>) -> Option<Seq<char>> {
    match t {
        JsonTree::Object(m) => if m.contains_key(name) {
            match m[name] {
                JsonTree::Text(s) => Some(s),
                _ => None,
            }
        } else {
            None
        },
        _ => None,
    }
}

/// The epoch that an entry of the store is.
pub open spec fn epoch_of(key: Seq<char>, value: Seq<u8>) -> Option<EpochView> {
    match (
        hex::decimal_u64(key.skip("audit:epoch:"@.len() as int)),
        json::tree_of_bytes(value),
    ) {
        (Some(id), Some(t)) => Some(
            EpochView {
                id,
                prev: member_text(t, "prev"@),
                digest: member_text(t, "digest"@),
                summary: member_text(t, "summary"@),
            },
        ),
        _ => None,
    }
}

/// Reads the text that a value has under a name.
fn read_member_text(v: &serde_json::Value, name: &str) -> (r: Option<String>)
    ensures
        syntax::text_view(r) == member_text(json::value_tree(*v), name@),
{
    match value_member(v, name) {
        Some(x) => match value_text(x) {
            Some(s) => Some(owned(s)),
            None => None,
        },
        None => None,
    }
}

/// The texts of an epoch are read as they were written.
pub proof fn law_epoch_reads_back(prev: Seq<char>, dig: Seq<char>, summary: Seq<char>)
    ensures
        member_text(epoch_tree(prev, dig, summary), "prev"@) == Some(prev),
        member_text(epoch_tree(prev, dig, summary), "digest"@) == Some(dig),
        member_text(epoch_tree(prev, dig, summary), "summary"@) == Some(summary),
        json::plain(epoch_tree(prev, dig, summary), 16),
{
    let f = epoch_fields(prev, dig, summary);
    reveal_strlit("prev");
    reveal_strlit("digest");
    reveal_strlit("summary");
    assert(f[0].0.len() == 4);
    assert(f[1].0.len() == 6);
    assert(f[2].0.len() == 7);
    assert forall|i: int, j: int| 0 <= i < j < f.len() implies (#[trigger] f[i]).0 != (
    #[trigger] f[j]).0 by {
        assert(i == 0 || i == 1);
    }
    json::lemma_member_found(f, 0);
    json::lemma_member_found(f, 1);
    json::lemma_member_found(f, 2);
    json::lemma_plain_object(f, 1);
    json::lemma_plain_deeper(epoch_tree(prev, dig, summary), 2, 16);
}

/// Reads the epoch that an entry of the store is.
fn read_epoch(key: &str, value: &Vec<u8>) -> (r: Option<AuditEpoch>)
    requires
        text::begins_with(key@, "audit:epoch:"@),
    ensures
        match r {
            Some(e) => epoch_of(key@, value@) == Some(e@),
            None => epoch_of(key@, value@) is None,
        },
        forall|id: u64, prev: Seq<char>, summary: Seq<char>|
            value@ == #[trigger] epoch_bytes(id, prev, summary) && r is Some ==> r->0@.prev == Some(
                prev,
            ) && r->0@.digest == Some(epoch_digest(id, prev, summary)) && r->0@.summary == Some(
                summary,
            ),
        forall|id: u64, prev: Seq<char>, summary: Seq<char>|
            value@ == #[trigger] epoch_bytes(id, prev, summary) && key@ == epoch_key(id) ==> r is Some
                && r->0@.id == id,
{
    let cs = chars_of(key);
    let head = chars_of("audit:epoch:");
    let rest = cut(&cs, head.len(), cs.len());
    assert(rest@ =~= key@.skip("audit:epoch:"@.len() as int));
    let id = parse_decimal_u64(&rest);
    let found = value_from_bytes(value);
    proof {
        assert forall|id: u64, prev: Seq<char>, summary: Seq<char>|
            value@ == #[trigger] epoch_bytes(id, prev, summary) implies found is Some
            && json::value_tree(found->0) == epoch_tree(
            prev,
            epoch_digest(id, prev, summary),
            summary,
        ) && member_text(json::value_tree(found->0), "prev"@) == Some(prev) && member_text(
            json::value_tree(found->0),
            "digest"@,
        ) == Some(epoch_digest(id, prev, summary)) && member_text(
            json::value_tree(found->0),
            "summary"@,
        ) == Some(summary) by {
            law_epoch_reads_back(prev, epoch_digest(id, prev, summary), summary);
        }
        assert forall|id: u64| key@ == #[trigger] epoch_key(id) implies hex::decimal_u64(rest@) == Some(
            id,
        ) by {
            assert(rest@ =~= hex::zero_padded(hex::decimal(id as nat), 20));
            hex::lemma_padded_reads_back(id, 20);
        }
    }
    match (id, found) {
        (Some(id), Some(v)) => Some(
            AuditEpoch {
                id,
                prev: read_member_text(&v, "prev"),
                digest: read_member_text(&v, "digest"),
                summary: read_member_text(&v, "summary"),
            },
        ),
        _ => None,
    }
}

/// The epochs among entries of the store, in order.
pub open spec fn epochs_in(rows: Seq<(String, Vec<u8>)>) -> Seq<EpochView>
    decreases rows.len(),
{
    if rows.len() == 0 {
        Seq::empty()
    } else {
        let front = epochs_in(rows.drop_last());
        match epoch_of(rows.last().0@, rows.last().1@) {
            Some(e) => front.push(e),
            None => front,
        }
    }
}

/// Epochs stand by number.
pub open spec fn by_number(s: Seq<EpochView>) -> bool {
    forall|i: int, j: int| 0 <= i < j < s.len() ==> (#[trigger] s[i]).id <= (#[trigger] s[j]).id
}

/// `s` are the epochs on record, by number.
pub open spec fn epochs_on_record(m: Map<Seq<char>, Seq<u8>>, s: Seq<EpochView>) -> bool {
    &&& by_number(s)
    &&& exists|rows: Seq<(String, Vec<u8>)>| #[trigger]
        kv::scanned(m, "audit:epoch:"@, rows) && s.to_multiset() == epochs_in(rows).to_multiset()
}

/// An epoch put behind those that do not come after it keeps the order.
proof fn lemma_insert_by_number(s: Seq<EpochView>, k: int, e: EpochView)
    requires
        by_number(s),
        0 <= k <= s.len(),
        forall|j: int| 0 <= j < k ==> (#[trigger] s[j]).id <= e.id,
        k < s.len() ==> e.id <= s[k].id,
    ensures
        by_number(s.insert(k, e)),
{
    let t = s.insert(k, e);
    assert forall|i: int, j: int| 0 <= i < j < t.len() implies (#[trigger] t[i]).id <= (
    #[trigger] t[j]).id by {
        let i0 = if i < k { i } else { i - 1 };
        let j0 = if j < k { j } else { j - 1 };
        if i == k {
            assert(t[j] == s[j0]);
            if j0 > k {
                assert(s[k].id <= s[j0].id);
            }
        } else if j == k {
            assert(t[i] == s[i0]);
        } else {
            assert(t[i] == s[i0] && t[j] == s[j0]);
        }
    }
}

/// An epoch as it was sealed.
pub open spec fn sealed_epoch(id: u64, prev: Seq<char>, summary: Seq<char>) -> EpochView {
    EpochView {
        id,
        prev: Some(prev),
        digest: Some(epoch_digest(id, prev, summary)),
        summary: Some(summary),
    }
}

/// The store holds an epoch as it was sealed.
pub open spec fn holds_epoch(m: Map<Seq<char>, Seq<u8>>, e: EpochView) -> bool {
    &&& e.prev is Some
    &&& e.summary is Some
    &&& e == sealed_epoch(e.id, e.prev->0, e.summary->0)
    &&& kv::value_at(m, epoch_key(e.id)) == Some(epoch_bytes(e.id, e.prev->0, e.summary->0))
}

/// The epochs of the store are those of a chain, as they were sealed one behind the other.
pub open spec fn holds_chain(m: Map<Seq<char>, Seq<u8>>, c: Seq<EpochView>) -> bool {
    &&& forall|i: int| 0 <= i < c.len() ==> holds_epoch(m, #[trigger] c[i])
    &&& forall|i: int, j: int| 0 <= i < j < c.len() ==> (#[trigger] c[i]).id < (#[trigger] c[j]).id
    &&& forall|i: int| 0 <= i < c.len() ==> #[trigger] prev_right(c, i)
    &&& forall|k: Seq<char>| #[trigger]
        m.contains_key(k) && text::begins_with(k, "audit:epoch:"@) ==> exists|i: int|
            0 <= i < c.len() && k == epoch_key((#[trigger] c[i]).id)
}

/// Two sequences of epochs with the same epochs, each strictly by number, are one.
proof fn lemma_same_epochs(a: Seq<EpochView>, b: Seq<EpochView>)
    requires
        forall|i: int, j: int| 0 <= i < j < a.len() ==> (#[trigger] a[i]).id < (#[trigger] a[j]).id,
        forall|i: int, j: int| 0 <= i < j < b.len() ==> (#[trigger] b[i]).id < (#[trigger] b[j]).id,
        forall|e: EpochView| #[trigger] a.contains(e) <==> b.contains(e),
    ensures
        a == b,
    decreases a.len() + b.len(),
{
    if a.len() == 0 {
        if b.len() > 0 {
            assert(b.contains(b[0]));
            assert(a.contains(b[0]));
        }
        assert(a =~= b);
    } else if b.len() == 0 {
        assert(a.contains(a[0]));
        assert(b.contains(a[0]));
    } else {
        let x = a.last();
        let y = b.last();
        assert(a.contains(x));
        assert(b.contains(x));
        assert(b.contains(y));
        assert(a.contains(y));
        let i = choose|i: int| 0 <= i < b.len() && b[i] == x;
        let j = choose|j: int| 0 <= j < a.len() && a[j] == y;
        if i < b.len() - 1 {
            assert(b[i].id < b[b.len() - 1].id);
            if j < a.len() - 1 {
                assert(a[j].id < a[a.len() - 1].id);
            }
        }
        assert(x == y) by {
            if i < b.len() - 1 {
                assert(x.id < y.id);
                assert(y.id <= x.id);
            }
        }
        let a1 = a.drop_last();
        let b1 = b.drop_last();
        assert forall|e: EpochView| #[trigger] a1.contains(e) implies b1.contains(e) by {
            let k = choose|k: int| 0 <= k < a1.len() && a1[k] == e;
            assert(a[k] == e);
            assert(a[k].id < a[a.len() - 1].id);
            assert(a.contains(e));
            assert(b.contains(e));
            let l = choose|l: int| 0 <= l < b.len() && b[l] == e;
            assert(l != b.len() - 1);
            assert(b1[l] == e);
        }
        assert forall|e: EpochView| #[trigger] b1.contains(e) implies a1.contains(e) by {
            let k = choose|k: int| 0 <= k < b1.len() && b1[k] == e;
            assert(b[k] == e);
            assert(b[k].id < b[b.len() - 1].id);
            assert(b.contains(e));
            assert(a.contains(e));
            let l = choose|l: int| 0 <= l < a.len() && a[l] == e;
            assert(l != a.len() - 1);
            assert(a1[l] == e);
        }
        lemma_same_epochs(a1, b1);
        assert(a =~= a1.push(x));
        assert(b =~= b1.push(y));
    }
}

/// Two epochs with one key have one number.
proof fn lemma_epoch_keys(a: u64, b: u64)
    requires
        epoch_key(a) == epoch_key(b),
    ensures
        a == b,
{
    let h = "audit:epoch:"@;
    let x = hex::zero_padded(hex::decimal(a as nat), 20);
    let y = hex::zero_padded(hex::decimal(b as nat), 20);
    assert((h + x).skip(h.len() as int) =~= x);
    assert((h + y).skip(h.len() as int) =~= y);
    hex::lemma_padded_injective(a as nat, b as nat, 20);
}

/// The epochs read from entries, where each entry is read.
proof fn lemma_epochs_in(rows: Seq<(String, Vec<u8>)>)
    requires
        forall|j: int| 0 <= j < rows.len() ==> epoch_of((#[trigger] rows[j]).0@, rows[j].1@) is Some,
    ensures
        epochs_in(rows).len() == rows.len(),
        forall|j: int|
            0 <= j < rows.len() ==> epochs_in(rows)[j] == epoch_of(
                (#[trigger] rows[j]).0@,
                rows[j].1@,
            )->0,
    decreases rows.len(),
{
    if rows.len() > 0 {
        let front = rows.drop_last();
        assert forall|j: int| 0 <= j < front.len() implies epoch_of(
            (#[trigger] front[j]).0@,
            front[j].1@,
        ) is Some by {
            assert(front[j] == rows[j]);
        }
        lemma_epochs_in(front);
        assert(rows.last() == rows[rows.len() - 1]);
        assert forall|j: int| 0 <= j < rows.len() implies epochs_in(rows)[j] == epoch_of(
            (#[trigger] rows[j]).0@,
            rows[j].1@,
        )->0 by {
            if j < front.len() {
                assert(front[j] == rows[j]);
            }
        }
    }
}

/// Epochs read from a store that holds a chain are that chain.
proof fn lemma_chain_read(
    m: Map<Seq<char>, Seq<u8>>,
    rows: Seq<(String, Vec<u8>)>,
    s: Seq<EpochView>,
    c: Seq<EpochView>,
)
    requires
        kv::scanned(m, "audit:epoch:"@, rows),
        by_number(s),
        s.to_multiset() == epochs_in(rows).to_multiset(),
        holds_chain(m, c),
        forall|j: int, id: u64, prev: Seq<char>, summary: Seq<char>|
            #![trigger rows[j], epoch_bytes(id, prev, summary)]
            0 <= j < rows.len() && rows[j].1@ == epoch_bytes(id, prev, summary) && rows[j].0@
                == epoch_key(id) ==> epoch_of(rows[j].0@, rows[j].1@) == Some(
                sealed_epoch(id, prev, summary),
            ),
    ensures
        s == c,
{
    let e = epochs_in(rows);
    assert forall|j: int| 0 <= j < rows.len() implies exists|i: int|
        0 <= i < c.len() && rows[j].0@ == epoch_key((#[trigger] c[i]).id) && epoch_of(
            (#[trigger] rows[j]).0@,
            rows[j].1@,
        ) == Some(c[i]) by {
        assert(m.contains_pair(rows[j].0@, rows[j].1@));
        let i = choose|i: int| 0 <= i < c.len() && rows[j].0@ == epoch_key((#[trigger] c[i]).id);
        assert(holds_epoch(m, c[i]));
        assert(rows[j].1@ == epoch_bytes(c[i].id, c[i].prev->0, c[i].summary->0));
    }
    lemma_epochs_in(rows);
    assert(e.no_duplicates()) by {
        assert forall|x: int, y: int| 0 <= x < e.len() && 0 <= y < e.len() && x != y implies e[x]
            != e[y] by {
            let i = choose|i: int|
                0 <= i < c.len() && rows[x].0@ == epoch_key((#[trigger] c[i]).id) && epoch_of(
                    rows[x].0@,
                    rows[x].1@,
                ) == Some(c[i]);
            let k = choose|k: int|
                0 <= k < c.len() && rows[y].0@ == epoch_key((#[trigger] c[k]).id) && epoch_of(
                    rows[y].0@,
                    rows[y].1@,
                ) == Some(c[k]);
            assert(rows[x].0@ != rows[y].0@);
            assert(e[x] == c[i] && e[y] == c[k]);
        }
    }
    e.lemma_multiset_has_no_duplicates();
    s.lemma_multiset_has_no_duplicates_conv();
    assert forall|x: EpochView| #[trigger] s.contains(x) <==> c.contains(x) by {
        vstd::seq_lib::to_multiset_contains(s, x);
        vstd::seq_lib::to_multiset_contains(e, x);
        if e.contains(x) {
            let j = choose|j: int| 0 <= j < e.len() && e[j] == x;
            let i = choose|i: int|
                0 <= i < c.len() && rows[j].0@ == epoch_key((#[trigger] c[i]).id) && epoch_of(
                    rows[j].0@,
                    rows[j].1@,
                ) == Some(c[i]);
            assert(c[i] == x);
        }
        if c.contains(x) {
            let i = choose|i: int| 0 <= i < c.len() && c[i] == x;
            assert(holds_epoch(m, c[i]));
            let key = epoch_key(c[i].id);
            assert(m.contains_key(key));
            assert(text::begins_with(key, "audit:epoch:"@)) by {
                assert(key.subrange(0, "audit:epoch:"@.len() as int) =~= "audit:epoch:"@);
            }
            let j = choose|j: int| 0 <= j < rows.len() && (#[trigger] rows[j]).0@ == key;
            let k = choose|k: int|
                0 <= k < c.len() && rows[j].0@ == epoch_key((#[trigger] c[k]).id) && epoch_of(
                    rows[j].0@,
                    rows[j].1@,
                ) == Some(c[k]);
            lemma_epoch_keys(c[i].id, c[k].id);
            assert(k == i);
            assert(e[j] == x);
        }
    }
    assert forall|i: int, j: int| 0 <= i < j < s.len() implies (#[trigger] s[i]).id < (
    #[trigger] s[j]).id by {
        assert(s[i] != s[j]);
        assert(s.contains(s[i]) && s.contains(s[j]));
        assert(c.contains(s[i]) && c.contains(s[j]));
        let x = choose|x: int| 0 <= x < c.len() && c[x] == s[i];
        let y = choose|y: int| 0 <= y < c.len() && c[y] == s[j];
        assert(x != y);
        assert(c[x].id != c[y].id);
    }
    lemma_same_epochs(s, c);
}

/// Reads the epochs on record, by number.
pub fn load_epochs(kv: &MemoryKv) -> (r: Vec<AuditEpoch>)
    ensures
        epochs_on_record(kv@, epoch_views(r@)),
        forall|c: Seq<EpochView>| #[trigger] holds_chain(kv@, c) ==> epoch_views(r@) == c,
{
    let rows = kv.scan_prefix("audit:epoch:");
    let mut out: Vec<AuditEpoch> = Vec::new();
    let mut i: usize = 0;
    proof {
        assert(rows@.take(0) =~= Seq::<(String, Vec<u8>)>::empty());
        assert(epoch_views(out@) =~= Seq::<EpochView>::empty());
    }
    while i < rows.len()
        invariant
            i <= rows.len(),
            kv::scanned(kv@, "audit:epoch:"@, rows@),
            by_number(epoch_views(out@)),
            epoch_views(out@).to_multiset() == epochs_in(rows@.take(i as int)).to_multiset(),
            forall|j: int, id: u64, prev: Seq<char>, summary: Seq<char>|
                #![trigger rows@[j], epoch_bytes(id, prev, summary)]
                0 <= j < i && rows@[j].1@ == epoch_bytes(id, prev, summary) && rows@[j].0@
                    == epoch_key(id) ==> epoch_of(rows@[j].0@, rows@[j].1@) == Some(
                    sealed_epoch(id, prev, summary),
                ),
        decreases rows.len() - i,
    {
        let ghost before = epoch_views(out@);
        proof {
            assert(rows@.take(i + 1).drop_last() =~= rows@.take(i as int));
            assert(rows@.take(i + 1).last() == rows@[i as int]);
            assert(text::begins_with(rows@[i as int].0@, "audit:epoch:"@));
        }
        match read_epoch(rows[i].0.as_str(), &rows[i].1) {
            Some(e) => {
                let ghost ev = e@;
                let mut k: usize = 0;
                while k < out.len() && out[k].id <= e.id
                    invariant
                        k <= out.len(),
                        ev == e@,
                        before == epoch_views(out@),
                        forall|j: int| 0 <= j < k ==> (#[trigger] before[j]).id <= ev.id,
                    decreases out.len() - k,
                {
                    assert(before[k as int] == out@[k as int]@);
                    k = k + 1;
                }
                proof {
                    if k < before.len() {
                        assert(before[k as int] == out@[k as int]@);
                    }
                }
                out.insert(k, e);
                proof {
                    assert(epoch_views(out@) =~= before.insert(k as int, ev));
                    vstd::seq_lib::to_multiset_insert(before, k as int, ev);
                    vstd::seq_lib::to_multiset_build(epochs_in(rows@.take(i as int)), ev);
                    lemma_insert_by_number(before, k as int, ev);
                }
            },
            None => {},
        }
        i = i + 1;
    }
    proof {
        assert(rows@.take(rows@.len() as int) =~= rows@);
        assert forall|c: Seq<EpochView>| #[trigger] holds_chain(kv@, c) implies epoch_views(out@)
            == c by {
            lemma_chain_read(kv@, rows@, epoch_views(out@), c);
        }
    }
    out
}

/// A text that may be missing.
pub open spec fn or_nothing(t: Option<Seq<char>>) -> Seq<char> {
    match t {
        Some(x) => x,
        None => Seq::empty(),
    }
}

/// The digest that an epoch must carry in front.
pub open spec fn expected_prev(s: Seq<EpochView>, i: int) -> Seq<char> {
    if i <= 0 {
        Seq::empty()
    } else {
        or_nothing(s[i - 1].digest)
    }
}

/// An epoch carries the digest in front of it.
pub open spec fn prev_right(s: Seq<EpochView>, i: int) -> bool {
    or_nothing(s[i].prev) == expected_prev(s, i)
}

/// An epoch carries its own digest.
pub open spec fn digest_right(s: Seq<EpochView>, i: int) -> bool {
    or_nothing(s[i].digest) == epoch_digest(
        s[i].id,
        or_nothing(s[i].prev),
        or_nothing(s[i].summary),
    )
}

/// An epoch is linked to the one in front of it.
pub open spec fn link_right(s: Seq<EpochView>, i: int) -> bool {
    prev_right(s, i) && digest_right(s, i)
}

/// What looking through a chain came to.
#[derive(Debug)]
pub struct AuditChainVerification {
    pub ok: bool,
    pub chain_length: usize,
    pub broken_at_epoch: Option<u64>,
    pub message: String,
}

/// What looking through a chain holds.
pub struct ChainView {
    pub ok: bool,
    pub length: nat,
    pub broken: Option<u64>,
    pub message: Seq<char>,
}

impl View for AuditChainVerification {
    type V = ChainView;

    open spec fn view(&self) -> ChainView {
        ChainView {
            ok: self.ok,
            length: self.chain_length as nat,
            broken: self.broken_at_epoch,
            message: self.message@,
        }
    }
}

/// What the `Debug` form of a text is.
pub uninterp spec fn debug_text(s: Seq<char>) -> Seq<char>;

/// `format!` with `{:?}` on a text: its form is settled by the text.
#[verifier::external_body]
pub(crate) fn quoted(s: &str) -> (r: String)
    ensures
        r@ == debug_text(s@),
{
    format!("{s:?}")
}

/// What is said of an epoch that is not linked.
pub open spec fn broken_message(s: Seq<EpochView>, i: int) -> Seq<char> {
    "epoch "@ + hex::decimal(s[i].id as nat) + (if prev_right(s, i) {
        ": digest mismatch"@
    } else {
        ": prev mismatch (expected "@ + debug_text(expected_prev(s, i)) + ", got "@ + debug_text(
            or_nothing(s[i].prev),
        ) + ")"@
    })
}

/// What looking through epochs from one on comes to, where those in front are linked.
pub open spec fn verdict_from(s: Seq<EpochView>, i: int) -> ChainView
    decreases s.len() - i,
{
    if i >= s.len() {
        ChainView {
            ok: true,
            length: s.len(),
            broken: None,
            message: "verified "@ + hex::decimal(s.len()) + " epoch(s)"@,
        }
    } else if link_right(s, i) {
        verdict_from(s, i + 1)
    } else {
        ChainView {
            ok: false,
            length: s.len(),
            broken: Some(s[i].id),
            message: broken_message(s, i),
        }
    }
}

/// What looking through epochs comes to.
pub open spec fn chain_verdict(s: Seq<EpochView>) -> ChainView {
    if s.len() == 0 {
        ChainView { ok: true, length: 0, broken: None, message: "no epochs sealed yet"@ }
    } else {
        verdict_from(s, 0)
    }
}

/// A text that may be missing.
fn text_or_nothing(t: &Option<String>) -> (r: String)
    ensures
        r@ == or_nothing(syntax::text_view(*t)),
{
    match t {
        Some(x) => owned(x.as_str()),
        None => {
            let none = String::new();
            assert(none@ =~= Seq::<char>::empty());
            none
        },
    }
}

/// Looks through epochs.
pub fn verify_epochs(epochs: &Vec<AuditEpoch>) -> (r: AuditChainVerification)
    ensures
        r@ == chain_verdict(epoch_views(epochs@)),
{
    let ghost s = epoch_views(epochs@);
    if epochs.len() == 0 {
        return AuditChainVerification {
            ok: true,
            chain_length: 0,
            broken_at_epoch: None,
            message: owned("no epochs sealed yet"),
        };
    }
    let mut expected = String::new();
    assert(expected@ =~= expected_prev(s, 0));
    let mut i: usize = 0;
    while i < epochs.len()
        invariant
            i <= epochs.len(),
            s == epoch_views(epochs@),
            epochs.len() > 0,
            expected@ == expected_prev(s, i as int),
            chain_verdict(s) == verdict_from(s, i as int),
        decreases epochs.len() - i,
    {
        let e = &epochs[i];
        assert(s[i as int] == e@);
        let prev = text_or_nothing(&e.prev);
        let dig = text_or_nothing(&e.digest);
        let summary = text_or_nothing(&e.summary);
        let mut message = owned("epoch ");
        append_text(&mut message, decimal_text(e.id).as_str());
        if !same_text(prev.as_str(), expected.as_str()) {
            append_text(&mut message, ": prev mismatch (expected ");
            append_text(&mut message, quoted(expected.as_str()).as_str());
            append_text(&mut message, ", got ");
            append_text(&mut message, quoted(prev.as_str()).as_str());
            append_text(&mut message, ")");
            assert(message@ =~= broken_message(s, i as int));
            return AuditChainVerification {
                ok: false,
                chain_length: epochs.len(),
                broken_at_epoch: Some(e.id),
                message,
            };
        }
        let again = compute_audit_epoch_digest(e.id, prev.as_str(), summary.as_str());
        if !same_text(again.as_str(), dig.as_str()) {
            append_text(&mut message, ": digest mismatch");
            assert(message@ =~= broken_message(s, i as int));
            return AuditChainVerification {
                ok: false,
                chain_length: epochs.len(),
                broken_at_epoch: Some(e.id),
                message,
            };
        }
        assert(link_right(s, i as int));
        expected = dig;
        i = i + 1;
    }
    let mut message = owned("verified ");
    append_text(&mut message, decimal_text(epochs.len() as u64).as_str());
    append_text(&mut message, " epoch(s)");
    AuditChainVerification { ok: true, chain_length: epochs.len(), broken_at_epoch: None, message }
}

/// Looks through the epochs on record. A chain that is as it was sealed is found in order.
pub fn verify_audit_chain(kv: &MemoryKv) -> (r: AuditChainVerification)
    ensures
        exists|s: Seq<EpochView>| #[trigger]
            epochs_on_record(kv@, s) && r@ == chain_verdict(s),
        forall|c: Seq<EpochView>| #[trigger]
            holds_chain(kv@, c) ==> r.ok && r.chain_length == c.len(),
{
    let epochs = load_epochs(kv);
    let r = verify_epochs(&epochs);
    proof {
        let s = epoch_views(epochs@);
        assert(epochs_on_record(kv@, s));
        assert forall|c: Seq<EpochView>| #[trigger] holds_chain(kv@, c) implies r.ok
            && r.chain_length == c.len() by {
            assert forall|i: int| 0 <= i < c.len() implies #[trigger] link_right(c, i) by {
                assert(holds_epoch(kv@, c[i]));
                assert(prev_right(c, i));
            }
            law_chain_is_linked(c);
            lemma_verdict_length(c, 0);
        }
    }
    r
}

/// A verdict tells how many epochs there are.
proof fn lemma_verdict_length(s: Seq<EpochView>, i: int)
    requires
        0 <= i <= s.len(),
    ensures
        verdict_from(s, i).length == s.len(),
    decreases s.len() - i,
{
    if i < s.len() && link_right(s, i) {
        lemma_verdict_length(s, i + 1);
    }
}

/// A chain is found in order exactly where each epoch is linked to the one in front of it;
/// otherwise the first that is not is named.
pub proof fn law_chain_is_linked(s: Seq<EpochView>)
    ensures
        chain_verdict(s).ok <==> forall|i: int| 0 <= i < s.len() ==> #[trigger] link_right(s, i),
        !chain_verdict(s).ok ==> exists|i: int|
            0 <= i < s.len() && !#[trigger] link_right(s, i) && chain_verdict(s).broken == Some(
                s[i].id,
            ) && forall|j: int| 0 <= j < i ==> #[trigger] link_right(s, j),
{
    if s.len() > 0 {
        lemma_verdict_from(s, 0);
    }
}

/// What is found from one epoch on.
proof fn lemma_verdict_from(s: Seq<EpochView>, i: int)
    requires
        0 <= i <= s.len(),
        forall|j: int| 0 <= j < i ==> #[trigger] link_right(s, j),
    ensures
        verdict_from(s, i).ok <==> forall|j: int| 0 <= j < s.len() ==> #[trigger] link_right(s, j),
        !verdict_from(s, i).ok ==> exists|k: int|
            0 <= k < s.len() && !#[trigger] link_right(s, k) && verdict_from(s, i).broken == Some(
                s[k].id,
            ) && forall|j: int| 0 <= j < k ==> #[trigger] link_right(s, j),
    decreases s.len() - i,
{
    if i < s.len() && link_right(s, i) {
        lemma_verdict_from(s, i + 1);
    }
}

/// A chain goes on with a number and a digest.
pub open spec fn chain_goes_on(c: Seq<EpochView>, id: u64, prev: Seq<char>) -> bool {
    &&& forall|i: int| 0 <= i < c.len() ==> (#[trigger] c[i]).id < id
    &&& prev == expected_prev(c, c.len() as int)
}

/// An epoch sealed behind a chain makes a longer chain.
pub proof fn law_sealing_extends_chain(
    m: Map<Seq<char>, Seq<u8>>,
    c: Seq<EpochView>,
    id: u64,
    prev: Seq<char>,
    summary: Seq<char>,
)
    requires
        holds_chain(m, c),
        chain_goes_on(c, id, prev),
    ensures
        holds_chain(
            epoch_sealed(m, id, prev, summary),
            c.push(sealed_epoch(id, prev, summary)),
        ),
{
    let e = sealed_epoch(id, prev, summary);
    let d = c.push(e);
    let n = epoch_sealed(m, id, prev, summary);
    assert forall|i: int| 0 <= i < d.len() implies holds_epoch(n, #[trigger] d[i]) by {
        if i < c.len() {
            assert(d[i] == c[i]);
            assert(holds_epoch(m, c[i]));
            if epoch_key(c[i].id) == epoch_key(id) {
                lemma_epoch_keys(c[i].id, id);
            }
        }
    }
    assert forall|i: int| 0 <= i < d.len() implies #[trigger] prev_right(d, i) by {
        if i < c.len() {
            assert(prev_right(c, i));
        }
    }
    assert forall|k: Seq<char>| #[trigger]
        n.contains_key(k) && text::begins_with(k, "audit:epoch:"@) implies exists|i: int|
        0 <= i < d.len() && k == epoch_key((#[trigger] d[i]).id) by {
        if k == epoch_key(id) {
            assert(d[c.len() as int] == e);
        } else {
            assert(m.contains_key(k));
            let i = choose|i: int| 0 <= i < c.len() && k == epoch_key((#[trigger] c[i]).id);
            assert(d[i] == c[i]);
        }
    }
}

/// How long entries may wait before an epoch is sealed, in milliseconds.
pub const DEFAULT_AUDIT_EPOCH_INTERVAL_MS: u64 = 300_000;

/// How many entries an epoch is sealed for at once.
pub const DEFAULT_AUDIT_EPOCH_MIN_RECORDS: u64 = 1;

/// Seals epochs as entries come in.
#[derive(Debug)]
pub struct ProductionAuditSink {
    queue: DurableAuditQueue,
    epoch_interval_ms: u64,
    epoch_min_records: u64,
    last_epoch_hash: String,
    next_epoch_id: u64,
    record_count_since_epoch: u64,
    last_seal: std::time::Instant,
}

/// What a sink holds.
pub struct SinkView {
    pub path: Seq<char>,
    pub interval_ms: u64,
    pub min_records: u64,
    pub last_hash: Seq<char>,
    pub next_id: u64,
    pub count: u64,
}

impl View for ProductionAuditSink {
    type V = SinkView;

    closed spec fn view(&self) -> SinkView {
        SinkView {
            path: self.queue@,
            interval_ms: self.epoch_interval_ms,
            min_records: self.epoch_min_records,
            last_hash: self.last_epoch_hash@,
            next_id: self.next_epoch_id,
            count: self.record_count_since_epoch,
        }
    }
}

/// The next number; behind the last one numbers start over.
pub open spec fn next_number(n: u64) -> u64 {
    if n == u64::MAX {
        0
    } else {
        (n + 1) as u64
    }
}

/// The sink once it has sealed an epoch.
pub open spec fn sink_sealed(s: SinkView, summary: Seq<char>) -> SinkView {
    SinkView {
        last_hash: epoch_digest(s.next_id, s.last_hash, summary),
        next_id: next_number(s.next_id),
        count: 0,
        ..s
    }
}

/// It is time to seal: enough entries came in, or enough time went by since the last seal.
pub open spec fn seal_due(s: SinkView, elapsed_ms: u64) -> bool {
    s.count >= s.min_records || elapsed_ms >= s.interval_ms
}

/// The summary of an epoch.
pub open spec fn count_summary(count: u64) -> Seq<char> {
    "sealed "@ + hex::decimal(count as nat) + " audit records"@
}

/// The epoch with the highest number among those that carry a digest, the last of several.
pub open spec fn last_digest(s: Seq<EpochView>) -> Option<(u64, Seq<char>)>
    decreases s.len(),
{
    if s.len() == 0 {
        None
    } else {
        match s.last().digest {
            Some(d) => Some((s.last().id, d)),
            None => last_digest(s.drop_last()),
        }
    }
}

/// The sink once it has caught up with the epochs on record.
pub open spec fn sink_resumed(v: SinkView, s: Seq<EpochView>) -> SinkView {
    match last_digest(s) {
        Some((id, d)) => SinkView {
            last_hash: d,
            next_id: if id == u64::MAX {
                u64::MAX
            } else {
                (id + 1) as u64
            },
            ..v
        },
        None => v,
    }
}

impl ProductionAuditSink {
    /// A sink that writes entries down in a file and has sealed nothing.
    pub fn with_options(path: &str, epoch_interval_ms: u64, epoch_min_records: u64) -> (r: Self)
        ensures
            r@.path == path@,
            r@.interval_ms == epoch_interval_ms,
            r@.min_records == epoch_min_records,
            r@.last_hash == Seq::<char>::empty(),
            r@.next_id == 1,
            r@.count == 0,
    {
        let none = String::new();
        assert(none@ =~= Seq::<char>::empty());
        ProductionAuditSink {
            queue: DurableAuditQueue::new(path),
            epoch_interval_ms,
            epoch_min_records,
            last_epoch_hash: none,
            next_epoch_id: 1,
            record_count_since_epoch: 0,
            last_seal: this_moment(),
        }
    }

    /// A sink with the usual options.
    pub fn new(path: &str) -> (r: Self)
        ensures
            r@.path == path@,
            r@.interval_ms == DEFAULT_AUDIT_EPOCH_INTERVAL_MS,
            r@.min_records == DEFAULT_AUDIT_EPOCH_MIN_RECORDS,
            r@.last_hash == Seq::<char>::empty(),
            r@.next_id == 1,
            r@.count == 0,
    {
        Self::with_options(path, DEFAULT_AUDIT_EPOCH_INTERVAL_MS, DEFAULT_AUDIT_EPOCH_MIN_RECORDS)
    }

    /// The file that entries are written down in.
    pub fn path(&self) -> (r: &str)
        ensures
            r@ == self@.path,
    {
        self.queue.path()
    }

    /// Takes note that an entry was written down.
    pub fn record_written(&mut self)
        ensures
            final(self)@ == (SinkView { count: next_number(old(self)@.count), ..old(self)@ }),
    {
        self.record_count_since_epoch = if self.record_count_since_epoch == u64::MAX {
            0
        } else {
            self.record_count_since_epoch + 1
        };
    }

    /// How many entries were written down since the last epoch was sealed.
    pub fn record_count_since_epoch(&self) -> (r: u64)
        ensures
            r == self@.count,
    {
        self.record_count_since_epoch
    }

    /// Seals an epoch.
    pub fn force_seal_epoch(&mut self, kv: &mut MemoryKv, summary: &str) -> (r: String)
        ensures
            final(kv)@ == epoch_sealed(
                old(kv)@,
                old(self)@.next_id,
                old(self)@.last_hash,
                summary@,
            ),
            r@ == epoch_digest(old(self)@.next_id, old(self)@.last_hash, summary@),
            final(self)@ == sink_sealed(old(self)@, summary@),
    {
        let id = self.next_epoch_id;
        self.next_epoch_id = if id == u64::MAX {
            0
        } else {
            id + 1
        };
        let d = append_audit_epoch(kv, id, self.last_epoch_hash.as_str(), summary);
        self.last_epoch_hash = owned(d.as_str());
        self.record_count_since_epoch = 0;
        self.last_seal = this_moment();
        d
    }

    /// Seals an epoch, if it is due so long after the last seal.
    pub fn maybe_seal_epoch_after(&mut self, kv: &mut MemoryKv, elapsed_ms: u64) -> (r: Option<
        String,
    >)
        ensures
            r is Some <==> seal_due(old(self)@, elapsed_ms),
            r is None ==> final(kv)@ == old(kv)@ && final(self)@ == old(self)@,
            r matches Some(d) ==> {
                let summary = count_summary(old(self)@.count);
                &&& final(kv)@ == epoch_sealed(
                    old(kv)@,
                    old(self)@.next_id,
                    old(self)@.last_hash,
                    summary,
                )
                &&& d@ == epoch_digest(old(self)@.next_id, old(self)@.last_hash, summary)
                &&& final(self)@ == sink_sealed(old(self)@, summary)
            },
    {
        let count = self.record_count_since_epoch;
        if count < self.epoch_min_records && elapsed_ms < self.epoch_interval_ms {
            return None;
        }
        let mut summary = owned("sealed ");
        append_text(&mut summary, decimal_text(count).as_str());
        append_text(&mut summary, " audit records");
        Some(self.force_seal_epoch(kv, summary.as_str()))
    }

    /// Seals an epoch, if it is due by the time that went by since the last seal.
    pub fn maybe_seal_epoch(&mut self, kv: &mut MemoryKv) -> (r: Option<String>)
        ensures
            exists|elapsed_ms: u64| r is Some <==> #[trigger] seal_due(old(self)@, elapsed_ms),
            old(self)@.count >= old(self)@.min_records || old(self)@.interval_ms == 0 ==> r is Some,
            r is None ==> final(kv)@ == old(kv)@ && final(self)@ == old(self)@,
            r matches Some(d) ==> {
                let summary = count_summary(old(self)@.count);
                &&& final(kv)@ == epoch_sealed(
                    old(kv)@,
                    old(self)@.next_id,
                    old(self)@.last_hash,
                    summary,
                )
                &&& d@ == epoch_digest(old(self)@.next_id, old(self)@.last_hash, summary)
                &&& final(self)@ == sink_sealed(old(self)@, summary)
            },
    {
        let elapsed_ms = millis_since(&self.last_seal);
        assert(seal_due(self@, elapsed_ms) == seal_due(self@, elapsed_ms));
        self.maybe_seal_epoch_after(kv, elapsed_ms)
    }

    /// Catches up with epochs on record.
    pub fn resume_from_epochs(&mut self, epochs: &Vec<AuditEpoch>)
        ensures
            final(self)@ == sink_resumed(old(self)@, epoch_views(epochs@)),
    {
        let ghost s = epoch_views(epochs@);
        let ghost v = self@;
        let mut i: usize = epochs.len();
        assert(s.take(i as int) =~= s);
        while i > 0
            invariant
                i <= epochs.len(),
                s == epoch_views(epochs@),
                self@ == v,
                v == old(self)@,
                last_digest(s) == last_digest(s.take(i as int)),
            decreases i,
        {
            let e = &epochs[i - 1];
            assert(s.take(i as int).last() == e@);
            assert(s.take(i as int).drop_last() =~= s.take(i - 1));
            if let Some(d) = &e.digest {
                self.next_epoch_id = if e.id == u64::MAX {
                    u64::MAX
                } else {
                    e.id + 1
                };
                self.last_epoch_hash = owned(d.as_str());
                return ;
            }
            i = i - 1;
        }
    }

    /// Catches up with the epochs of a store.
    pub fn resume_from_kv(&mut self, kv: &MemoryKv)
        ensures
            exists|s: Seq<EpochView>| #[trigger]
                epochs_on_record(kv@, s) && final(self)@ == sink_resumed(old(self)@, s),
            forall|c: Seq<EpochView>| #[trigger]
                holds_chain(kv@, c) ==> final(self)@ == sink_resumed(old(self)@, c),
    {
        let epochs = load_epochs(kv);
        self.resume_from_epochs(&epochs);
    }
}

/// A sink that has caught up with a chain goes on with it, as long as numbers last, and so does
/// one that has just sealed an epoch.
pub proof fn law_sink_goes_on(v: SinkView, c: Seq<EpochView>, m: Map<Seq<char>, Seq<u8>>)
    requires
        holds_chain(m, c),
        c.len() > 0 ==> c.last().id < u64::MAX,
    ensures
        c.len() > 0 ==> chain_goes_on(
            c,
            sink_resumed(v, c).next_id,
            sink_resumed(v, c).last_hash,
        ),
        forall|summary: Seq<char>|
            chain_goes_on(c, v.next_id, v.last_hash) && v.next_id < u64::MAX ==> chain_goes_on(
                c.push(sealed_epoch(v.next_id, v.last_hash, summary)),
                (#[trigger] sink_sealed(v, summary)).next_id,
                sink_sealed(v, summary).last_hash,
            ),
{
    if c.len() > 0 {
        assert(holds_epoch(m, c[c.len() - 1]));
        assert(last_digest(c) == Some((c.last().id, c.last().digest->0)));
        assert forall|i: int| 0 <= i < c.len() implies (#[trigger] c[i]).id < sink_resumed(
            v,
            c,
        ).next_id by {
            if i < c.len() - 1 {
                assert(c[i].id < c[c.len() - 1].id);
            }
        }
    }
}

} // verus!
