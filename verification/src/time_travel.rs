//! Bindings as they were at a point of the log.

use crate::bindings;
use crate::bytes;
use crate::bytes::{le_u64, u64_le};
use crate::codec;
use crate::hex;
use crate::hex::{chars_all_hex, nibble_of, padded_decimal, parse_decimal_u64};
use crate::ids::{BranchId, IdentityId, NodeRevisionId};
use crate::keys;
use crate::keys::{strip_prefix, tagged_key, tagged_rest_key};
use crate::kv;
use crate::kv::MemoryKv;
use crate::revision_cow;
use crate::revision_cow::{Layer, RevisionIndexCow};
use crate::text;
use crate::text::{append_text, chars_of, owned, text_trim};
use vstd::prelude::*;

verus! {

/// `tt:log:{branch}:{log}`, the log id in twenty digits.
pub open spec fn log_anchor_key(branch: BranchId, log_id: u64) -> Seq<char> {
    keys::tagged_rest("tt:log:"@, branch.0@, hex::zero_padded(hex::decimal(log_id as nat), 20))
}

/// Builds `tt:log:{branch}:{log}`.
pub fn wal_log_anchor_key(branch: BranchId, log_id: u64) -> (r: String)
    ensures
        r@ == log_anchor_key(branch, log_id),
{
    tagged_rest_key("tt:log:", &branch.0, padded_decimal(log_id, 20).as_str())
}

/// `tt:seq:{branch}`.
pub open spec fn epoch_key(branch: BranchId) -> Seq<char> {
    keys::tagged("tt:seq:"@, branch.0@)
}

/// Eight bytes as a number.
pub open spec fn number_of(v: Seq<u8>) -> Option<u64> {
    if v.len() == 8 {
        Some(bytes::le_value(v) as u64)
    } else {
        None
    }
}

/// The number under a key.
pub open spec fn number_at(m: Map<Seq<char>, Seq<u8>>, k: Seq<char>) -> Option<u64> {
    match kv::value_at(m, k) {
        Some(v) => number_of(v),
        None => None,
    }
}

/// Reads the number under a key.
fn read_number(kv: &MemoryKv, key: &str) -> (r: Option<u64>)
    ensures
        r == number_at(kv@, key@),
{
    match kv.get(key) {
        Some(v) => {
            if v.len() != 8 {
                return None;
            }
            Some(le_u64(&v))
        },
        None => None,
    }
}

/// The epoch that follows the one on record; the last one stays the last.
pub open spec fn epoch_after(m: Map<Seq<char>, Seq<u8>>, branch: BranchId) -> u64 {
    match number_at(m, epoch_key(branch)) {
        Some(n) => if n < u64::MAX {
            (n + 1) as u64
        } else {
            n
        },
        None => 1,
    }
}

/// Begins the next epoch of a branch.
pub fn next_ris_epoch(kv: &mut MemoryKv, branch: BranchId) -> (r: u64)
    ensures
        r == epoch_after(old(kv)@, branch),
        final(kv)@ == old(kv)@.insert(epoch_key(branch), bytes::le(r as nat, 8)),
        number_at(final(kv)@, epoch_key(branch)) == Some(r),
        r >= 1,
{
    let key = tagged_key("tt:seq:", &branch.0);
    let next = match read_number(kv, key.as_str()) {
        Some(n) => {
            if n < u64::MAX {
                n + 1
            } else {
                n
            }
        },
        None => 1,
    };
    kv.set(key.as_str(), u64_le(next));
    next
}

/// A point of the log is anchored: the bindings of all layers are kept under the next epoch, and
/// the log id leads to that epoch.
pub open spec fn anchored(
    m: Map<Seq<char>, Seq<u8>>,
    layers: Seq<Layer>,
    branch: BranchId,
    log_id: u64,
    after: Map<Seq<char>, Seq<u8>>,
) -> bool {
    let epoch = epoch_after(m, branch);
    exists|pairs: Seq<(IdentityId, NodeRevisionId)>| #[trigger]
        bindings::pairs_of(revision_cow::folded(layers), pairs) && after == m.insert(
            epoch_key(branch),
            bytes::le(epoch as nat, 8),
        ).insert(revision_cow::snapshot_epoch_key(layers[0].branch, epoch), codec::pairs_json(revision_cow::raw_pairs(pairs))).insert(
            log_anchor_key(branch, log_id),
            bytes::le(epoch as nat, 8),
        )
}

/// Anchors a point of the log.
pub fn record_committed_snapshot(
    ri: &RevisionIndexCow,
    kv: &mut MemoryKv,
    branch: BranchId,
    log_id: u64,
)
    ensures
        anchored(old(kv)@, ri.layers(), branch, log_id, final(kv)@),
        number_at(final(kv)@, log_anchor_key(branch, log_id)) == Some(
            epoch_after(old(kv)@, branch),
        ),
{
    let epoch = next_ris_epoch(kv, branch);
    ri.persist_ris_snapshot(kv, epoch);
    kv.set(wal_log_anchor_key(branch, log_id).as_str(), u64_le(epoch));
}

/// Anchors a point of the log where snapshots are kept in the store alone.
pub fn record_committed_snapshot_legacy(
    ri: &RevisionIndexCow,
    kv: &mut MemoryKv,
    branch: BranchId,
    log_id: u64,
)
    ensures
        anchored(old(kv)@, ri.layers(), branch, log_id, final(kv)@),
        number_at(final(kv)@, log_anchor_key(branch, log_id)) == Some(
            epoch_after(old(kv)@, branch),
        ),
{
    record_committed_snapshot(ri, kv, branch, log_id);
}

/// The epoch that a point of the log leads to.
pub fn resolve_epoch_for_wal_log(kv: &MemoryKv, branch: BranchId, log_id: u64) -> (r: Option<u64>)
    ensures
        r == number_at(kv@, log_anchor_key(branch, log_id)),
{
    read_number(kv, wal_log_anchor_key(branch, log_id).as_str())
}

/// The bindings as they were at a point of the log.
pub fn overlay_at_wal_log(kv: &MemoryKv, branch: BranchId, log_id: u64) -> (r: Option<
    RevisionIndexCow,
>)
    ensures
        match number_at(kv@, log_anchor_key(branch, log_id)) {
            None => r is None,
            Some(epoch) => {
                &&& r is Some <==> (kv::value_at(kv@, revision_cow::snapshot_epoch_key(branch, epoch)) matches Some(v)
                    && codec::pairs_of_json(v) is Some)
                &&& r matches Some(c) ==> c.layers() == seq![
                    Layer {
                        branch,
                        local: revision_cow::bindings_of_raw(
                            codec::pairs_of_json(kv@[revision_cow::snapshot_epoch_key(branch, epoch)])->0,
                        ),
                    },
                ]
                &&& forall|b: Map<IdentityId, NodeRevisionId>, p: Seq<
                    (IdentityId, NodeRevisionId),
                >|
                    #![trigger bindings::pairs_of(b, p), codec::pairs_json(revision_cow::raw_pairs(p))]
                    bindings::pairs_of(b, p) && kv::value_at(kv@, revision_cow::snapshot_epoch_key(branch, epoch)) == Some(
                        codec::pairs_json(revision_cow::raw_pairs(p)),
                    ) ==> r is Some && r->0.layers() == seq![Layer { branch, local: b }]
            },
        },
        forall|m: Map<Seq<char>, Seq<u8>>, layers: Seq<Layer>| #[trigger]
            anchored(m, layers, branch, log_id, kv@) && layers.len() > 0 && layers[0].branch
                == branch ==> r is Some && r->0.layers() == seq![
                Layer { branch, local: revision_cow::folded(layers) },
            ],
{
    proof {
        assert forall|m: Map<Seq<char>, Seq<u8>>, layers: Seq<Layer>| #[trigger]
            anchored(m, layers, branch, log_id, kv@) && layers.len() > 0 && layers[0].branch
                == branch implies exists|p: Seq<(IdentityId, NodeRevisionId)>|
            #![trigger codec::pairs_json(revision_cow::raw_pairs(p))]
            bindings::pairs_of(revision_cow::folded(layers), p) && number_at(kv@, log_anchor_key(branch, log_id)) == Some(
                epoch_after(m, branch),
            ) && kv::value_at(kv@, revision_cow::snapshot_epoch_key(branch, epoch_after(m, branch))) == Some(
                codec::pairs_json(revision_cow::raw_pairs(p)),
            ) by {
            let epoch = epoch_after(m, branch);
            let p = choose|pairs: Seq<(IdentityId, NodeRevisionId)>| #[trigger]
                bindings::pairs_of(revision_cow::folded(layers), pairs) && kv@ == m.insert(
                    epoch_key(branch),
                    bytes::le(epoch as nat, 8),
                ).insert(
                    revision_cow::snapshot_epoch_key(layers[0].branch, epoch),
                    codec::pairs_json(revision_cow::raw_pairs(pairs)),
                ).insert(log_anchor_key(branch, log_id), bytes::le(epoch as nat, 8));
            lemma_anchor_keys_apart(branch, log_id, epoch);
            bytes::lemma_le_spans();
            bytes::lemma_le_reads_back(epoch as nat, 8);
            assert(bindings::pairs_of(revision_cow::folded(layers), p));
            assert(codec::pairs_json(revision_cow::raw_pairs(p)) == codec::pairs_json(revision_cow::raw_pairs(p)));
        }
    }
    match resolve_epoch_for_wal_log(kv, branch, log_id) {
        Some(epoch) => RevisionIndexCow::from_ris_snapshot(branch, kv, epoch),
        None => None,
    }
}

/// An anchor's key is not a snapshot's key.
proof fn lemma_anchor_keys_apart(branch: BranchId, log_id: u64, epoch: u64)
    ensures
        log_anchor_key(branch, log_id) != revision_cow::snapshot_epoch_key(branch, epoch),
{
    reveal_strlit("tt:log:");
    reveal_strlit("ris:");
    let a = log_anchor_key(branch, log_id);
    let b = revision_cow::snapshot_epoch_key(branch, epoch);
    assert(a[0] == 't');
    assert(b[0] == 'r');
}

/// What `str::to_lowercase` makes of a text.
pub uninterp spec fn lowercase_of(s: Seq<char>) -> Seq<char>;

/// A letter of the Latin alphabet in lower case.
pub open spec fn lowered(c: char) -> char {
    if 'A' <= c <= 'Z' {
        ((c as u32) + 32) as char
    } else {
        c
    }
}

/// `str::to_lowercase`: the result is settled by the text, and where that is plain ASCII only the
/// letters from `A` to `Z` change, each to its small form.
#[verifier::external_body]
pub(crate) fn to_lower(s: &str) -> (r: String)
    ensures
        r@ == lowercase_of(s@),
        (forall|i: int| 0 <= i < s@.len() ==> (#[trigger] s@[i]) as u32 <= 127) ==> r@
            == s@.map_values(|c: char| lowered(c)),
{
    s.to_lowercase()
}

/// Forty hexadecimal digits.
pub open spec fn is_commit(s: Seq<char>) -> bool {
    s.len() == 40 && hex::all_hex_digits(s)
}

/// A text names a commit, whatever white space is around it.
pub open spec fn names_commit(s: Seq<char>) -> bool {
    is_commit(text::trimmed(s))
}

/// A text with the letters from `A` to `Z` in their small form.
pub open spec fn all_lowered(s: Seq<char>) -> Seq<char> {
    s.map_values(|c: char| lowered(c))
}

/// `tt:git:{commit}`, for a commit in the letters that are looked up.
pub open spec fn commit_key(s: Seq<char>) -> Seq<char> {
    "tt:git:"@ + all_lowered(text::trimmed(s))
}

/// Two texts are spellings of one name: they differ in letter case and white space around them only.
pub open spec fn spelled_alike(a: Seq<char>, b: Seq<char>) -> bool {
    all_lowered(text::trimmed(a)) == all_lowered(text::trimmed(b))
}

/// Builds `tt:git:{commit}`: the text without white space around it, in lower case.
pub fn git_oid_anchor_key(git_oid: &str) -> (r: String)
    ensures
        r@ == "tt:git:"@ + lowercase_of(text::trimmed(git_oid@)),
        names_commit(git_oid@) ==> r@ == commit_key(git_oid@),
{
    let mut out = owned("tt:git:");
    let t = text_trim(git_oid);
    let low = to_lower(t.as_str());
    append_text(&mut out, low.as_str());
    proof {
        if names_commit(git_oid@) {
            assert forall|i: int| 0 <= i < t@.len() implies (#[trigger] t@[i]) as u32 <= 127 by {
                assert(hex::digit_value(t@[i]) is Some);
            }
            assert(low@ =~= all_lowered(t@));
        }
    }
    out
}

/// Whether a text names a commit.
fn is_commit_text(s: &str) -> (r: bool)
    ensures
        r == names_commit(s@),
{
    let t = chars_of(text_trim(s).as_str());
    t.len() == 40 && chars_all_hex(&t)
}

/// Leads a commit to a point of the log.
pub fn record_git_oid_wal_log(kv: &mut MemoryKv, git_oid_hex: &str, wal_log_id: u64) -> (r: Result<
    (),
    &'static str,
>)
    ensures
        r is Ok <==> names_commit(git_oid_hex@),
        r matches Err(e) ==> e@ == "git_oid must be 40 lowercase hex characters"@,
        final(kv)@ == (if r is Ok {
            old(kv)@.insert(commit_key(git_oid_hex@), bytes::le(wal_log_id as nat, 8))
        } else {
            old(kv)@
        }),
        r is Ok ==> forall|v: Seq<char>| #[trigger]
            spelled_alike(v, git_oid_hex@) ==> log_of_commit(final(kv)@, v) == Some(wal_log_id),
{
    if !is_commit_text(git_oid_hex) {
        return Err("git_oid must be 40 lowercase hex characters");
    }
    let ghost m = kv@;
    kv.set(git_oid_anchor_key(git_oid_hex).as_str(), u64_le(wal_log_id));
    proof {
        assert forall|v: Seq<char>| #[trigger] spelled_alike(v, git_oid_hex@) implies log_of_commit(
            kv@,
            v,
        ) == Some(wal_log_id) by {
            law_recorded_commit(m, git_oid_hex@, wal_log_id, v);
        }
    }
    Ok(())
}

/// The point of the log that a commit leads to.
pub open spec fn log_of_commit(m: Map<Seq<char>, Seq<u8>>, s: Seq<char>) -> Option<u64> {
    if names_commit(s) {
        number_at(m, commit_key(s))
    } else {
        None
    }
}

/// Reads the point of the log that a commit leads to.
pub fn resolve_wal_log_from_git_oid(kv: &MemoryKv, git_oid_hex: &str) -> (r: Option<u64>)
    ensures
        r == log_of_commit(kv@, git_oid_hex@),
{
    if !is_commit_text(git_oid_hex) {
        return None;
    }
    read_number(kv, git_oid_anchor_key(git_oid_hex).as_str())
}

/// A letter in its small form is a hexadecimal digit where the letter is one.
proof fn lemma_lowered_digit(c: char)
    ensures
        hex::digit_value(lowered(c)) == hex::digit_value(c),
{
}

/// Spellings of one name name a commit both or neither.
proof fn lemma_spellings_name(a: Seq<char>, b: Seq<char>)
    requires
        spelled_alike(a, b),
        names_commit(b),
    ensures
        names_commit(a),
{
    let x = text::trimmed(a);
    let y = text::trimmed(b);
    assert(all_lowered(x).len() == x.len() && all_lowered(y).len() == y.len());
    assert forall|i: int| 0 <= i < x.len() implies hex::digit_value(#[trigger] x[i]) is Some by {
        assert(all_lowered(x)[i] == all_lowered(y)[i]);
        lemma_lowered_digit(x[i]);
        lemma_lowered_digit(y[i]);
        assert(hex::digit_value(y[i]) is Some);
    }
}

/// However a commit is spelled, it leads to one place: two spellings are refused both or neither, and
/// lead to one point of the log.
pub proof fn law_spellings_of_a_commit(m: Map<Seq<char>, Seq<u8>>, a: Seq<char>, b: Seq<char>)
    requires
        spelled_alike(a, b),
    ensures
        names_commit(a) == names_commit(b),
        commit_key(a) == commit_key(b),
        log_of_commit(m, a) == log_of_commit(m, b),
{
    if names_commit(a) {
        lemma_spellings_name(b, a);
    }
    if names_commit(b) {
        lemma_spellings_name(a, b);
    }
}

/// A commit that was led to a point of the log leads there in every spelling, whatever it led to
/// before; other commits lead to where they did.
pub proof fn law_recorded_commit(
    m: Map<Seq<char>, Seq<u8>>,
    s: Seq<char>,
    wal_log_id: u64,
    v: Seq<char>,
)
    requires
        names_commit(s),
    ensures
        ({
            let after = m.insert(commit_key(s), bytes::le(wal_log_id as nat, 8));
            log_of_commit(after, v) == (if spelled_alike(v, s) {
                Some(wal_log_id)
            } else {
                log_of_commit(m, v)
            })
        }),
{
    bytes::lemma_le_spans();
    bytes::lemma_le_reads_back(wal_log_id as nat, 8);
    if spelled_alike(v, s) {
        lemma_spellings_name(v, s);
    } else {
        let p = "tt:git:"@;
        let x = all_lowered(text::trimmed(v));
        let y = all_lowered(text::trimmed(s));
        if commit_key(v) == commit_key(s) {
            assert((p + x).skip(p.len() as int) =~= x);
            assert((p + y).skip(p.len() as int) =~= y);
        }
    }
}

/// The text without a leading `0x`.
pub open spec fn without_0x(s: Seq<char>) -> Seq<char> {
    if text::begins_with(s, "0x"@) || text::begins_with(s, "0X"@) {
        s.skip(2)
    } else {
        s
    }
}

/// Takes a leading `0x` away.
fn strip_0x(s: &str) -> (r: String)
    ensures
        r@ == without_0x(s@),
{
    proof {
        reveal_strlit("0x");
        reveal_strlit("0X");
    }
    match strip_prefix(s, "0x") {
        Some(t) => t,
        None => match strip_prefix(s, "0X") {
            Some(t) => t,
            None => owned(s),
        },
    }
}

/// The number that hexadecimal digits stand for.
pub open spec fn hex_number(s: Seq<char>) -> nat
    decreases s.len(),
{
    if s.len() == 0 {
        0
    } else {
        16 * hex_number(s.drop_last()) + (match hex::digit_value(s.last()) {
            Some(d) => d as nat,
            None => 0,
        })
    }
}

/// What a text says as a log id: hexadecimal digits, or else a decimal number.
pub open spec fn log_anchor(s: Seq<char>) -> Result<u64, Seq<char>> {
    let t = text::trimmed(s);
    let d = without_0x(t);
    if t.len() == 0 {
        Err("empty commit_hash"@)
    } else if d.len() > 0 && hex::all_hex_digits(d) {
        if hex_number(d) <= u64::MAX {
            Ok(hex_number(d) as u64)
        } else {
            Err("commit_hash hex overflow"@)
        }
    } else {
        match hex::decimal_u64(d) {
            Some(n) => Ok(n),
            None => Err("commit_hash must be wal log id (hex or decimal)"@),
        }
    }
}

/// A result with its message as text.
pub open spec fn result_view(r: Result<u64, &'static str>) -> Result<u64, Seq<char>> {
    match r {
        Ok(n) => Ok(n),
        Err(e) => Err(e@),
    }
}

/// The number grows with every digit.
proof fn lemma_hex_number_grows(s: Seq<char>, k: int)
    requires
        0 <= k <= s.len(),
    ensures
        hex_number(s.take(k)) <= hex_number(s),
    decreases s.len() - k,
{
    if k < s.len() {
        lemma_hex_number_grows(s, k + 1);
        let t = s.take(k + 1);
        assert(t.drop_last() =~= s.take(k));
    } else {
        assert(s.take(k) =~= s);
    }
}

/// Reads hexadecimal digits as a number.
fn read_hex_number(cs: &Vec<char>) -> (r: Option<u64>)
    requires
        hex::all_hex_digits(cs@),
    ensures
        r == (if hex_number(cs@) <= u64::MAX {
            Some(hex_number(cs@) as u64)
        } else {
            None
        }),
{
    let mut n: u64 = 0;
    let mut i: usize = 0;
    assert(cs@.take(0) =~= Seq::<char>::empty());
    while i < cs.len()
        invariant
            i <= cs.len(),
            hex::all_hex_digits(cs@),
            n == hex_number(cs@.take(i as int)),
        decreases cs.len() - i,
    {
        let c = cs[i];
        proof {
            assert(cs@.take(i + 1).drop_last() =~= cs@.take(i as int));
            assert(cs@.take(i + 1).last() == c);
            lemma_hex_number_grows(cs@, i + 1);
        }
        let d: u64 = match nibble_of(c) {
            Some(x) => x as u64,
            None => 0,
        };
        if n > 0x0fff_ffff_ffff_ffff {
            return None;
        }
        n = n * 16 + d;
        i = i + 1;
    }
    assert(cs@.take(cs@.len() as int) =~= cs@);
    Some(n)
}

/// Reads a text as a log id.
pub fn parse_wal_log_anchor(s: &str) -> (r: Result<u64, &'static str>)
    ensures
        result_view(r) == log_anchor(s@),
{
    let t = text_trim(s);
    let tc = chars_of(t.as_str());
    if tc.len() == 0 {
        return Err("empty commit_hash");
    }
    let d = chars_of(strip_0x(t.as_str()).as_str());
    if d.len() > 0 && chars_all_hex(&d) {
        match read_hex_number(&d) {
            Some(n) => Ok(n),
            None => Err("commit_hash hex overflow"),
        }
    } else {
        match parse_decimal_u64(&d) {
            Some(n) => Ok(n),
            None => Err("commit_hash must be wal log id (hex or decimal)"),
        }
    }
}

/// What a commit's name or a log id leads to.
pub open spec fn commit_anchor(m: Map<Seq<char>, Seq<u8>>, s: Seq<char>) -> Result<u64, Seq<char>> {
    let t = text::trimmed(s);
    let d = without_0x(t);
    if t.len() == 0 {
        Err("empty commit_hash"@)
    } else if is_commit(d) {
        match log_of_commit(m, d) {
            Some(n) => Ok(n),
            None => Err("git commit_oid not indexed (record_git_oid_wal_log)"@),
        }
    } else {
        log_anchor(t)
    }
}

/// Reads what a commit's name or a log id leads to.
pub fn resolve_commit_anchor_to_wal_log(kv: &MemoryKv, commit_hash: &str) -> (r: Result<
    u64,
    &'static str,
>)
    ensures
        result_view(r) == commit_anchor(kv@, commit_hash@),
{
    let t = text_trim(commit_hash);
    let tc = chars_of(t.as_str());
    if tc.len() == 0 {
        return Err("empty commit_hash");
    }
    let stripped = strip_0x(t.as_str());
    let d = chars_of(stripped.as_str());
    if d.len() == 40 && chars_all_hex(&d) {
        return match resolve_wal_log_from_git_oid(kv, stripped.as_str()) {
            Some(n) => Ok(n),
            None => Err("git commit_oid not indexed (record_git_oid_wal_log)"),
        };
    }
    parse_wal_log_anchor(t.as_str())
}

/// The bindings as they were at a point of the log, with the snapshot read from the store or else
/// from the bytes that were kept elsewhere for its epoch.
pub fn overlay_at_wal_log_at(
    kv: &MemoryKv,
    branch: BranchId,
    log_id: u64,
    elsewhere: Option<Vec<u8>>,
) -> (r: Option<RevisionIndexCow>)
    ensures
        match number_at(kv@, log_anchor_key(branch, log_id)) {
            None => r is None,
            Some(epoch) => {
                let bytes = revision_cow::snapshot_bytes(
                    kv@,
                    branch,
                    epoch,
                    match elsewhere {
                        Some(v) => Some(v@),
                        None => None,
                    },
                );
                &&& r is Some <==> bytes is Some && codec::pairs_of_json(bytes->0) is Some
                &&& r matches Some(c) ==> c.layers() == seq![
                    Layer {
                        branch,
                        local: revision_cow::bindings_of_raw(codec::pairs_of_json(bytes->0)->0),
                    },
                ]
            },
        },
{
    match resolve_epoch_for_wal_log(kv, branch, log_id) {
        Some(epoch) => RevisionIndexCow::from_ris_snapshot_at(branch, kv, epoch, elsewhere),
        None => None,
    }
}

} // verus!
