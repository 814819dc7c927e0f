//! Moving bodies and snapshots of bindings into databases.

use crate::hex;
use crate::hex::{array16, array32, byte_of_pair, parse_decimal_u64, parse_hex_bytes};
use crate::ids;
use crate::ids::BranchId;
use crate::keys;
use crate::kv;
use crate::kv::MemoryKv;
use crate::metadata_store;
use crate::persistence;
use crate::persistence::RisRow;
use crate::revision_cow;
use crate::sorting;
use crate::sorting::sort_texts;
use crate::text;
use crate::text::{chars_of, chars_split, cut, owned, text_begins_with};
use vstd::prelude::*;

verus! {

/// What became of the bodies that were moved.
#[derive(Debug, Clone, Copy, PartialEq, Eq, Structural)]
pub struct MigrateBodiesReport {
    pub files_scanned: usize,
    pub inserted: usize,
    pub skipped_existing: usize,
    pub verified: usize,
    pub files_deleted: usize,
}

impl Default for MigrateBodiesReport {
    fn default() -> (r: Self)
        ensures
            r == (MigrateBodiesReport {
                files_scanned: 0,
                inserted: 0,
                skipped_existing: 0,
                verified: 0,
                files_deleted: 0,
            }),
    {
        MigrateBodiesReport {
            files_scanned: 0,
            inserted: 0,
            skipped_existing: 0,
            verified: 0,
            files_deleted: 0,
        }
    }
}

/// The byte that two bytes stand for as hexadecimal digits; zero where they stand for none.
pub open spec fn loose_pair(a: u8, b: u8) -> u8 {
    if a < 128 && b < 128 {
        match hex::pair_value(a as char, b as char) {
            Some(v) => v as u8,
            None => 0,
        }
    } else {
        0
    }
}

/// Bytes end with others.
pub open spec fn ends_with_bytes(s: Seq<u8>, p: Seq<u8>) -> bool {
    s.len() >= p.len() && s.skip(s.len() - p.len()) == p
}

/// The end of a name that is still being written.
pub open spec fn tmp_bytes() -> Seq<u8> {
    seq![46u8, 116u8, 109u8, 112u8]
}

/// The hash that the file of a body is named after; none where the name is not one of a body. The
/// first two digits are the name of the directory.
pub open spec fn body_hash_of(shard: Seq<u8>, name: Seq<u8>) -> Option<Seq<u8>> {
    let full = shard + name;
    if ends_with_bytes(name, tmp_bytes()) || shard.len() != 2 || full.len() != 64 {
        None
    } else {
        Some(Seq::new(32, |i: int| loose_pair(full[2 * i], full[2 * i + 1])))
    }
}

/// Reads the byte that two bytes stand for.
pub fn read_pair(a: u8, b: u8) -> (r: u8)
    ensures
        r == loose_pair(a, b),
{
    if a < 128 && b < 128 {
        match byte_of_pair(a as char, b as char) {
            Some(v) => v,
            None => 0,
        }
    } else {
        0
    }
}

/// Reads the hash that the file of a body is named after.
pub fn body_file_hash(shard: &Vec<u8>, name: &Vec<u8>) -> (r: Option<[u8; 32]>)
    ensures
        match r {
            Some(h) => body_hash_of(shard@, name@) == Some(h@),
            None => body_hash_of(shard@, name@) is None,
        },
{
    let n = name.len();
    let tmp = n >= 4 && name[n - 4] == 46 && name[n - 3] == 116 && name[n - 2] == 109 && name[n - 1]
        == 112;
    proof {
        if n >= 4 {
            let tail = name@.skip(n - 4);
            assert(tail.len() == 4);
            assert(tail[0] == name@[n - 4] && tail[1] == name@[n - 3] && tail[2] == name@[n - 2]
                && tail[3] == name@[n - 1]);
            if tmp {
                assert(tail =~= tmp_bytes());
            } else if tail == tmp_bytes() {
                assert(tail[0] == 46 && tail[1] == 116 && tail[2] == 109 && tail[3] == 112);
            }
        }
    }
    if tmp || shard.len() != 2 || n != 62 {
        return None;
    }
    let ghost full = shard@ + name@;
    let mut out: Vec<u8> = Vec::new();
    out.push(read_pair(shard[0], shard[1]));
    let mut i: usize = 1;
    while i < 32
        invariant
            1 <= i <= 32,
            out.len() == i,
            shard.len() == 2,
            name.len() == 62,
            full == shard@ + name@,
            forall|k: int| 0 <= k < i ==> #[trigger] out[k] == loose_pair(full[2 * k], full[2 * k + 1]),
        decreases 32 - i,
    {
        assert(full[2 * i as int] == name@[2 * i - 2]);
        assert(full[2 * i + 1] == name@[2 * i - 1]);
        out.push(read_pair(name[2 * i - 2], name[2 * i - 1]));
        i = i + 1;
    }
    let h = array32(&out);
    assert(h@ =~= Seq::new(32, |k: int| loose_pair(full[2 * k], full[2 * k + 1])));
    Some(h)
}

/// A report after one more body was moved.
pub open spec fn body_noted(
    rep: MigrateBodiesReport,
    existed: bool,
    reads_back: bool,
    deleted: bool,
) -> MigrateBodiesReport {
    MigrateBodiesReport {
        files_scanned: (rep.files_scanned + 1) as usize,
        inserted: (rep.inserted + (if existed {
            0int
        } else {
            1
        })) as usize,
        skipped_existing: (rep.skipped_existing + (if existed {
            1int
        } else {
            0
        })) as usize,
        verified: (rep.verified + (if reads_back {
            1int
        } else {
            0
        })) as usize,
        files_deleted: (rep.files_deleted + (if deleted {
            1int
        } else {
            0
        })) as usize,
    }
}

/// Every body that was looked at was inserted or there before, and none was verified or deleted that
/// was not looked at.
pub open spec fn adds_up(rep: MigrateBodiesReport) -> bool {
    &&& rep.inserted + rep.skipped_existing == rep.files_scanned
    &&& rep.verified <= rep.files_scanned
    &&& rep.files_deleted <= rep.files_scanned
}

impl MigrateBodiesReport {
    /// Notes that a body was moved: whether the database had it before, whether it reads back, and
    /// whether its file was deleted.
    pub fn note_body(&mut self, existed: bool, reads_back: bool, deleted: bool)
        requires
            adds_up(*old(self)),
            old(self).files_scanned < usize::MAX,
        ensures
            *final(self) == body_noted(*old(self), existed, reads_back, deleted),
            adds_up(*final(self)),
    {
        self.files_scanned = self.files_scanned + 1;
        if existed {
            self.skipped_existing = self.skipped_existing + 1;
        } else {
            self.inserted = self.inserted + 1;
        }
        if reads_back {
            self.verified = self.verified + 1;
        }
        if deleted {
            self.files_deleted = self.files_deleted + 1;
        }
    }
}

/// How many bodies lie in files and how many in the database, which may not be there.
pub fn verify_body_migration(
    in_files: &Vec<[u8; 32]>,
    in_database: Option<&Vec<[u8; 32]>>,
) -> (r: (usize, usize))
    ensures
        r.0 == in_files@.len(),
        r.1 == (match in_database {
            Some(hashes) => hashes@.len(),
            None => 0,
        }),
{
    match in_database {
        Some(hashes) => (in_files.len(), hashes.len()),
        None => (in_files.len(), 0),
    }
}

/// What became of the keys that were moved.
#[derive(Debug, Clone, Copy, PartialEq, Eq, Structural, Default)]
pub struct MigrateKvReport {
    pub ris_keys_migrated: usize,
    pub kv_keys_migrated: usize,
    pub kv_json_stripped: usize,
}

/// The branch and the number that the key of a snapshot of bindings names.
pub open spec fn ris_key(key: Seq<char>) -> Option<(Seq<u8>, u64)> {
    if text::begins_with(key, "ris:"@) {
        let p = text::pieces(key.skip(4), ':');
        if p.len() == 2 && p[1].len() == 20 {
            match (hex::bytes_of_hex(p[0], 16), hex::decimal_u64(p[1])) {
                (Some(b), Some(n)) => Some((b, n)),
                _ => None,
            }
        } else {
            None
        }
    } else {
        None
    }
}

/// Reads the branch and the number that the key of a snapshot names.
pub fn parse_ris_key(key: &str) -> (r: Option<(BranchId, u64)>)
    ensures
        match r {
            Some((b, n)) => ris_key(key@) == Some((b.0@, n)),
            None => ris_key(key@) is None,
        },
{
    if !text_begins_with(key, "ris:") {
        return None;
    }
    proof {
        reveal_strlit("ris:");
    }
    let cs = chars_of(key);
    let rest = cut(&cs, 4, cs.len());
    assert(rest@ =~= key@.skip(4));
    let parts = chars_split(&rest, ':');
    assert(text::chars_views(parts@).len() == parts@.len());
    if parts.len() != 2 {
        return None;
    }
    assert(text::chars_views(parts@)[0] == parts@[0]@);
    assert(text::chars_views(parts@)[1] == parts@[1]@);
    if parts[1].len() != 20 {
        return None;
    }
    match parse_hex_bytes(&parts[0], 16) {
        Some(b) => match parse_decimal_u64(&parts[1]) {
            Some(n) => Some((BranchId(array16(&b)), n)),
            None => None,
        },
        None => None,
    }
}

/// The keys of a store that may name snapshots of bindings, each once, in order.
pub open spec fn ris_keys(m: Map<Seq<char>, Seq<u8>>, keys: Seq<Seq<char>>) -> bool {
    &&& sorting::texts_sorted(keys)
    &&& keys.no_duplicates()
    &&& forall|k: Seq<char>| #[trigger]
        keys.contains(k) <==> m.contains_key(k) && text::begins_with(k, "ris:"@)
}

/// The snapshots that are moved, in the order of their keys.
pub open spec fn moved_rows(m: Map<Seq<char>, Seq<u8>>, keys: Seq<Seq<char>>) -> Seq<
    (BranchId, u64, Seq<u8>),
>
    decreases keys.len(),
{
    if keys.len() == 0 {
        Seq::empty()
    } else {
        let front = moved_rows(m, keys.drop_last());
        match ris_key(keys.last()) {
            Some((b, n)) => front.push((BranchId(ids::array_of(b)), n, m[keys.last()])),
            None => front,
        }
    }
}

/// The keys of a store that begin with `ris:`, in order.
fn sorted_ris_keys(kv: &MemoryKv) -> (r: Vec<String>)
    ensures
        ris_keys(kv@, text::texts(r@)),
{
    let rows = kv.scan_prefix("ris:");
    let mut keys: Vec<String> = Vec::new();
    let mut i: usize = 0;
    while i < rows.len()
        invariant
            i <= rows.len(),
            keys.len() == i,
            forall|k: int| 0 <= k < i ==> (#[trigger] keys[k])@ == rows[k].0@,
        decreases rows.len() - i,
    {
        keys.push(owned(rows[i].0.as_str()));
        i = i + 1;
    }
    let ghost a = text::texts(keys@);
    proof {
        assert(a.no_duplicates()) by {
            assert forall|x: int, y: int| 0 <= x < a.len() && 0 <= y < a.len() && x != y implies a[x]
                != a[y] by {
                assert(a[x] == keys@[x]@ && a[y] == keys@[y]@);
                if x < y {
                    assert(rows@[x].0@ != rows@[y].0@);
                } else {
                    assert(rows@[y].0@ != rows@[x].0@);
                }
            }
        }
        assert forall|k: Seq<char>| #[trigger] a.contains(k) <==> kv@.contains_key(k)
            && text::begins_with(k, "ris:"@) by {
            if a.contains(k) {
                let x = choose|x: int| 0 <= x < a.len() && a[x] == k;
                assert(keys@[x]@ == rows@[x].0@);
            }
            if kv@.contains_key(k) && text::begins_with(k, "ris:"@) {
                let x = choose|x: int| 0 <= x < rows@.len() && (#[trigger] rows@[x]).0@ == k;
                assert(keys@[x]@ == k);
                assert(a[x] == k);
            }
        }
    }
    let sorted = sort_texts(keys);
    proof {
        sorting::lemma_same_items(a, text::texts(sorted@));
    }
    sorted
}

/// Moves the snapshots of bindings out of a store: the rows that go to the database, and a report. In
/// the end the keys are taken out of the store, where that is asked for.
pub fn migrate_kv_ris_to_sqlite(kv: &mut MemoryKv, compact_kv_json: bool) -> (r: (
    Vec<RisRow>,
    MigrateKvReport,
))
    ensures
        exists|keys: Seq<Seq<char>>| #[trigger]
            ris_keys(old(kv)@, keys) && metadata_store::ris_views(r.0@) == moved_rows(old(kv)@, keys)
                && r.1.ris_keys_migrated == r.0@.len() && r.1.kv_keys_migrated == 0
                && r.1.kv_json_stripped == (if compact_kv_json {
                keys.len()
            } else {
                0
            }),
        final(kv)@ == (if compact_kv_json {
            kv::without_prefix(old(kv)@, "ris:"@)
        } else {
            old(kv)@
        }),
{
    let ghost m = kv@;
    let keys = sorted_ris_keys(kv);
    let ghost names = text::texts(keys@);
    let mut rows: Vec<RisRow> = Vec::new();
    let mut i: usize = 0;
    proof {
        assert(names.take(0) =~= Seq::<Seq<char>>::empty());
        assert(metadata_store::ris_views(rows@) =~= Seq::<(BranchId, u64, Seq<u8>)>::empty());
    }
    while i < keys.len()
        invariant
            i <= keys.len(),
            m == kv@,
            names == text::texts(keys@),
            ris_keys(m, names),
            metadata_store::ris_views(rows@) == moved_rows(m, names.take(i as int)),
        decreases keys.len() - i,
    {
        proof {
            assert(names.take(i + 1).drop_last() =~= names.take(i as int));
            assert(names.take(i + 1).last() == names[i as int]);
            assert(names[i as int] == keys@[i as int]@);
            assert(names.contains(names[i as int]));
        }
        if let Some((branch, epoch)) = parse_ris_key(keys[i].as_str()) {
            if let Some(value) = kv.get(keys[i].as_str()) {
                let ghost before = metadata_store::ris_views(rows@);
                proof {
                    ids::lemma_array_of(branch.0);
                }
                let row = (branch, epoch, value);
                rows.push(row);
                assert(metadata_store::ris_views(rows@) =~= before.push((branch, epoch, m[names[i as int]])));
            }
        }
        i = i + 1;
    }
    assert(names.take(names.len() as int) =~= names);
    let mut rep = MigrateKvReport {
        ris_keys_migrated: rows.len(),
        kv_keys_migrated: 0,
        kv_json_stripped: 0,
    };
    if compact_kv_json {
        kv.delete_prefix("ris:");
        rep.kv_json_stripped = keys.len();
    }
    (rows, rep)
}

/// The key of a snapshot reads back as its branch and number.
pub proof fn law_ris_key_reads_back(branch: BranchId, epoch: u64)
    ensures
        ris_key(revision_cow::snapshot_epoch_key(branch, epoch)) == Some((branch.0@, epoch)),
{
    reveal_strlit("ris:");
    let key = revision_cow::snapshot_epoch_key(branch, epoch);
    let h = hex::hex_of(branch.0@);
    let d = hex::zero_padded(hex::decimal(epoch as nat), 20);
    keys::lemma_begins("ris:"@, key.skip(4));
    assert(key =~= "ris:"@ + (h + seq![':'] + d));
    assert(key.subrange(0, 4) =~= "ris:"@);
    assert(key.skip(4) =~= h + seq![':'] + d);
    hex::lemma_padded_reads_back(epoch, 20);
    hex::lemma_hex_has_no_colon(branch.0@);
    hex::lemma_hex_reads_back(branch.0@);
    hex::lemma_padded_to_twenty(epoch);
    text::lemma_pieces_of_joined(h, ':', d);
    text::lemma_pieces_of_whole(d, ':');
}

/// Every snapshot in a store is kept under the key of its branch and number.
pub open spec fn own_ris_keys(m: Map<Seq<char>, Seq<u8>>) -> bool {
    forall|k: Seq<char>| #[trigger]
        m.contains_key(k) && text::begins_with(k, "ris:"@) ==> exists|b: BranchId, e: u64|
            k == #[trigger] revision_cow::snapshot_epoch_key(b, e)
}

/// What a database that was handed rows, each in the place of one with its branch and number, holds
/// for a branch and a number.
pub open spec fn snapshot_in(rows: Seq<(BranchId, u64, Seq<u8>)>, b: BranchId, e: u64) -> Option<
    Seq<u8>,
>
    decreases rows.len(),
{
    if rows.len() == 0 {
        None
    } else if rows.last().0 == b && rows.last().1 == e {
        Some(rows.last().2)
    } else {
        snapshot_in(rows.drop_last(), b, e)
    }
}

/// The keys of snapshots of their own differ.
proof fn lemma_ris_keys_apart(b: BranchId, e: u64, c: BranchId, f: u64)
    ensures
        revision_cow::snapshot_epoch_key(b, e) == revision_cow::snapshot_epoch_key(c, f) <==> b == c
            && e == f,
{
    law_ris_key_reads_back(b, e);
    law_ris_key_reads_back(c, f);
    if b.0@ == c.0@ {
        assert(b.0 =~= c.0);
    }
}

/// There is a row for each key, with the value that the store has under the key.
proof fn lemma_moved_rows(m: Map<Seq<char>, Seq<u8>>, keys: Seq<Seq<char>>)
    requires
        own_ris_keys(m),
        forall|i: int|
            0 <= i < keys.len() ==> m.contains_key(#[trigger] keys[i]) && text::begins_with(
                keys[i],
                "ris:"@,
            ),
    ensures
        moved_rows(m, keys).len() == keys.len(),
        forall|i: int|
            0 <= i < keys.len() ==> revision_cow::snapshot_epoch_key(
                (#[trigger] moved_rows(m, keys)[i]).0,
                moved_rows(m, keys)[i].1,
            ) == keys[i] && moved_rows(m, keys)[i].2 == m[keys[i]],
    decreases keys.len(),
{
    if keys.len() > 0 {
        let front = keys.drop_last();
        assert forall|i: int| 0 <= i < front.len() implies m.contains_key(#[trigger] front[i])
            && text::begins_with(front[i], "ris:"@) by {
            assert(front[i] == keys[i]);
        }
        lemma_moved_rows(m, front);
        let k = keys.last();
        assert(k == keys[keys.len() - 1]);
        let (b, e) = choose|b: BranchId, e: u64|
            k == #[trigger] revision_cow::snapshot_epoch_key(b, e);
        law_ris_key_reads_back(b, e);
        ids::lemma_array_of(b.0);
        let now = moved_rows(m, keys);
        assert(now == moved_rows(m, front).push((b, e, m[k])));
        assert forall|i: int| 0 <= i < keys.len() implies revision_cow::snapshot_epoch_key(
            (#[trigger] now[i]).0,
            now[i].1,
        ) == keys[i] && now[i].2 == m[keys[i]] by {
            if i < front.len() {
                assert(now[i] == moved_rows(m, front)[i]);
            }
        }
    }
}

/// A database holds what the last of its rows for a branch and a number says.
proof fn lemma_snapshot_in(rows: Seq<(BranchId, u64, Seq<u8>)>, b: BranchId, e: u64)
    ensures
        match snapshot_in(rows, b, e) {
            Some(v) => exists|i: int|
                0 <= i < rows.len() && (#[trigger] rows[i]).0 == b && rows[i].1 == e && rows[i].2 == v,
            None => forall|i: int|
                0 <= i < rows.len() ==> !((#[trigger] rows[i]).0 == b && rows[i].1 == e),
        },
    decreases rows.len(),
{
    if rows.len() > 0 {
        let front = rows.drop_last();
        lemma_snapshot_in(front, b, e);
        if rows.last().0 == b && rows.last().1 == e {
            assert(rows[rows.len() - 1].0 == b);
        } else {
            match snapshot_in(front, b, e) {
                Some(v) => {
                    let i = choose|i: int|
                        0 <= i < front.len() && (#[trigger] front[i]).0 == b && front[i].1 == e
                            && front[i].2 == v;
                    assert(rows[i] == front[i]);
                },
                None => {
                    assert forall|i: int| 0 <= i < rows.len() implies !((#[trigger] rows[i]).0 == b
                        && rows[i].1 == e) by {
                        if i < front.len() {
                            assert(front[i] == rows[i]);
                        }
                    }
                },
            }
        }
    }
}

/// What is moved out of a store reads back as it was: where every snapshot is kept under its own key,
/// a row is moved for each of them, and a database that was handed the rows holds for each branch and
/// number what the store has.
pub proof fn law_moved_snapshots_read_back(
    m: Map<Seq<char>, Seq<u8>>,
    keys: Seq<Seq<char>>,
    b: BranchId,
    e: u64,
)
    requires
        own_ris_keys(m),
        ris_keys(m, keys),
    ensures
        moved_rows(m, keys).len() == keys.len(),
        snapshot_in(moved_rows(m, keys), b, e) == kv::value_at(
            m,
            revision_cow::snapshot_epoch_key(b, e),
        ),
{
    let rows = moved_rows(m, keys);
    let key = revision_cow::snapshot_epoch_key(b, e);
    assert forall|i: int| 0 <= i < keys.len() implies m.contains_key(#[trigger] keys[i])
        && text::begins_with(keys[i], "ris:"@) by {
        assert(keys.contains(keys[i]));
    }
    lemma_moved_rows(m, keys);
    lemma_snapshot_in(rows, b, e);
    lemma_is_ris_key(b, e);
    match snapshot_in(rows, b, e) {
        Some(v) => {
            let i = choose|i: int|
                0 <= i < rows.len() && (#[trigger] rows[i]).0 == b && rows[i].1 == e && rows[i].2 == v;
            assert(keys[i] == key);
        },
        None => {
            if m.contains_key(key) {
                assert(keys.contains(key));
                let i = choose|i: int| 0 <= i < keys.len() && keys[i] == key;
                lemma_ris_keys_apart(rows[i].0, rows[i].1, b, e);
            }
        },
    }
}

/// A snapshot's key begins as those of snapshots do.
proof fn lemma_is_ris_key(b: BranchId, e: u64)
    ensures
        text::begins_with(revision_cow::snapshot_epoch_key(b, e), "ris:"@),
{
    keys::lemma_tagged_rest_injective(
        "ris:"@,
        b.0,
        hex::zero_padded(hex::decimal(e as nat), 20),
        b.0,
        hex::zero_padded(hex::decimal(e as nat), 20),
    );
}

/// Rows put into a store that has none of them.
proof fn lemma_hydrated(
    m: Map<Seq<char>, Seq<u8>>,
    keys: Seq<Seq<char>>,
    rows: Seq<RisRow>,
    base: Map<Seq<char>, Seq<u8>>,
)
    requires
        rows.len() == keys.len(),
        keys.no_duplicates(),
        forall|i: int|
            0 <= i < keys.len() ==> revision_cow::snapshot_epoch_key(
                (#[trigger] rows[i]).0,
                rows[i].1,
            ) == keys[i] && rows[i].2@ == m[keys[i]],
        forall|i: int| 0 <= i < keys.len() ==> !base.contains_key(#[trigger] keys[i]),
    ensures
        persistence::rows_hydrated(base, rows).1 == keys.len(),
        forall|k: Seq<char>| #[trigger]
            persistence::rows_hydrated(base, rows).0.contains_key(k) <==> base.contains_key(k)
                || keys.contains(k),
        forall|k: Seq<char>| #[trigger]
            persistence::rows_hydrated(base, rows).0.contains_key(k)
                ==> persistence::rows_hydrated(base, rows).0[k] == (if keys.contains(k) {
                m[k]
            } else {
                base[k]
            }),
    decreases rows.len(),
{
    if rows.len() > 0 {
        let fr = rows.drop_last();
        let fk = keys.drop_last();
        let last = keys.last();
        assert forall|i: int| 0 <= i < fk.len() implies revision_cow::snapshot_epoch_key(
            (#[trigger] fr[i]).0,
            fr[i].1,
        ) == fk[i] && fr[i].2@ == m[fk[i]] by {
            assert(fr[i] == rows[i] && fk[i] == keys[i]);
        }
        assert forall|i: int| 0 <= i < fk.len() implies !base.contains_key(#[trigger] fk[i]) by {
            assert(fk[i] == keys[i]);
        }
        lemma_hydrated(m, fk, fr, base);
        assert(rows.last() == rows[rows.len() - 1] && last == keys[keys.len() - 1]);
        assert(!fk.contains(last)) by {
            if fk.contains(last) {
                let i = choose|i: int| 0 <= i < fk.len() && fk[i] == last;
                assert(keys[i] == keys[keys.len() - 1]);
            }
        }
        assert forall|k: Seq<char>| #[trigger] keys.contains(k) <==> fk.contains(k) || k == last by {
            if keys.contains(k) {
                let i = choose|i: int| 0 <= i < keys.len() && keys[i] == k;
                if i < fk.len() {
                    assert(fk[i] == k);
                }
            }
            if fk.contains(k) {
                let i = choose|i: int| 0 <= i < fk.len() && fk[i] == k;
                assert(keys[i] == k);
            }
            assert(keys[keys.len() - 1] == last);
        }
        assert(!persistence::rows_hydrated(base, fr).0.contains_key(last));
    }
}

/// A store that was stripped of its snapshots and gets the moved rows again is the store it was: where
/// every snapshot is kept under its own key, moving them out and putting them back loses nothing.
pub proof fn law_moved_snapshots_come_back(
    m: Map<Seq<char>, Seq<u8>>,
    keys: Seq<Seq<char>>,
    rows: Seq<RisRow>,
)
    requires
        own_ris_keys(m),
        ris_keys(m, keys),
        metadata_store::ris_views(rows) == moved_rows(m, keys),
    ensures
        persistence::rows_hydrated(kv::without_prefix(m, "ris:"@), rows) == (m, keys.len()),
{
    let base = kv::without_prefix(m, "ris:"@);
    assert forall|i: int| 0 <= i < keys.len() implies m.contains_key(#[trigger] keys[i])
        && text::begins_with(keys[i], "ris:"@) by {
        assert(keys.contains(keys[i]));
    }
    lemma_moved_rows(m, keys);
    let views = metadata_store::ris_views(rows);
    assert(views.len() == rows.len());
    assert forall|i: int| 0 <= i < keys.len() implies revision_cow::snapshot_epoch_key(
        (#[trigger] rows[i]).0,
        rows[i].1,
    ) == keys[i] && rows[i].2@ == m[keys[i]] by {
        assert(views[i] == (rows[i].0, rows[i].1, rows[i].2@));
        assert(moved_rows(m, keys)[i] == views[i]);
    }
    assert forall|i: int| 0 <= i < keys.len() implies !base.contains_key(#[trigger] keys[i]) by {
        assert(text::begins_with(keys[i], "ris:"@));
    }
    lemma_hydrated(m, keys, rows, base);
    let back = persistence::rows_hydrated(base, rows).0;
    assert forall|k: Seq<char>| #[trigger] back.contains_key(k) <==> m.contains_key(k) by {
        assert(keys.contains(k) <==> m.contains_key(k) && text::begins_with(k, "ris:"@));
    }
    assert forall|k: Seq<char>| #[trigger] back.contains_key(k) implies back[k] == m[k] by {}
    assert(back =~= m);
}

} // verus!
