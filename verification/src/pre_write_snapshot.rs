//! What files held before a patch first wrote to them.

use crate::hex;
use crate::hex::decimal_text;
use crate::paths;
use crate::paths::path_in;
use crate::table::Table;
use crate::text;
use crate::text::{append_text, copy_bytes, owned, text_replace};
use vstd::prelude::*;

verus! {

/// The bytes of files before a patch wrote to them, by patch.
pub struct PreWriteSnapshotStore {
    by_patch: Table<u64, Table<String, Vec<u8>>>,
    disk_dir: String,
}

/// What a table of files holds.
pub open spec fn files_view(t: Table<String, Vec<u8>>) -> Map<Seq<char>, Seq<u8>> {
    t@.map_values(|v: Vec<u8>| v@)
}

impl View for PreWriteSnapshotStore {
    type V = Map<u64, Map<Seq<char>, Seq<u8>>>;

    closed spec fn view(&self) -> Map<u64, Map<Seq<char>, Seq<u8>>> {
        self.by_patch@.map_values(|t: Table<String, Vec<u8>>| files_view(t))
    }
}

/// The files on record for a patch.
pub open spec fn files_of(m: Map<u64, Map<Seq<char>, Seq<u8>>>, patch_id: u64) -> Map<
    Seq<char>,
    Seq<u8>,
> {
    if m.contains_key(patch_id) {
        m[patch_id]
    } else {
        Map::empty()
    }
}

/// The record after the bytes of a file were taken down: the first time counts.
pub open spec fn captured(
    m: Map<u64, Map<Seq<char>, Seq<u8>>>,
    patch_id: u64,
    path: Seq<char>,
    bytes: Seq<u8>,
) -> Map<u64, Map<Seq<char>, Seq<u8>>> {
    let files = files_of(m, patch_id);
    if files.contains_key(path) {
        m
    } else {
        m.insert(patch_id, files.insert(path, bytes))
    }
}

/// What is to be done to a file so that it is as it was.
#[derive(Debug)]
pub enum Restore {
    /// It was not there, or empty: it is removed.
    Remove(String),
    /// It gets its bytes back.
    Write(String, Vec<u8>),
}

/// What is to be done to a file, as values.
pub enum RestoreView {
    Remove(Seq<char>),
    Write(Seq<char>, Seq<u8>),
}

impl View for Restore {
    type V = RestoreView;

    open spec fn view(&self) -> RestoreView {
        match self {
            Restore::Remove(p) => RestoreView::Remove(p@),
            Restore::Write(p, b) => RestoreView::Write(p@, b@),
        }
    }
}

/// What makes a file as it was.
pub open spec fn restoring(path: Seq<char>, bytes: Seq<u8>) -> RestoreView {
    if bytes.len() == 0 {
        RestoreView::Remove(path)
    } else {
        RestoreView::Write(path, bytes)
    }
}

/// Steps restore exactly the files on record, each once.
pub open spec fn restores(files: Map<Seq<char>, Seq<u8>>, steps: Seq<Restore>) -> bool {
    &&& steps.len() == files.dom().len()
    &&& forall|i: int|
        0 <= i < steps.len() ==> exists|p: Seq<char>| #[trigger]
            files.contains_key(p) && (#[trigger] steps[i])@ == restoring(p, files[p])
    &&& forall|p: Seq<char>| #[trigger]
        files.contains_key(p) ==> exists|i: int|
            0 <= i < steps.len() && (#[trigger] steps[i])@ == restoring(p, files[p])
}

/// Decides what makes one file as it was.
pub fn restore_inline(rel_path: &str, pre_write_bytes: &Vec<u8>) -> (r: Restore)
    ensures
        r@ == restoring(rel_path@, pre_write_bytes@),
{
    if pre_write_bytes.len() == 0 {
        Restore::Remove(owned(rel_path))
    } else {
        Restore::Write(owned(rel_path), copy_bytes(pre_write_bytes))
    }
}

/// The directory in which the bytes of a patch are kept.
pub open spec fn patch_directory(disk_dir: Seq<char>, patch_id: u64) -> Seq<char> {
    paths::in_directory(disk_dir, hex::decimal(patch_id as nat))
}

/// The file in which the bytes of a file are kept: its path with other separators.
pub open spec fn kept_file(disk_dir: Seq<char>, patch_id: u64, path: Seq<char>) -> Seq<char> {
    paths::in_directory(
        patch_directory(disk_dir, patch_id),
        text::replaced_text(path, "/"@, "__"@) + ".bin"@,
    )
}

impl PreWriteSnapshotStore {
    /// The directory in which bytes are kept.
    pub closed spec fn directory(&self) -> Seq<char> {
        self.disk_dir@
    }

    /// An empty record, kept under a directory.
    pub fn new(cis_dir: &str) -> (r: Self)
        ensures
            r@ == Map::<u64, Map<Seq<char>, Seq<u8>>>::empty(),
            r.directory() == paths::in_directory(cis_dir@, "pre_write_snapshots"@),
    {
        let r = PreWriteSnapshotStore {
            by_patch: Table::new(),
            disk_dir: path_in(cis_dir, "pre_write_snapshots"),
        };
        assert(r@ =~= Map::<u64, Map<Seq<char>, Seq<u8>>>::empty());
        r
    }

    /// Whether the bytes of a file are yet to be taken down.
    pub fn wants(&self, patch_id: u64, rel_path: &str) -> (r: bool)
        ensures
            r == !files_of(self@, patch_id).contains_key(rel_path@),
    {
        match self.by_patch.get(&patch_id) {
            Some(files) => !files.contains_key(&owned(rel_path)),
            None => true,
        }
    }

    /// Takes down what a file held before a patch first wrote to it.
    pub fn capture_if_absent(&mut self, patch_id: u64, rel_path: &str, pre_write_bytes: Vec<u8>)
        ensures
            final(self)@ == captured(old(self)@, patch_id, rel_path@, pre_write_bytes@),
            final(self).directory() == old(self).directory(),
    {
        if !self.wants(patch_id, rel_path) {
            return;
        }
        let ghost m = self@;
        let ghost bytes = pre_write_bytes@;
        let mut files = match self.by_patch.remove(&patch_id) {
            Some(t) => t,
            None => Table::new(),
        };
        let ghost f0 = files_view(files);
        proof {
            assert(f0 =~= files_of(m, patch_id));
        }
        files.insert(owned(rel_path), pre_write_bytes);
        proof {
            assert(files_view(files) =~= f0.insert(rel_path@, bytes));
        }
        self.by_patch.insert(patch_id, files);
        assert(self@ =~= m.insert(patch_id, f0.insert(rel_path@, bytes)));
    }

    /// What is to be done so that the files of a patch are as they were.
    pub fn restore_patch(&self, patch_id: u64) -> (steps: Vec<Restore>)
        ensures
            restores(files_of(self@, patch_id), steps@),
    {
        let ghost files = files_of(self@, patch_id);
        let mut steps: Vec<Restore> = Vec::new();
        match self.by_patch.get(&patch_id) {
            Some(t) => {
                let n = t.len();
                let ghost rows = t.rows();
                proof {
                    assert(files =~= files_view(*t));
                    assert(files.dom() =~= t@.dom());
                }
                let mut i: usize = 0;
                while i < n
                    invariant
                        i <= n,
                        n == rows.len(),
                        rows == t.rows(),
                        t.consistent(),
                        files == files_view(*t),
                        steps.len() == i,
                        forall|k: int|
                            0 <= k < i ==> (#[trigger] steps[k])@ == restoring(
                                rows[k].0,
                                rows[k].1@,
                            ),
                    decreases n - i,
                {
                    let path = t.key_at(i);
                    let bytes = t.value_at(i);
                    steps.push(restore_inline(path.as_str(), bytes));
                    i = i + 1;
                }
                proof {
                    assert forall|k: int| 0 <= k < steps@.len() implies exists|p: Seq<char>|
                        #[trigger] files.contains_key(p) && (#[trigger] steps@[k])@ == restoring(
                            p,
                            files[p],
                        ) by {
                        assert(t@.contains_pair(rows[k].0, rows[k].1));
                        assert(files.contains_key(rows[k].0));
                    }
                    assert forall|p: Seq<char>| #[trigger] files.contains_key(p) implies exists|
                        k: int,
                    |
                        0 <= k < steps@.len() && (#[trigger] steps@[k])@ == restoring(
                            p,
                            files[p],
                        ) by {
                        assert(t@.contains_key(p));
                        let k = choose|k: int| 0 <= k < rows.len() && (#[trigger] rows[k]).0 == p;
                        assert(t@.contains_pair(rows[k].0, rows[k].1));
                        assert(steps@[k]@ == restoring(p, files[p]));
                    }
                }
            },
            None => {
                assert(files.dom() =~= Set::<Seq<char>>::empty());
            },
        }
        steps
    }

    /// Forgets a patch.
    pub fn clear_patch(&mut self, patch_id: u64)
        ensures
            final(self)@ == old(self)@.remove(patch_id),
            final(self).directory() == old(self).directory(),
    {
        let ghost m = self@;
        self.by_patch.remove(&patch_id);
        assert(self@ =~= m.remove(patch_id));
    }

    /// The directory in which the bytes of a patch are kept.
    pub fn patch_dir(&self, patch_id: u64) -> (r: String)
        ensures
            r@ == patch_directory(self.directory(), patch_id),
    {
        path_in(self.disk_dir.as_str(), decimal_text(patch_id).as_str())
    }

    /// The file in which the bytes of a file are kept.
    pub fn snapshot_file(&self, patch_id: u64, rel_path: &str) -> (r: String)
        ensures
            r@ == kept_file(self.directory(), patch_id, rel_path@),
    {
        let mut name = text_replace(rel_path, "/", "__");
        append_text(&mut name, ".bin");
        path_in(self.patch_dir(patch_id).as_str(), name.as_str())
    }
}

/// What was taken down first is what a file gets back, however often the patch writes to it.
pub proof fn law_first_capture_counts(
    m: Map<u64, Map<Seq<char>, Seq<u8>>>,
    patch_id: u64,
    path: Seq<char>,
    first: Seq<u8>,
    later: Seq<u8>,
)
    requires
        !files_of(m, patch_id).contains_key(path),
    ensures
        ({
            let once = captured(m, patch_id, path, first);
            &&& captured(once, patch_id, path, later) == once
            &&& files_of(once, patch_id).contains_key(path)
            &&& files_of(once, patch_id)[path] == first
            &&& files_of(once.remove(patch_id), patch_id) == Map::<Seq<char>, Seq<u8>>::empty()
        }),
{
}

} // verus!
