//! Where snapshots of bindings are kept: in the key-value store, or in a database beside it.

use crate::hex::array16;
use crate::ids;
use crate::ids::BranchId;
use crate::paths;
use crate::paths::path_in;
use crate::persistence::RisRow;
use crate::text::{copy_bytes, same_text};
use vstd::prelude::*;

verus! {

/// Where metadata is kept.
#[derive(Debug, Clone, Copy, PartialEq, Eq, Structural)]
pub enum MetadataBackendKind {
    Json,
    Sqlite,
}

/// Where a setting says that metadata is kept.
pub open spec fn backend_of(setting: Option<Seq<char>>) -> MetadataBackendKind {
    match setting {
        Some(v) => if v == "sqlite"@ || v == "sqlite3"@ {
            MetadataBackendKind::Sqlite
        } else {
            MetadataBackendKind::Json
        },
        None => MetadataBackendKind::Json,
    }
}

/// Reads a setting of where metadata is kept.
pub fn metadata_backend(setting: Option<&str>) -> (r: MetadataBackendKind)
    ensures
        r == backend_of(
            match setting {
                Some(v) => Some(v@),
                None => None,
            },
        ),
{
    match setting {
        Some(v) => if same_text(v, "sqlite") || same_text(v, "sqlite3") {
            MetadataBackendKind::Sqlite
        } else {
            MetadataBackendKind::Json
        },
        None => MetadataBackendKind::Json,
    }
}

/// The file of the database.
pub fn store_db_path(cis: &str) -> (r: String)
    ensures
        r@ == paths::in_directory(cis@, "store.db"@),
{
    path_in(cis, "store.db")
}

/// The database that is to be opened, if metadata is kept in one.
pub fn open_metadata_store_if_enabled(kind: MetadataBackendKind, cis_dir: &str) -> (r: Option<
    String,
>)
    ensures
        match r {
            Some(p) => kind == MetadataBackendKind::Sqlite && p@ == paths::in_directory(
                cis_dir@,
                "store.db"@,
            ),
            None => kind != MetadataBackendKind::Sqlite,
        },
{
    if kind == MetadataBackendKind::Sqlite {
        Some(store_db_path(cis_dir))
    } else {
        None
    }
}

/// A row of the table of snapshots, as the database holds it.
pub type StoredRow = (Vec<u8>, u64, Vec<u8>);

/// The rows whose first column is a branch, in order.
pub open spec fn branch_rows_of(rows: Seq<StoredRow>) -> Seq<(BranchId, u64, Seq<u8>)>
    decreases rows.len(),
{
    if rows.len() == 0 {
        Seq::empty()
    } else {
        let front = branch_rows_of(rows.drop_last());
        let row = rows.last();
        if row.0@.len() == 16 {
            front.push((BranchId(ids::array_of(row.0@)), row.1, row.2@))
        } else {
            front
        }
    }
}

/// The values of snapshots.
pub open spec fn ris_views(rows: Seq<RisRow>) -> Seq<(BranchId, u64, Seq<u8>)> {
    rows.map_values(|r: RisRow| (r.0, r.1, r.2@))
}

/// Reads the rows of the table of snapshots; a row without a branch is passed over.
pub fn list_ris_snapshots(rows: &Vec<StoredRow>) -> (r: Vec<RisRow>)
    ensures
        ris_views(r@) == branch_rows_of(rows@),
{
    let mut out: Vec<RisRow> = Vec::new();
    let mut i: usize = 0;
    proof {
        assert(rows@.take(0) =~= Seq::<StoredRow>::empty());
        assert(ris_views(out@) =~= Seq::<(BranchId, u64, Seq<u8>)>::empty());
    }
    while i < rows.len()
        invariant
            i <= rows.len(),
            ris_views(out@) == branch_rows_of(rows@.take(i as int)),
        decreases rows.len() - i,
    {
        proof {
            assert(rows@.take(i + 1).drop_last() =~= rows@.take(i as int));
            assert(rows@.take(i + 1).last() == rows@[i as int]);
        }
        if rows[i].0.len() == 16 {
            let ghost before = ris_views(out@);
            let b = array16(&rows[i].0);
            proof {
                ids::lemma_array_of(b);
            }
            let row = (BranchId(b), rows[i].1, copy_bytes(&rows[i].2));
            out.push(row);
            assert(ris_views(out@) =~= before.push(
                (BranchId(ids::array_of(rows@[i as int].0@)), rows@[i as int].1, rows@[i as int].2@),
            ));
        }
        i = i + 1;
    }
    assert(rows@.take(rows@.len() as int) =~= rows@);
    out
}

} // verus!
