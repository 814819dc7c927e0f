//! The chunks of a vector store as they are saved and read again.

use crate::persistence;
use crate::persistence::{VECTOR_SNAPSHOT_VERSION, VECTOR_SNAPSHOT_VERSION_V1, check_version};
use crate::vector_store::{InMemoryVectorStore, VectorChunkStore};
use vstd::prelude::*;

verus! {

/// What is saved of a vector store. An old file has the vectors of its chunks beside them; what a
/// vector is made of is left open.
#[derive(Debug)]
pub enum VectorSnapshot<W> {
    V2 { version: u32, chunks: Vec<[u8; 32]> },
    V1 { version: u32, chunks: Vec<([u8; 32], Vec<W>)> },
}

/// The chunks that a snapshot holds, in order.
pub open spec fn chunks_in<W>(s: VectorSnapshot<W>) -> Seq<[u8; 32]> {
    match s {
        VectorSnapshot::V2 { chunks, .. } => chunks@,
        VectorSnapshot::V1 { chunks, .. } => chunks@.map_values(|c: ([u8; 32], Vec<W>)| c.0),
    }
}

/// A snapshot holds what a store holds.
pub open spec fn holds<W, S: VectorChunkStore>(s: VectorSnapshot<W>, store: S) -> bool {
    store.chunks() == chunks_in(s).to_set()
}

/// What makes a snapshot one that cannot be read.
pub open spec fn refusal<W>(s: VectorSnapshot<W>) -> Option<Seq<char>> {
    let (version, want) = match s {
        VectorSnapshot::V2 { version, .. } => (version, persistence::VECTOR_SNAPSHOT_VERSION),
        VectorSnapshot::V1 { version, .. } => (version, persistence::VECTOR_SNAPSHOT_VERSION_V1),
    };
    if version == want {
        None
    } else {
        Some(persistence::version_message("vector"@, version, want))
    }
}

impl<W> VectorSnapshot<W> {
    /// What is saved of a store.
    pub fn from_store(store: &InMemoryVectorStore) -> (r: Self)
        ensures
            refusal(r) is None,
            chunks_in(r).no_duplicates(),
            holds(r, *store),
    {
        let chunks = store.chunk_ids();
        proof {
            assert(chunks@.to_set() =~= store.chunks()) by {
                assert forall|c: [u8; 32]| chunks@.to_set().contains(c)
                    == store.chunks().contains(c) by {
                    assert(chunks@.contains(c) <==> store.chunks().contains(c));
                }
            }
        }
        VectorSnapshot::V2 { version: VECTOR_SNAPSHOT_VERSION, chunks }
    }

    /// Puts what was saved in the place of what a store holds.
    pub fn restore_into(&self, store: &mut InMemoryVectorStore)
        ensures
            holds(*self, *final(store)),
            final(store).asked() == old(store).asked(),
    {
        let mut ids: Vec<[u8; 32]> = Vec::new();
        let n = self.chunk_count();
        let mut i: usize = 0;
        while i < n
            invariant
                i <= n,
                n == chunks_in(*self).len(),
                ids@ == chunks_in(*self).take(i as int),
            decreases n - i,
        {
            let id = match self {
                VectorSnapshot::V2 { chunks, .. } => chunks[i],
                VectorSnapshot::V1 { chunks, .. } => chunks[i].0,
            };
            ids.push(id);
            assert(ids@ =~= chunks_in(*self).take(i + 1));
            i = i + 1;
        }
        assert(chunks_in(*self).take(n as int) =~= chunks_in(*self));
        store.replace_all(ids);
    }

    /// How many chunks were saved.
    pub fn chunk_count(&self) -> (n: usize)
        ensures
            n == chunks_in(*self).len(),
    {
        match self {
            VectorSnapshot::V2 { chunks, .. } => chunks.len(),
            VectorSnapshot::V1 { chunks, .. } => chunks.len(),
        }
    }
}

/// Saves the chunks of a store.
pub fn save_vector_snapshot<W>(store: &InMemoryVectorStore) -> (r: VectorSnapshot<W>)
    ensures
        refusal(r) is None,
        chunks_in(r).no_duplicates(),
        holds(r, *store),
{
    VectorSnapshot::from_store(store)
}

/// Accepts a snapshot of a known version, and no other.
pub fn load_vector_snapshot<W>(s: VectorSnapshot<W>) -> (r: Result<VectorSnapshot<W>, String>)
    ensures
        match r {
            Ok(t) => refusal(s) is None && t == s,
            Err(e) => refusal(s) == Some(e@),
        },
{
    let checked = match &s {
        VectorSnapshot::V2 { version, .. } => check_version(
            "vector",
            *version,
            VECTOR_SNAPSHOT_VERSION,
        ),
        VectorSnapshot::V1 { version, .. } => check_version(
            "vector",
            *version,
            VECTOR_SNAPSHOT_VERSION_V1,
        ),
    };
    match checked {
        Ok(()) => Ok(s),
        Err(e) => Err(e),
    }
}

/// A store into which the chunks of another were restored holds those chunks.
pub proof fn law_saved_chunks_read_back<W, S: VectorChunkStore>(
    s: VectorSnapshot<W>,
    from: S,
    into: S,
)
    requires
        holds(s, from),
        holds(s, into),
    ensures
        into.chunks() == from.chunks(),
{
}

} // verus!
