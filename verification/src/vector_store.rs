//! Stores of embedded chunks, as far as their bookkeeping goes: which chunks are there.

use crate::ids::same_bytes32;
use vstd::prelude::*;

verus! {

/// A store that would not delete.
#[derive(Debug, Clone, Copy, PartialEq, Eq, Structural)]
pub enum VectorStoreError {
    DeleteRefused,
}

/// A delete that was asked of a store: the chunk, and whether it was done.
pub type Asked = ([u8; 32], bool);

/// A store of chunks. What it answers to a delete may differ from chunk to chunk and from one time to
/// the next.
pub trait VectorChunkStore {
    /// The chunks that are there.
    spec fn chunks(&self) -> Set<[u8; 32]>;

    /// The deletes that were asked so far, in order.
    spec fn asked(&self) -> Seq<Asked>;

    /// A delete of a chunk may come to this, now or after further deletes.
    spec fn answers(&self, chunk_id: [u8; 32], done: bool) -> bool;

    /// Whether a chunk is there.
    fn has_chunk(&self, chunk_id: &[u8; 32]) -> (r: bool)
        ensures
            r == self.chunks().contains(*chunk_id),
    ;

    /// Deletes a chunk, or refuses to.
    fn delete_chunk(&mut self, chunk_id: &[u8; 32]) -> (r: Result<(), VectorStoreError>)
        ensures
            old(self).answers(*chunk_id, r is Ok),
            forall|c: [u8; 32], done: bool| #[trigger]
                final(self).answers(c, done) ==> old(self).answers(c, done),
            final(self).asked() == old(self).asked().push((*chunk_id, r is Ok)),
            final(self).chunks() == (if r is Ok {
                old(self).chunks().remove(*chunk_id)
            } else {
                old(self).chunks()
            }),
    ;
}

/// The answers among the deletes that were asked after some others.
pub open spec fn answers_since(asked: Seq<Asked>, before: Seq<Asked>) -> Seq<bool> {
    asked.skip(before.len() as int).map_values(|a: Asked| a.1)
}

/// The chunks that deletes took out.
pub open spec fn taken_out(asked: Seq<Asked>) -> Set<[u8; 32]> {
    Set::new(|c: [u8; 32]| asked.contains((c, true)))
}

/// Whether a list holds a chunk.
pub fn holds_chunk(ids: &Vec<[u8; 32]>, chunk_id: &[u8; 32]) -> (r: bool)
    ensures
        r == ids@.contains(*chunk_id),
{
    let mut i: usize = 0;
    while i < ids.len()
        invariant
            i <= ids.len(),
            forall|j: int| 0 <= j < i ==> ids@[j] != *chunk_id,
        decreases ids.len() - i,
    {
        if same_bytes32(&ids[i], chunk_id) {
            assert(ids@[i as int] == *chunk_id);
            return true;
        }
        i = i + 1;
    }
    false
}

/// Chunks held in memory.
pub struct InMemoryVectorStore {
    ids: Vec<[u8; 32]>,
    asked: Ghost<Seq<Asked>>,
}

impl InMemoryVectorStore {
    /// An empty store.
    pub fn new() -> (r: Self)
        ensures
            r.chunks() == Set::<[u8; 32]>::empty(),
            r.asked() == Seq::<Asked>::empty(),
    {
        let r = InMemoryVectorStore { ids: Vec::new(), asked: Ghost(Seq::empty()) };
        assert(r.chunks() =~= Set::<[u8; 32]>::empty());
        r
    }

    /// Adds a chunk.
    pub fn upsert(&mut self, chunk_id: [u8; 32])
        ensures
            final(self).chunks() == old(self).chunks().insert(chunk_id),
            final(self).asked() == old(self).asked(),
    {
        let ghost before = self.ids@;
        self.ids.push(chunk_id);
        proof {
            assert forall|c: [u8; 32]| #[trigger] self.ids@.contains(c) <==> before.contains(c) || c
                == chunk_id by {
                if before.contains(c) {
                    let i = choose|i: int| 0 <= i < before.len() && before[i] == c;
                    assert(self.ids@[i] == c);
                }
                assert(self.ids@[before.len() as int] == chunk_id);
            }
            assert(self.chunks() =~= Set::new(|c: [u8; 32]| before.contains(c)).insert(chunk_id));
        }
    }

    /// Every chunk, each once.
    pub fn chunk_ids(&self) -> (r: Vec<[u8; 32]>)
        ensures
            r@.no_duplicates(),
            forall|c: [u8; 32]| #[trigger] r@.contains(c) <==> self.chunks().contains(c),
    {
        let mut out: Vec<[u8; 32]> = Vec::new();
        let mut i: usize = 0;
        while i < self.ids.len()
            invariant
                i <= self.ids.len(),
                out@.no_duplicates(),
                forall|k: int| 0 <= k < out@.len() ==> self.ids@.contains(#[trigger] out@[k]),
                forall|k: int| 0 <= k < i ==> out@.contains(#[trigger] self.ids@[k]),
            decreases self.ids.len() - i,
        {
            let id = self.ids[i];
            assert(self.ids@.contains(self.ids@[i as int]));
            if !holds_chunk(&out, &id) {
                let ghost had = out@;
                out.push(id);
                proof {
                    assert(out@[had.len() as int] == id);
                    assert forall|k: int| 0 <= k < i implies out@.contains(
                        #[trigger] self.ids@[k],
                    ) by {
                        let j = choose|j: int| 0 <= j < had.len() && had[j] == self.ids@[k];
                        assert(out@[j] == self.ids@[k]);
                    }
                }
            }
            i = i + 1;
        }
        proof {
            assert forall|c: [u8; 32]| #[trigger] out@.contains(c) <==> self.chunks().contains(
                c,
            ) by {
                if out@.contains(c) {
                    let k = choose|k: int| 0 <= k < out@.len() && out@[k] == c;
                    assert(self.ids@.contains(out@[k]));
                }
                if self.ids@.contains(c) {
                    let k = choose|k: int| 0 <= k < self.ids@.len() && self.ids@[k] == c;
                    assert(out@.contains(self.ids@[k]));
                }
            }
        }
        out
    }

    /// Puts chunks in the place of those that are there.
    pub fn replace_all(&mut self, chunks: Vec<[u8; 32]>)
        ensures
            final(self).chunks() == chunks@.to_set(),
            final(self).asked() == old(self).asked(),
    {
        let ghost all = chunks@;
        self.ids = chunks;
        assert(self.chunks() =~= all.to_set());
    }

    /// Whether a chunk is there.
    pub fn has(&self, chunk_id: &[u8; 32]) -> (r: bool)
        ensures
            r == self.chunks().contains(*chunk_id),
    {
        holds_chunk(&self.ids, chunk_id)
    }
}

impl VectorChunkStore for InMemoryVectorStore {
    closed spec fn chunks(&self) -> Set<[u8; 32]> {
        Set::new(|c: [u8; 32]| self.ids@.contains(c))
    }

    closed spec fn asked(&self) -> Seq<Asked> {
        self.asked@
    }

    open spec fn answers(&self, chunk_id: [u8; 32], done: bool) -> bool {
        done
    }

    fn has_chunk(&self, chunk_id: &[u8; 32]) -> (r: bool) {
        self.has(chunk_id)
    }

    fn delete_chunk(&mut self, chunk_id: &[u8; 32]) -> (r: Result<(), VectorStoreError>) {
        let ghost before = self.ids@;
        let mut kept: Vec<[u8; 32]> = Vec::new();
        let mut i: usize = 0;
        while i < self.ids.len()
            invariant
                i <= self.ids.len(),
                self.ids@ == before,
                forall|c: [u8; 32]| #[trigger]
                    kept@.contains(c) <==> c != *chunk_id && before.take(i as int).contains(c),
            decreases self.ids.len() - i,
        {
            let ghost k0 = kept@;
            let ghost x = before[i as int];
            let ghost front = before.take(i as int);
            let id = self.ids[i];
            let same = same_bytes32(&id, chunk_id);
            if !same {
                kept.push(id);
            }
            proof {
                assert(before.take(i + 1) =~= front.push(x));
                assert forall|c: [u8; 32]| #[trigger] kept@.contains(c) <==> c != *chunk_id
                    && before.take(i + 1).contains(c) by {
                    assert(k0.contains(c) <==> c != *chunk_id && front.contains(c));
                    lemma_pushed(front, x, c);
                    lemma_pushed(k0, x, c);
                }
            }
            i = i + 1;
        }
        self.ids = kept;
        proof {
            self.asked@ = self.asked@.push((*chunk_id, true));
            assert(before.take(before.len() as int) =~= before);
            assert(self.chunks() =~= Set::new(|c: [u8; 32]| before.contains(c)).remove(*chunk_id));
        }
        Ok(())
    }
}

/// What a longer list contains.
pub proof fn lemma_pushed(s: Seq<[u8; 32]>, a: [u8; 32], c: [u8; 32])
    ensures
        s.push(a).contains(c) <==> s.contains(c) || c == a,
{
    if s.contains(c) {
        let i = choose|i: int| 0 <= i < s.len() && s[i] == c;
        assert(s.push(a)[i] == c);
    }
    assert(s.push(a)[s.len() as int] == a);
}

/// A store whose deletes can be made to fail, all of them or those of single chunks.
pub struct FlakyVectorStore {
    store: InMemoryVectorStore,
    fail_delete: bool,
    failing: Vec<[u8; 32]>,
    asked: Ghost<Seq<Asked>>,
}

impl FlakyVectorStore {
    /// The store deletes nothing.
    pub closed spec fn fails(&self) -> bool {
        self.fail_delete
    }

    /// The chunks that the store would not delete in any case.
    pub closed spec fn kept(&self) -> Set<[u8; 32]> {
        self.failing@.to_set()
    }

    /// A store that still deletes.
    pub fn new(store: InMemoryVectorStore) -> (r: Self)
        ensures
            r.chunks() == store.chunks(),
            r.asked() == Seq::<Asked>::empty(),
            !r.fails(),
            r.kept() == Set::<[u8; 32]>::empty(),
    {
        let r = FlakyVectorStore {
            store,
            fail_delete: false,
            failing: Vec::new(),
            asked: Ghost(Seq::empty()),
        };
        assert(r.kept() =~= Set::<[u8; 32]>::empty());
        r
    }

    /// Makes deletes fail, or not.
    pub fn set_fail_delete(&mut self, fail: bool)
        ensures
            final(self).chunks() == old(self).chunks(),
            final(self).asked() == old(self).asked(),
            final(self).fails() == fail,
            final(self).kept() == old(self).kept(),
    {
        self.fail_delete = fail;
    }

    /// Makes the deletes of one chunk fail from now on.
    pub fn fail_chunk(&mut self, chunk_id: [u8; 32])
        ensures
            final(self).chunks() == old(self).chunks(),
            final(self).asked() == old(self).asked(),
            final(self).fails() == old(self).fails(),
            final(self).kept() == old(self).kept().insert(chunk_id),
    {
        let ghost before = self.failing@;
        self.failing.push(chunk_id);
        proof {
            assert forall|c: [u8; 32]| self.failing@.to_set().contains(c)
                == before.to_set().insert(chunk_id).contains(c) by {
                lemma_pushed(before, chunk_id, c);
            }
            assert(self.kept() =~= before.to_set().insert(chunk_id));
        }
    }

    /// The store underneath.
    pub fn inner(&self) -> (r: &InMemoryVectorStore)
        ensures
            r.chunks() == self.chunks(),
    {
        &self.store
    }
}

impl VectorChunkStore for FlakyVectorStore {
    closed spec fn chunks(&self) -> Set<[u8; 32]> {
        self.store.chunks()
    }

    closed spec fn asked(&self) -> Seq<Asked> {
        self.asked@
    }

    open spec fn answers(&self, chunk_id: [u8; 32], done: bool) -> bool {
        done == !(self.fails() || self.kept().contains(chunk_id))
    }

    fn has_chunk(&self, chunk_id: &[u8; 32]) -> (r: bool) {
        self.store.has(chunk_id)
    }

    fn delete_chunk(&mut self, chunk_id: &[u8; 32]) -> (r: Result<(), VectorStoreError>) {
        let mut refuse = self.fail_delete;
        let mut i: usize = 0;
        while i < self.failing.len() && !refuse
            invariant
                i <= self.failing.len(),
                refuse == (self.fail_delete || self.failing@.take(i as int).contains(*chunk_id)),
            decreases self.failing.len() - i,
        {
            proof {
                assert(self.failing@.take(i + 1) =~= self.failing@.take(i as int).push(
                    self.failing@[i as int],
                ));
                lemma_pushed(self.failing@.take(i as int), self.failing@[i as int], *chunk_id);
            }
            refuse = same_bytes32(&self.failing[i], chunk_id);
            i = i + 1;
        }
        proof {
            let all = self.failing@;
            assert(all.take(all.len() as int) =~= all);
            if all.take(i as int).contains(*chunk_id) {
                let k = choose|k: int| 0 <= k < i && all.take(i as int)[k] == *chunk_id;
                assert(all[k] == *chunk_id);
            }
            assert(refuse == (self.fails() || self.kept().contains(*chunk_id)));
            self.asked@ = self.asked@.push((*chunk_id, !refuse));
        }
        if refuse {
            return Err(VectorStoreError::DeleteRefused);
        }
        self.store.delete_chunk(chunk_id)
    }
}

} // verus!
