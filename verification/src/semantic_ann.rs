//! A flat index of vectors by the hash of the body they stand for. The components of the vectors are
//! left open: the index keeps them and never looks at them.

use crate::ids::same_bytes32;
use vstd::prelude::*;

verus! {

/// Vectors of one dimension, each under the hash of a body.
pub struct FlatAnnIndex<T> {
    dim: usize,
    entries: Vec<([u8; 32], Vec<T>)>,
}

/// What an index holds.
pub struct IndexedVectors<T> {
    /// The dimension; zero where no vector has settled it.
    pub dim: nat,
    /// The vectors, with their hashes.
    pub entries: Seq<([u8; 32], Seq<T>)>,
}

/// The entries of an index as sequences.
pub open spec fn entry_views<T>(entries: Seq<([u8; 32], Vec<T>)>) -> Seq<([u8; 32], Seq<T>)> {
    entries.map_values(|e: ([u8; 32], Vec<T>)| (e.0, e.1@))
}

impl<T> View for FlatAnnIndex<T> {
    type V = IndexedVectors<T>;

    closed spec fn view(&self) -> IndexedVectors<T> {
        IndexedVectors { dim: self.dim as nat, entries: entry_views(self.entries@) }
    }
}

/// The place of a hash in an index.
pub open spec fn place_of<T>(entries: Seq<([u8; 32], Seq<T>)>, hash: [u8; 32]) -> Option<int>
    decreases entries.len(),
{
    if entries.len() == 0 {
        None
    } else if entries.last().0 == hash {
        Some(entries.len() - 1)
    } else {
        place_of(entries.drop_last(), hash)
    }
}

/// An index is in order: no hash twice, and every vector has the dimension.
pub open spec fn in_order<T>(v: IndexedVectors<T>) -> bool {
    &&& forall|i: int, j: int|
        0 <= i < j < v.entries.len() ==> (#[trigger] v.entries[i]).0 != (#[trigger] v.entries[j]).0
    &&& forall|i: int|
        0 <= i < v.entries.len() ==> (#[trigger] v.entries[i]).1.len() == v.dim && v.dim > 0
}

/// An index after a vector was put under a hash. An empty vector and one of another dimension are
/// not taken.
pub open spec fn vector_put<T>(v: IndexedVectors<T>, hash: [u8; 32], vec: Seq<T>) -> IndexedVectors<
    T,
> {
    if vec.len() == 0 || (v.dim != 0 && vec.len() != v.dim) {
        v
    } else {
        IndexedVectors {
            dim: vec.len(),
            entries: match place_of(v.entries, hash) {
                Some(i) => v.entries.update(i, (hash, vec)),
                None => v.entries.push((hash, vec)),
            },
        }
    }
}

/// An index after a hash was taken out: the last vector takes its place.
pub open spec fn vector_removed<T>(v: IndexedVectors<T>, hash: [u8; 32]) -> IndexedVectors<T> {
    match place_of(v.entries, hash) {
        Some(i) => IndexedVectors {
            dim: v.dim,
            entries: v.entries.update(i, v.entries.last()).drop_last(),
        },
        None => v,
    }
}

/// An index after vectors were put one after another.
pub open spec fn vectors_put<T>(
    v: IndexedVectors<T>,
    vectors: Seq<([u8; 32], Seq<T>)>,
) -> IndexedVectors<T>
    decreases vectors.len(),
{
    if vectors.len() == 0 {
        v
    } else {
        vector_put(vectors_put(v, vectors.drop_last()), vectors.last().0, vectors.last().1)
    }
}

/// The place of a hash is one of an entry of that hash; without a place there is none.
pub proof fn lemma_place_of<T>(entries: Seq<([u8; 32], Seq<T>)>, hash: [u8; 32])
    ensures
        match place_of(entries, hash) {
            Some(i) => 0 <= i < entries.len() && entries[i].0 == hash,
            None => forall|i: int| 0 <= i < entries.len() ==> (#[trigger] entries[i]).0 != hash,
        },
    decreases entries.len(),
{
    if entries.len() > 0 && entries.last().0 != hash {
        lemma_place_of(entries.drop_last(), hash);
        assert forall|i: int|
            0 <= i < entries.len() && place_of(entries, hash) is None implies (
            #[trigger] entries[i]).0 != hash by {
            if i < entries.len() - 1 {
                assert(entries.drop_last()[i] == entries[i]);
            }
        }
    }
}

impl<T> Default for FlatAnnIndex<T> {
    /// No vector is kept.
    fn default() -> (r: Self)
        ensures
            r@.dim == 0,
            r@.entries == Seq::<([u8; 32], Seq<T>)>::empty(),
    {
        FlatAnnIndex::new()
    }
}

impl<T> FlatAnnIndex<T> {
    /// An empty index.
    pub fn new() -> (r: Self)
        ensures
            r@.dim == 0,
            r@.entries == Seq::<([u8; 32], Seq<T>)>::empty(),
    {
        let r = FlatAnnIndex { dim: 0, entries: Vec::new() };
        assert(r@.entries =~= Seq::<([u8; 32], Seq<T>)>::empty());
        r
    }

    /// Takes everything out.
    pub fn clear(&mut self)
        ensures
            final(self)@.dim == 0,
            final(self)@.entries == Seq::<([u8; 32], Seq<T>)>::empty(),
    {
        self.dim = 0;
        self.entries = Vec::new();
        assert(self@.entries =~= Seq::<([u8; 32], Seq<T>)>::empty());
    }

    /// The place of a hash.
    fn find(&self, body_hash: &[u8; 32]) -> (r: Option<usize>)
        ensures
            match r {
                Some(i) => place_of(self@.entries, *body_hash) == Some(i as int),
                None => place_of(self@.entries, *body_hash) is None,
            },
    {
        let ghost all = self@.entries;
        let mut n: usize = self.entries.len();
        assert(all.take(n as int) =~= all);
        while n > 0
            invariant
                n <= self.entries.len(),
                all == self@.entries,
                all.len() == self.entries.len(),
                place_of(all, *body_hash) == place_of(all.take(n as int), *body_hash),
            decreases n,
        {
            proof {
                assert(all.take(n as int).last() == all[n - 1]);
                assert(all.take(n as int).drop_last() =~= all.take(n - 1));
            }
            if same_bytes32(&self.entries[n - 1].0, body_hash) {
                return Some(n - 1);
            }
            n = n - 1;
        }
        None
    }

    /// Puts a vector under a hash.
    pub fn upsert(&mut self, body_hash: [u8; 32], vec: Vec<T>)
        ensures
            final(self)@ == vector_put(old(self)@, body_hash, vec@),
    {
        let ghost v = self@;
        if vec.len() == 0 {
            return;
        }
        if self.dim == 0 {
            self.dim = vec.len();
        } else if vec.len() != self.dim {
            return;
        }
        let ghost put = (body_hash, vec@);
        assert(self@.entries == v.entries);
        match self.find(&body_hash) {
            Some(i) => {
                proof {
                    lemma_place_of(v.entries, body_hash);
                }
                let e = (body_hash, vec);
                self.entries.set(i, e);
                assert(self@.entries =~= v.entries.update(i as int, put));
            },
            None => {
                let e = (body_hash, vec);
                self.entries.push(e);
                assert(self@.entries =~= v.entries.push(put));
            },
        }
    }

    /// Takes the vector of a hash out.
    pub fn remove(&mut self, body_hash: &[u8; 32])
        ensures
            final(self)@ == vector_removed(old(self)@, *body_hash),
    {
        let ghost v = self@;
        if let Some(i) = self.find(body_hash) {
            proof {
                lemma_place_of(v.entries, *body_hash);
            }
            self.entries.swap_remove(i);
            assert(self@.entries =~= v.entries.update(i as int, v.entries.last()).drop_last());
        }
    }

    /// The number of vectors.
    pub fn len(&self) -> (n: usize)
        ensures
            n == self@.entries.len(),
    {
        self.entries.len()
    }

    /// Whether there are no vectors.
    pub fn is_empty(&self) -> (r: bool)
        ensures
            r == (self@.entries.len() == 0),
    {
        self.entries.len() == 0
    }

    /// Whether a search can find anything: there are vectors, of the dimension of the query, and at
    /// least one is asked for.
    pub fn can_search(&self, query_len: usize, k: usize) -> (r: bool)
        ensures
            r == (self@.entries.len() > 0 && query_len == self@.dim && k > 0),
    {
        self.entries.len() != 0 && query_len == self.dim && k != 0
    }

    /// The hash and the vector at a place.
    pub fn entry(&self, i: usize) -> (r: (&[u8; 32], &Vec<T>))
        requires
            i < self@.entries.len(),
        ensures
            (*r.0, r.1@) == self@.entries[i as int],
    {
        (&self.entries[i].0, &self.entries[i].1)
    }

    /// Fills the index anew.
    pub fn rebuild(&mut self, vectors: Vec<([u8; 32], Vec<T>)>)
        ensures
            final(self)@ == vectors_put(
                (IndexedVectors { dim: 0, entries: Seq::empty() }),
                entry_views(vectors@),
            ),
    {
        let ghost all = entry_views(vectors@);
        let ghost none = IndexedVectors::<T> { dim: 0, entries: Seq::empty() };
        let mut back: Vec<([u8; 32], Vec<T>)> = Vec::new();
        let mut left = vectors;
        assert(all =~= entry_views(left@) + entry_views(back@).reverse());
        while left.len() > 0
            invariant
                all == entry_views(left@) + entry_views(back@).reverse(),
            decreases left.len(),
        {
            let ghost l = left@;
            let ghost b = back@;
            if let Some(e) = left.pop() {
                let ghost ev = (e.0, e.1@);
                back.push(e);
                assert(entry_views(l) =~= entry_views(left@).push(ev));
                assert(entry_views(back@) =~= entry_views(b).push(ev));
                assert(entry_views(back@).reverse() =~= seq![ev] + entry_views(b).reverse());
                assert(entry_views(left@) + entry_views(back@).reverse() =~= all);
            }
        }
        assert(entry_views(back@).reverse() =~= all);
        self.clear();
        proof {
            assert(all.take(0) =~= Seq::<([u8; 32], Seq<T>)>::empty());
            assert(self@ == none);
        }
        let ghost n = all.len();
        while back.len() > 0
            invariant
                n == all.len(),
                back.len() <= n,
                entry_views(back@).reverse() =~= all.skip(n - back.len()),
                self@ == vectors_put(none, all.take(n - back.len())),
            decreases back.len(),
        {
            let ghost b = back@;
            let ghost at = n - back.len();
            if let Some(e) = back.pop() {
                proof {
                    assert(entry_views(b) =~= entry_views(back@).push((e.0, e.1@)));
                    assert(entry_views(b).reverse()[0] == (e.0, e.1@));
                    assert(all.skip(at)[0] == all[at]);
                    assert(all.take(at + 1).drop_last() =~= all.take(at));
                    assert(all.take(at + 1).last() == all[at]);
                    assert(entry_views(back@).reverse() =~= entry_views(b).reverse().skip(1));
                    assert(all.skip(at).skip(1) =~= all.skip(at + 1));
                }
                self.upsert(e.0, e.1);
            }
        }
        assert(all.take(n as int) =~= all);
    }
}

/// Putting and taking out keeps an index in order.
pub proof fn law_index_stays_in_order<T>(v: IndexedVectors<T>, hash: [u8; 32], vec: Seq<T>)
    requires
        in_order(v),
    ensures
        in_order(vector_put(v, hash, vec)),
        in_order(vector_removed(v, hash)),
        place_of(vector_removed(v, hash).entries, hash) is None,
{
    lemma_place_of(v.entries, hash);
    let r = vector_removed(v, hash).entries;
    lemma_place_of(r, hash);
    if let Some(i) = place_of(v.entries, hash) {
        let last = v.entries.len() - 1;
        assert forall|k: int| 0 <= k < r.len() implies (#[trigger] r[k]).0 != hash by {
            if k == i {
                assert(r[k] == v.entries[last]);
                assert(v.entries[i].0 != v.entries[last].0);
            } else {
                assert(r[k] == v.entries[k]);
                if k < i {
                    assert(v.entries[k].0 != v.entries[i].0);
                } else {
                    assert(v.entries[i].0 != v.entries[k].0);
                }
            }
        }
        assert forall|a: int, b: int| 0 <= a < b < r.len() implies (#[trigger] r[a]).0 != (
        #[trigger] r[b]).0 by {
            let x = if a == i {
                last
            } else {
                a
            };
            let y = if b == i {
                last
            } else {
                b
            };
            assert(r[a] == v.entries[x] && r[b] == v.entries[y]);
            if x < y {
                assert(v.entries[x].0 != v.entries[y].0);
            } else {
                assert(v.entries[y].0 != v.entries[x].0);
            }
        }
        assert forall|k: int| 0 <= k < r.len() implies (#[trigger] r[k]).1.len() == v.dim by {
            if k == i {
                assert(r[k] == v.entries[last]);
            } else {
                assert(r[k] == v.entries[k]);
            }
        }
    }
    let p = vector_put(v, hash, vec);
    if p != v {
        match place_of(v.entries, hash) {
            Some(i) => {
                assert(v.entries[i].1.len() == v.dim);
                assert forall|a: int, b: int|
                    0 <= a < b < p.entries.len() implies (#[trigger] p.entries[a]).0 != (
                #[trigger] p.entries[b]).0 by {
                    assert(p.entries[a].0 == v.entries[a].0 && p.entries[b].0 == v.entries[b].0);
                }
            },
            None => {
                if v.entries.len() > 0 {
                    assert(v.entries[0].1.len() == v.dim);
                }
                assert forall|a: int, b: int|
                    0 <= a < b < p.entries.len() implies (#[trigger] p.entries[a]).0 != (
                #[trigger] p.entries[b]).0 by {
                    assert(p.entries[a] == v.entries[a]);
                    if b < v.entries.len() {
                        assert(p.entries[b] == v.entries[b]);
                    }
                }
                assert forall|k: int| 0 <= k < p.entries.len() implies (
                #[trigger] p.entries[k]).1.len() == p.dim && p.dim > 0 by {
                    if k < v.entries.len() {
                        assert(p.entries[k] == v.entries[k]);
                    }
                }
            },
        }
    }
}

} // verus!
