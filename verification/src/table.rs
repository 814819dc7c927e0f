//! A small map that keeps its rows in the order of their first insertion.

use vstd::prelude::*;

verus! {

/// What a table is keyed by: values told apart by a name.
pub trait TableKey: Sized {
    /// What tells two keys apart.
    type Name;

    /// The name of a key.
    spec fn name(&self) -> Self::Name;

    /// Whether two keys have one name.
    fn same(&self, other: &Self) -> (r: bool)
        ensures
            r == (self.name() == other.name()),
    ;

    /// A second key of the same name.
    fn duplicate(&self) -> (r: Self)
        ensures
            r.name() == self.name(),
    ;
}

impl TableKey for String {
    type Name = Seq<char>;

    open spec fn name(&self) -> Seq<char> {
        self@
    }

    fn same(&self, other: &Self) -> (r: bool) {
        self.eq(other)
    }

    fn duplicate(&self) -> (r: Self) {
        self.clone()
    }
}

impl TableKey for u64 {
    type Name = u64;

    open spec fn name(&self) -> u64 {
        *self
    }

    fn same(&self, other: &Self) -> (r: bool) {
        *self == *other
    }

    fn duplicate(&self) -> (r: Self) {
        *self
    }
}

/// No two rows have one name.
pub open spec fn names_differ<N, V>(rows: Seq<(N, V)>) -> bool {
    forall|i: int, j: int|
        0 <= i < j < rows.len() ==> (#[trigger] rows[i]).0 != (#[trigger] rows[j]).0
}

/// The map that rows stand for.
pub open spec fn map_of<N, V>(rows: Seq<(N, V)>) -> Map<N, V>
    decreases rows.len(),
{
    if rows.len() == 0 {
        Map::empty()
    } else {
        map_of(rows.drop_last()).insert(rows.last().0, rows.last().1)
    }
}

/// What the map holds is what the rows hold.
pub proof fn lemma_map_of<N, V>(rows: Seq<(N, V)>)
    requires
        names_differ(rows),
    ensures
        forall|i: int|
            0 <= i < rows.len() ==> map_of(rows).contains_pair(
                (#[trigger] rows[i]).0,
                rows[i].1,
            ),
        forall|n: N| #[trigger]
            map_of(rows).contains_key(n) ==> exists|i: int|
                0 <= i < rows.len() && (#[trigger] rows[i]).0 == n,
        map_of(rows).dom().finite(),
        map_of(rows).dom().len() == rows.len(),
    decreases rows.len(),
{
    if rows.len() > 0 {
        let front = rows.drop_last();
        lemma_map_of(front);
        assert forall|i: int| 0 <= i < rows.len() implies map_of(rows).contains_pair(
            (#[trigger] rows[i]).0,
            rows[i].1,
        ) by {
            if i < rows.len() - 1 {
                assert(front[i] == rows[i]);
                assert(rows[i].0 != rows.last().0);
            }
        }
        assert forall|n: N| #[trigger] map_of(rows).contains_key(n) implies exists|i: int|
            0 <= i < rows.len() && (#[trigger] rows[i]).0 == n by {
            if n == rows.last().0 {
                assert(rows[rows.len() - 1].0 == n);
            } else {
                let i = choose|i: int| 0 <= i < front.len() && (#[trigger] front[i]).0 == n;
                assert(rows[i].0 == n);
            }
        }
        assert(!map_of(front).contains_key(rows.last().0)) by {
            if map_of(front).contains_key(rows.last().0) {
                let i = choose|i: int|
                    0 <= i < front.len() && (#[trigger] front[i]).0 == rows.last().0;
                assert(rows[i].0 == rows[rows.len() - 1].0);
            }
        }
        assert(map_of(rows).dom() =~= map_of(front).dom().insert(rows.last().0));
    }
}

/// Rows whose values are read otherwise stand for the map with its values read so.
pub proof fn lemma_map_of_values<N, V, W>(rows: Seq<(N, V)>, f: spec_fn(V) -> W)
    ensures
        map_of(rows.map_values(|e: (N, V)| (e.0, f(e.1)))) == map_of(rows).map_values(f),
    decreases rows.len(),
{
    let read = rows.map_values(|e: (N, V)| (e.0, f(e.1)));
    if rows.len() > 0 {
        let front = rows.drop_last();
        lemma_map_of_values(front, f);
        assert(read.drop_last() =~= front.map_values(|e: (N, V)| (e.0, f(e.1))));
        assert(map_of(rows).map_values(f) =~= map_of(front).map_values(f).insert(
            rows.last().0,
            f(rows.last().1),
        ));
    } else {
        assert(map_of(read) =~= map_of(rows).map_values(f));
    }
}

/// One more row is one more entry of the map.
pub proof fn lemma_map_of_step<N, V>(rows: Seq<(N, V)>, i: int)
    requires
        0 <= i < rows.len(),
    ensures
        map_of(rows.take(i + 1)) == map_of(rows.take(i)).insert(rows[i].0, rows[i].1),
{
    assert(rows.take(i + 1).drop_last() =~= rows.take(i));
}

/// The map has an entry under the name of each row.
pub proof fn lemma_map_of_has<N, V>(rows: Seq<(N, V)>, i: int)
    requires
        0 <= i < rows.len(),
    ensures
        map_of(rows).contains_key(rows[i].0),
    decreases rows.len(),
{
    if i < rows.len() - 1 {
        lemma_map_of_has(rows.drop_last(), i);
    }
}

/// Each name of the map is that of a row.
pub proof fn lemma_map_of_row<N, V>(rows: Seq<(N, V)>, n: N)
    requires
        map_of(rows).contains_key(n),
    ensures
        exists|i: int| 0 <= i < rows.len() && (#[trigger] rows[i]).0 == n,
    decreases rows.len(),
{
    if rows.len() > 0 {
        if rows.last().0 == n {
            assert(rows[rows.len() - 1].0 == n);
        } else {
            lemma_map_of_row(rows.drop_last(), n);
            let i = choose|i: int|
                0 <= i < rows.drop_last().len() && (#[trigger] rows.drop_last()[i]).0 == n;
            assert(rows[i].0 == n);
        }
    }
}

/// The names and values of entries.
pub open spec fn rows_of<K: TableKey, V>(entries: Seq<(K, V)>) -> Seq<(K::Name, V)> {
    entries.map_values(|e: (K, V)| (e.0.name(), e.1))
}

/// A map from keys to values.
pub struct Table<K: TableKey, V> {
    entries: Vec<(K, V)>,
}

impl<K: TableKey, V> View for Table<K, V> {
    type V = Map<K::Name, V>;

    closed spec fn view(&self) -> Map<K::Name, V> {
        map_of(self.rows())
    }
}

impl<K: TableKey, V> Table<K, V> {
    /// The rows, in the order of their first insertion.
    pub closed spec fn rows(&self) -> Seq<(K::Name, V)> {
        rows_of(self.entries@)
    }

    /// What the map holds is what the rows hold.
    pub open spec fn consistent(&self) -> bool {
        &&& names_differ(self.rows())
        &&& self@ == map_of(self.rows())
        &&& self@.dom().finite()
        &&& self@.dom().len() == self.rows().len()
        &&& forall|i: int|
            0 <= i < self.rows().len() ==> self@.contains_pair(
                (#[trigger] self.rows()[i]).0,
                self.rows()[i].1,
            )
        &&& forall|n: K::Name| #[trigger]
            self@.contains_key(n) ==> exists|i: int|
                0 <= i < self.rows().len() && (#[trigger] self.rows()[i]).0 == n
    }

    #[verifier::type_invariant]
    spec fn inv(&self) -> bool {
        names_differ(self.rows())
    }

    /// An empty table.
    pub fn new() -> (r: Self)
        ensures
            r@ == Map::<K::Name, V>::empty(),
            r.rows() == Seq::<(K::Name, V)>::empty(),
    {
        let r = Table { entries: Vec::new() };
        assert(r.rows() =~= Seq::<(K::Name, V)>::empty());
        r
    }

    /// The number of rows.
    pub fn len(&self) -> (n: usize)
        ensures
            n == self.rows().len(),
            self.consistent(),
    {
        proof {
            use_type_invariant(self);
            lemma_map_of(self.rows());
        }
        self.entries.len()
    }

    /// The key of a row.
    pub fn key_at(&self, i: usize) -> (k: &K)
        requires
            i < self.rows().len(),
        ensures
            k.name() == self.rows()[i as int].0,
    {
        &self.entries[i].0
    }

    /// The value of a row.
    pub fn value_at(&self, i: usize) -> (v: &V)
        requires
            i < self.rows().len(),
        ensures
            *v == self.rows()[i as int].1,
    {
        &self.entries[i].1
    }

    /// The position of the row of `k`.
    fn position(&self, k: &K) -> (r: Option<usize>)
        ensures
            match r {
                Some(i) => i < self.entries.len() && self.rows()[i as int].0 == k.name(),
                None => forall|j: int|
                    0 <= j < self.rows().len() ==> (#[trigger] self.rows()[j]).0 != k.name(),
            },
    {
        let mut i: usize = 0;
        while i < self.entries.len()
            invariant
                i <= self.entries.len(),
                forall|j: int| 0 <= j < i ==> (#[trigger] self.rows()[j]).0 != k.name(),
            decreases self.entries.len() - i,
        {
            if self.entries[i].0.same(k) {
                return Some(i);
            }
            i = i + 1;
        }
        None
    }

    /// The value under `k`.
    pub fn get(&self, k: &K) -> (r: Option<&V>)
        ensures
            match r {
                Some(v) => self@.contains_pair(k.name(), *v),
                None => !self@.contains_key(k.name()),
            },
    {
        proof {
            use_type_invariant(self);
            lemma_map_of(self.rows());
        }
        match self.position(k) {
            Some(i) => {
                assert(self.rows()[i as int].1 == self.entries@[i as int].1);
                Some(&self.entries[i].1)
            },
            None => None,
        }
    }

    /// Whether there is a row for `k`.
    pub fn contains_key(&self, k: &K) -> (r: bool)
        ensures
            r == self@.contains_key(k.name()),
    {
        self.get(k).is_some()
    }

    /// Puts `v` under `k` and hands back what was there.
    pub fn insert(&mut self, k: K, v: V) -> (r: Option<V>)
        ensures
            final(self)@ == old(self)@.insert(k.name(), v),
            match r {
                Some(w) => old(self)@.contains_pair(k.name(), w),
                None => !old(self)@.contains_key(k.name()),
            },
            final(self).rows() == (if old(self)@.contains_key(k.name()) {
                Seq::new(
                    old(self).rows().len(),
                    |i: int|
                        if old(self).rows()[i].0 == k.name() {
                            (k.name(), v)
                        } else {
                            old(self).rows()[i]
                        },
                )
            } else {
                old(self).rows().push((k.name(), v))
            }),
    {
        proof {
            use_type_invariant(&*self);
            lemma_map_of(self.rows());
        }
        let ghost before = self.rows();
        let found = self.position(&k);
        let ghost n = k.name();
        let mut entries: Vec<(K, V)> = Vec::new();
        std::mem::swap(&mut entries, &mut self.entries);
        match found {
            Some(i) => {
                entries.push((k, v));
                let old_row = entries.swap_remove(i);
                assert(rows_of(entries@) =~= before.update(i as int, (n, v)));
                self.entries = entries;
                proof {
                    let after = self.rows();
                    assert(after =~= before.update(i as int, (n, v)));
                    assert(names_differ(after));
                    lemma_map_of(after);
                    assert(self@ =~= map_of(before).insert(n, v)) by {
                        assert forall|m: K::Name| map_of(after).contains_key(m) implies
                            map_of(before).insert(n, v).contains_pair(m, map_of(after)[m]) by {
                            let j = choose|j: int|
                                0 <= j < after.len() && (#[trigger] after[j]).0 == m;
                            assert(before[j].0 == m);
                        }
                        assert forall|m: K::Name| map_of(before).insert(n, v).contains_key(
                            m,
                        ) implies map_of(after).contains_key(m) by {
                            if m == n {
                                assert(after[i as int].0 == n);
                            } else {
                                let j = choose|j: int|
                                    0 <= j < before.len() && (#[trigger] before[j]).0 == m;
                                assert(after[j] == before[j]);
                            }
                        }
                    }
                    assert(after =~= Seq::new(
                        before.len(),
                        |j: int|
                            if before[j].0 == n {
                                (n, v)
                            } else {
                                before[j]
                            },
                    ));
                }
                Some(old_row.1)
            },
            None => {
                entries.push((k, v));
                assert(rows_of(entries@) =~= before.push((n, v)));
                self.entries = entries;
                proof {
                    let after = self.rows();
                    assert(after =~= before.push((n, v)));
                    assert(after.drop_last() =~= before);
                }
                None
            },
        }
    }

    /// Takes the row of `k` out and hands its value back.
    pub fn remove(&mut self, k: &K) -> (r: Option<V>)
        ensures
            final(self)@ == old(self)@.remove(k.name()),
            match r {
                Some(w) => old(self)@.contains_pair(k.name(), w),
                None => !old(self)@.contains_key(k.name()),
            },
            r is Some ==> exists|i: int|
                {
                    &&& 0 <= i < old(self).rows().len()
                    &&& old(self).rows()[i].0 == k.name()
                    &&& final(self).rows() == #[trigger] old(self).rows().remove(i)
                },
            r is None ==> final(self).rows() == old(self).rows(),
    {
        proof {
            use_type_invariant(&*self);
            lemma_map_of(self.rows());
        }
        let ghost before = self.rows();
        let ghost n = k.name();
        match self.position(k) {
            Some(i) => {
                let mut entries: Vec<(K, V)> = Vec::new();
                std::mem::swap(&mut entries, &mut self.entries);
                let row = entries.remove(i);
                assert(rows_of(entries@) =~= before.remove(i as int));
                self.entries = entries;
                proof {
                    let after = self.rows();
                    assert(after =~= before.remove(i as int));
                    lemma_map_of(after);
                    assert(self@ =~= map_of(before).remove(n)) by {
                        assert forall|m: K::Name| map_of(after).contains_key(m) implies
                            map_of(before).remove(n).contains_pair(m, map_of(after)[m]) by {
                            let j = choose|j: int|
                                0 <= j < after.len() && (#[trigger] after[j]).0 == m;
                            let j0 = if j < i { j } else { j + 1 };
                            assert(before[j0] == after[j]);
                        }
                        assert forall|m: K::Name| map_of(before).remove(n).contains_key(
                            m,
                        ) implies map_of(after).contains_key(m) by {
                            let j = choose|j: int|
                                0 <= j < before.len() && (#[trigger] before[j]).0 == m;
                            let j1 = if j < i { j } else { j - 1 };
                            assert(after[j1] == before[j]);
                        }
                    }
                    assert(after == before.remove(i as int));
                }
                Some(row.1)
            },
            None => {
                proof {
                    assert(self@ =~= self@.remove(n));
                }
                None
            },
        }
    }
}

} // verus!
