//! An in-memory key-value store with compare-and-swap and prefix scans.

use crate::table::Table;
use crate::text;
use crate::text::{append_text, copy_bytes, owned, same_bytes, text_begins_with};
use vstd::prelude::*;

verus! {

/// Why a conditional write was refused.
#[derive(Debug)]
pub enum CasError {
    /// The key, whose present value is not the expected one.
    Mismatch(String),
}

impl CasError {
    /// The message for a person.
    pub fn message(&self) -> (r: String)
        ensures
            r@ == cas_message(*self),
    {
        match self {
            CasError::Mismatch(k) => {
                let mut out = owned("cas mismatch: ");
                append_text(&mut out, k.as_str());
                out
            },
        }
    }
}

/// The message on a value that is not the expected one.
pub open spec fn cas_message(e: CasError) -> Seq<char> {
    match e {
        CasError::Mismatch(k) => "cas mismatch: "@ + k@,
    }
}

/// Keys are texts, values are byte strings.
pub struct MemoryKv {
    table: Table<String, Vec<u8>>,
}

impl View for MemoryKv {
    type V = Map<Seq<char>, Seq<u8>>;

    closed spec fn view(&self) -> Map<Seq<char>, Seq<u8>> {
        self.table@.map_values(|v: Vec<u8>| v@)
    }
}

/// The value under `k`.
pub open spec fn value_at(m: Map<Seq<char>, Seq<u8>>, k: Seq<char>) -> Option<Seq<u8>> {
    if m.contains_key(k) {
        Some(m[k])
    } else {
        None
    }
}

/// The rows of a scan hold exactly the entries of `m` whose key begins with `prefix`, each once.
pub open spec fn scanned(
    m: Map<Seq<char>, Seq<u8>>,
    prefix: Seq<char>,
    rows: Seq<(String, Vec<u8>)>,
) -> bool {
    &&& forall|i: int|
        0 <= i < rows.len() ==> text::begins_with((#[trigger] rows[i]).0@, prefix) && m.contains_pair(
            rows[i].0@,
            rows[i].1@,
        )
    &&& forall|i: int, j: int|
        0 <= i < j < rows.len() ==> (#[trigger] rows[i]).0@ != (#[trigger] rows[j]).0@
    &&& forall|k: Seq<char>| #[trigger]
        m.contains_key(k) && text::begins_with(k, prefix) ==> exists|i: int|
            0 <= i < rows.len() && (#[trigger] rows[i]).0@ == k
}

/// `m` without the keys that begin with `prefix`.
pub open spec fn without_prefix(m: Map<Seq<char>, Seq<u8>>, prefix: Seq<char>) -> Map<
    Seq<char>,
    Seq<u8>,
> {
    m.remove_keys(Set::new(|k: Seq<char>| text::begins_with(k, prefix)))
}

impl MemoryKv {
    /// An empty store.
    pub fn new() -> (r: Self)
        ensures
            r@ == Map::<Seq<char>, Seq<u8>>::empty(),
    {
        let r = MemoryKv { table: Table::new() };
        assert(r@ =~= Map::<Seq<char>, Seq<u8>>::empty());
        r
    }

    /// The number of entries.
    pub fn len(&self) -> (n: usize)
        ensures
            self@.dom().finite(),
            n == self@.dom().len(),
    {
        assert(self@.dom() =~= self.table@.dom());
        self.table.len()
    }

    /// The value under `key`.
    pub fn get(&self, key: &str) -> (r: Option<Vec<u8>>)
        ensures
            match r {
                Some(v) => value_at(self@, key@) == Some(v@),
                None => value_at(self@, key@) is None,
            },
    {
        let k = owned(key);
        match self.table.get(&k) {
            Some(v) => Some(copy_bytes(v)),
            None => None,
        }
    }

    /// Puts `value` under `key`.
    pub fn set(&mut self, key: &str, value: Vec<u8>)
        ensures
            final(self)@ == old(self)@.insert(key@, value@),
    {
        let ghost before = self.table@;
        let ghost v = value;
        self.table.insert(owned(key), value);
        proof {
            assert(self@ =~= before.map_values(|w: Vec<u8>| w@).insert(key@, v@));
        }
    }

    /// Takes `key` out; whether it was there.
    pub fn delete(&mut self, key: &str) -> (r: bool)
        ensures
            final(self)@ == old(self)@.remove(key@),
            r == old(self)@.contains_key(key@),
    {
        let ghost before = self.table@;
        let k = owned(key);
        let r = self.table.remove(&k);
        proof {
            assert(self@ =~= before.map_values(|w: Vec<u8>| w@).remove(key@));
        }
        r.is_some()
    }

    /// The entries whose key begins with `prefix`.
    pub fn scan_prefix(&self, prefix: &str) -> (rows: Vec<(String, Vec<u8>)>)
        ensures
            scanned(self@, prefix@, rows@),
    {
        let n = self.table.len();
        let mut rows: Vec<(String, Vec<u8>)> = Vec::new();
        let mut i: usize = 0;
        while i < n
            invariant
                i <= n,
                n == self.table.rows().len(),
                self.table.consistent(),
                forall|j: int|
                    0 <= j < rows.len() ==> text::begins_with((#[trigger] rows[j]).0@, prefix@)
                        && self@.contains_pair(rows[j].0@, rows[j].1@),
                forall|j: int|
                    0 <= j < rows.len() ==> exists|s: int|
                        0 <= s < i && (#[trigger] self.table.rows()[s]).0 == (
                        #[trigger] rows[j]).0@,
                forall|a: int, b: int|
                    0 <= a < b < rows.len() ==> (#[trigger] rows[a]).0@ != (#[trigger] rows[b]).0@,
                forall|s: int|
                    0 <= s < i && text::begins_with((#[trigger] self.table.rows()[s]).0, prefix@)
                        ==> exists|j: int|
                        0 <= j < rows.len() && (#[trigger] rows[j]).0@ == self.table.rows()[s].0,
            decreases n - i,
        {
            let k = self.table.key_at(i);
            if text_begins_with(k.as_str(), prefix) {
                let ghost before = rows@;
                rows.push((k.clone(), copy_bytes(self.table.value_at(i))));
                proof {
                    let t = self.table.rows();
                    assert(self.table@.contains_pair(t[i as int].0, t[i as int].1));
                    assert(rows@[before.len() as int].0@ == t[i as int].0);
                    assert forall|s: int|
                        0 <= s < i + 1 && text::begins_with(
                            (#[trigger] t[s]).0,
                            prefix@,
                        ) implies exists|j: int|
                        0 <= j < rows.len() && (#[trigger] rows[j]).0@ == t[s].0 by {
                        if s == i {
                            assert(rows@[before.len() as int].0@ == t[s].0);
                        } else {
                            let j = choose|j: int|
                                0 <= j < before.len() && (#[trigger] before[j]).0@ == t[s].0;
                            assert(rows@[j].0@ == t[s].0);
                        }
                    }
                }
            }
            i = i + 1;
        }
        proof {
            assert forall|k: Seq<char>| #[trigger]
                self@.contains_key(k) && text::begins_with(k, prefix@) implies exists|j: int|
                0 <= j < rows.len() && (#[trigger] rows[j]).0@ == k by {
                assert(self.table@.contains_key(k));
                let s = choose|s: int|
                    0 <= s < self.table.rows().len() && (#[trigger] self.table.rows()[s]).0 == k;
                assert(text::begins_with(self.table.rows()[s].0, prefix@));
            }
        }
        rows
    }

    /// Whether some key begins with `prefix`.
    pub fn any_with_prefix(&self, prefix: &str) -> (r: bool)
        ensures
            r == exists|k: Seq<char>| #[trigger]
                self@.contains_key(k) && text::begins_with(k, prefix@),
    {
        let rows = self.scan_prefix(prefix);
        if rows.len() > 0 {
            assert(self@.contains_key(rows@[0].0@) && text::begins_with(rows@[0].0@, prefix@));
            true
        } else {
            assert forall|k: Seq<char>| !(#[trigger] self@.contains_key(k) && text::begins_with(
                k,
                prefix@,
            )) by {
                if self@.contains_key(k) && text::begins_with(k, prefix@) {
                    let i = choose|i: int| 0 <= i < rows.len() && (#[trigger] rows[i]).0@ == k;
                }
            }
            false
        }
    }

    /// Takes out every key that begins with `prefix`; how many there were.
    pub fn delete_prefix(&mut self, prefix: &str) -> (n: usize)
        ensures
            final(self)@ == without_prefix(old(self)@, prefix@),
            n == old(self)@.dom().filter(|k: Seq<char>| text::begins_with(k, prefix@)).len(),
    {
        let ghost m0 = self@;
        let rows = self.scan_prefix(prefix);
        let mut i: usize = 0;
        while i < rows.len()
            invariant
                i <= rows.len(),
                scanned(m0, prefix@, rows@),
                forall|k: Seq<char>| #[trigger]
                    self@.contains_key(k) ==> m0.contains_pair(k, self@[k]),
                forall|k: Seq<char>| #[trigger]
                    m0.contains_key(k) && !self@.contains_key(k) ==> text::begins_with(k, prefix@),
                forall|j: int| 0 <= j < i ==> !self@.contains_key((#[trigger] rows[j]).0@),
            decreases rows.len() - i,
        {
            self.delete(rows[i].0.as_str());
            i = i + 1;
        }
        proof {
            assert(self@ =~= without_prefix(m0, prefix@)) by {
                assert forall|k: Seq<char>| self@.contains_key(k) implies !text::begins_with(
                    k,
                    prefix@,
                ) by {
                    if text::begins_with(k, prefix@) {
                        assert(m0.contains_key(k));
                        let j = choose|j: int| 0 <= j < rows.len() && (#[trigger] rows[j]).0@ == k;
                    }
                }
            }
            lemma_scan_count(m0, prefix@, rows@);
        }
        rows.len()
    }

    /// Writes `value` under `key` if what is there now is `expected`.
    pub fn compare_and_swap(
        &mut self,
        key: &str,
        expected: Option<Vec<u8>>,
        value: Vec<u8>,
    ) -> (r: Result<(), CasError>)
        ensures
            r is Ok <==> value_at(old(self)@, key@) == (match expected {
                Some(v) => Some(v@),
                None => None,
            }),
            r is Ok ==> final(self)@ == old(self)@.insert(key@, value@),
            r matches Err(CasError::Mismatch(k)) ==> k@ == key@,
            r is Err ==> final(self)@ == old(self)@,
    {
        let holds = match (self.get(key), &expected) {
            (Some(a), Some(b)) => same_bytes(&a, b),
            (None, None) => true,
            _ => false,
        };
        if holds {
            self.set(key, value);
            Ok(())
        } else {
            Err(CasError::Mismatch(owned(key)))
        }
    }

    /// Takes `key` out if what is there now is `expected`.
    pub fn compare_and_delete(&mut self, key: &str, expected: &Vec<u8>) -> (r: Result<
        (),
        CasError,
    >)
        ensures
            r is Ok <==> value_at(old(self)@, key@) == Some(expected@),
            r is Ok ==> final(self)@ == old(self)@.remove(key@),
            r matches Err(CasError::Mismatch(k)) ==> k@ == key@,
            r is Err ==> final(self)@ == old(self)@,
    {
        let holds = match self.get(key) {
            Some(a) => same_bytes(&a, expected),
            None => false,
        };
        if holds {
            self.delete(key);
            Ok(())
        } else {
            Err(CasError::Mismatch(owned(key)))
        }
    }
}

/// The rows of a scan are as many as the keys that begin with the prefix.
pub proof fn lemma_scan_count(
    m: Map<Seq<char>, Seq<u8>>,
    prefix: Seq<char>,
    rows: Seq<(String, Vec<u8>)>,
)
    requires
        scanned(m, prefix, rows),
    ensures
        m.dom().filter(|k: Seq<char>| text::begins_with(k, prefix)).finite(),
        m.dom().filter(|k: Seq<char>| text::begins_with(k, prefix)).len() == rows.len(),
{
    let keys = rows.map_values(|r: (String, Vec<u8>)| r.0@);
    assert(keys.no_duplicates()) by {
        assert forall|i: int, j: int| 0 <= i < keys.len() && 0 <= j < keys.len() && i
            != j implies keys[i] != keys[j] by {
            assert(keys[i] == rows[i].0@ && keys[j] == rows[j].0@);
        }
    }
    let want = m.dom().filter(|k: Seq<char>| text::begins_with(k, prefix));
    assert(keys.to_set() =~= want) by {
        assert forall|k: Seq<char>| want.contains(k) implies keys.to_set().contains(k) by {
            assert(m.contains_key(k) && text::begins_with(k, prefix));
            let i = choose|i: int| 0 <= i < rows.len() && (#[trigger] rows[i]).0@ == k;
            assert(keys[i] == k);
        }
        assert forall|k: Seq<char>| keys.to_set().contains(k) implies want.contains(k) by {
            let i = choose|i: int| 0 <= i < keys.len() && keys[i] == k;
            assert(rows[i].0@ == k);
        }
    }
    keys.unique_seq_to_set();
}

} // verus!
