//! The in-memory index: each live key mapped to where its value sits in
//! the log.
//!
//! The index is a vector of entries with pairwise-distinct keys, seen
//! abstractly as a finite map from key bytes to value positions. A vector
//! is used rather than a hash map so that every operation on it is
//! verified down to the bytes compared.

use vstd::prelude::*;

verus! {

/// Where a value lies in the log: the offset of its first byte and its
/// length.
#[derive(Debug, Clone, Copy)]
pub struct ValuePos {
    /// Byte offset of the value's first byte in the log.
    pub offset: u64,
    /// The value's length in bytes.
    pub len: usize,
}

/// Compare two byte strings for equality.
fn bytes_eq(a: &[u8], b: &[u8]) -> (r: bool)
    ensures
        r == (a@ == b@),
{
    if a.len() != b.len() {
        proof {
            assert(a@.len() != b@.len());
        }
        return false;
    }
    let n = a.len();
    let mut i: usize = 0;
    while i < n
        invariant
            n == a@.len() == b@.len(),
            i <= n,
            forall|j: int| 0 <= j < i ==> a@[j] == b@[j],
        decreases n - i,
    {
        if *vstd::slice::slice_index_get(a, i) != *vstd::slice::slice_index_get(b, i) {
            proof {
                assert(a@[i as int] != b@[i as int]);
            }
            return false;
        }
        i += 1;
    }
    proof {
        assert(a@ =~= b@);
    }
    true
}

/// One index entry: a key and the position of its current value.
pub struct Entry {
    /// The key bytes.
    pub key: Vec<u8>,
    /// Where the key's value lies in the log.
    pub pos: ValuePos,
}

/// The map an entry sequence stands for: later entries win.
pub open spec fn entries_map(s: Seq<Entry>) -> Map<Seq<u8>, ValuePos>
    decreases s.len(),
{
    if s.len() == 0 {
        Map::empty()
    } else {
        entries_map(s.drop_last()).insert(s.last().key@, s.last().pos)
    }
}

/// No two entries share a key.
pub open spec fn entries_unique(s: Seq<Entry>) -> bool {
    forall|i: int, j: int| 0 <= i < j < s.len() ==> s[i].key@ != s[j].key@
}

/// A key is in the map exactly when some entry carries it.
proof fn lemma_entries_map_contains(s: Seq<Entry>, k: Seq<u8>)
    ensures
        entries_map(s).contains_key(k) <==> exists|i: int| 0 <= i < s.len() && s[i].key@ == k,
    decreases s.len(),
{
    if s.len() > 0 {
        lemma_entries_map_contains(s.drop_last(), k);
        if entries_map(s).contains_key(k) {
            if s.last().key@ == k {
                assert(s[s.len() - 1].key@ == k);
            } else {
                let i = choose|i: int| 0 <= i < s.len() - 1 && s.drop_last()[i].key@ == k;
                assert(s[i].key@ == k);
            }
        }
        if exists|i: int| 0 <= i < s.len() && s[i].key@ == k {
            let i = choose|i: int| 0 <= i < s.len() && s[i].key@ == k;
            if i < s.len() - 1 {
                assert(s.drop_last()[i].key@ == k);
            }
        }
    }
}

/// With unique keys, the map's value for an entry's key is that entry's
/// position.
proof fn lemma_entries_map_at(s: Seq<Entry>, i: int)
    requires
        entries_unique(s),
        0 <= i < s.len(),
    ensures
        entries_map(s).contains_key(s[i].key@),
        entries_map(s)[s[i].key@] == s[i].pos,
    decreases s.len(),
{
    if i == s.len() - 1 {
    } else {
        assert(entries_unique(s.drop_last()));
        assert(s.drop_last()[i] == s[i]);
        lemma_entries_map_at(s.drop_last(), i);
        assert(s[i].key@ != s.last().key@);
    }
}

/// With unique keys, the map has exactly one binding per entry.
proof fn lemma_entries_map_len(s: Seq<Entry>)
    requires
        entries_unique(s),
    ensures
        entries_map(s).dom().finite(),
        entries_map(s).dom().len() == s.len(),
    decreases s.len(),
{
    if s.len() > 0 {
        assert(entries_unique(s.drop_last()));
        lemma_entries_map_len(s.drop_last());
        lemma_entries_map_contains(s.drop_last(), s.last().key@);
        assert(forall|i: int| 0 <= i < s.len() - 1 ==> s.drop_last()[i] == s[i]);
        assert(!entries_map(s.drop_last()).contains_key(s.last().key@));
        assert(entries_map(s).dom() =~= entries_map(s.drop_last()).dom().insert(s.last().key@));
        vstd::set::axiom_set_insert_len(entries_map(s.drop_last()).dom(), s.last().key@);
    }
}

/// Replacing the position of entry `i` updates that key's binding.
proof fn lemma_entries_map_update(s: Seq<Entry>, i: int, e: Entry)
    requires
        entries_unique(s),
        0 <= i < s.len(),
        e.key@ == s[i].key@,
    ensures
        entries_map(s.update(i, e)) =~= entries_map(s).insert(e.key@, e.pos),
        entries_unique(s.update(i, e)),
    decreases s.len(),
{
    let s2 = s.update(i, e);
    if i == s.len() - 1 {
        assert(s2.drop_last() =~= s.drop_last());
        assert(s2.last() == e);
    } else {
        assert(entries_unique(s.drop_last()));
        assert(s.drop_last()[i] == s[i]);
        lemma_entries_map_update(s.drop_last(), i, e);
        assert(s2.drop_last() =~= s.drop_last().update(i, e));
        assert(s2.last() == s.last());
        assert(e.key@ != s.last().key@);
    }
}

/// Removing entry `i` removes that key's binding and nothing else.
proof fn lemma_entries_map_remove(s: Seq<Entry>, i: int)
    requires
        entries_unique(s),
        0 <= i < s.len(),
    ensures
        entries_map(s.remove(i)) =~= entries_map(s).remove(s[i].key@),
        entries_unique(s.remove(i)),
    decreases s.len(),
{
    let s2 = s.remove(i);
    lemma_entries_map_contains(s.drop_last(), s[i].key@);
    if i == s.len() - 1 {
        assert(s2 =~= s.drop_last());
        assert(!entries_map(s.drop_last()).contains_key(s.last().key@));
    } else {
        assert(entries_unique(s.drop_last()));
        assert(s.drop_last()[i] == s[i]);
        lemma_entries_map_remove(s.drop_last(), i);
        assert(s2.drop_last() =~= s.drop_last().remove(i));
        assert(s2.last() == s.last());
        assert(s[i].key@ != s.last().key@);
    }
}

/// The index: unique-keyed entries, seen as a map from key bytes to value
/// positions.
pub struct Index {
    entries: Vec<Entry>,
}

impl View for Index {
    type V = Map<Seq<u8>, ValuePos>;

    closed spec fn view(&self) -> Map<Seq<u8>, ValuePos> {
        entries_map(self.entries@)
    }
}

impl Index {
    /// The index's internal shape: no key occurs twice.
    pub closed spec fn inv(&self) -> bool {
        entries_unique(self.entries@)
    }

    /// An empty index.
    pub fn new() -> (r: Index)
        ensures
            r.inv(),
            r@ == Map::<Seq<u8>, ValuePos>::empty(),
    {
        Index { entries: Vec::new() }
    }

    /// How many keys are live.
    pub fn len(&self) -> (r: usize)
        requires
            self.inv(),
        ensures
            self@.dom().finite(),
            r == self@.dom().len(),
    {
        proof {
            lemma_entries_map_len(self.entries@);
        }
        self.entries.len()
    }

    /// Find the entry holding `key`, if any.
    fn find(&self, key: &[u8]) -> (r: Option<usize>)
        ensures
            match r {
                Some(i) => i < self.entries@.len() && self.entries@[i as int].key@ == key@,
                None => forall|j: int| 0 <= j < self.entries@.len()
                    ==> self.entries@[j].key@ != key@,
            },
    {
        let n = self.entries.len();
        let mut i: usize = 0;
        while i < n
            invariant
                n == self.entries@.len(),
                i <= n,
                forall|j: int| 0 <= j < i ==> self.entries@[j].key@ != key@,
            decreases n - i,
        {
            if bytes_eq(self.entries[i].key.as_slice(), key) {
                return Some(i);
            }
            i += 1;
        }
        None
    }

    /// The position bound to `key`, if the key is live.
    pub fn get(&self, key: &[u8]) -> (r: Option<ValuePos>)
        requires
            self.inv(),
        ensures
            r == if self@.contains_key(key@) {
                Some(self@[key@])
            } else {
                None::<ValuePos>
            },
    {
        proof {
            lemma_entries_map_contains(self.entries@, key@);
        }
        match self.find(key) {
            Some(i) => {
                proof {
                    lemma_entries_map_at(self.entries@, i as int);
                }
                Some(self.entries[i].pos)
            },
            None => None,
        }
    }

    /// Bind `key` to `pos`, inserting it or overwriting its old binding.
    pub fn upsert(&mut self, key: Vec<u8>, pos: ValuePos)
        requires
            old(self).inv(),
        ensures
            final(self).inv(),
            final(self)@ == old(self)@.insert(key@, pos),
    {
        match self.find(key.as_slice()) {
            Some(i) => {
                proof {
                    lemma_entries_map_update(
                        self.entries@,
                        i as int,
                        Entry { key, pos },
                    );
                }
                let slot = vstd::std_specs::vec::vec_index_mut(&mut self.entries, i);
                *slot = Entry { key, pos };
            },
            None => {
                proof {
                    lemma_entries_map_contains(self.entries@, key@);
                    assert(entries_map(self.entries@.push(Entry { key, pos }))
                        =~= entries_map(self.entries@).insert(key@, pos)) by {
                        assert(self.entries@.push(Entry { key, pos }).drop_last()
                            =~= self.entries@);
                    }
                }
                self.entries.push(Entry { key, pos });
            },
        }
    }

    /// Drop `key`'s binding if it has one; absent keys are left alone.
    pub fn remove(&mut self, key: &[u8])
        requires
            old(self).inv(),
        ensures
            final(self).inv(),
            final(self)@ == old(self)@.remove(key@),
    {
        match self.find(key) {
            Some(i) => {
                proof {
                    lemma_entries_map_remove(self.entries@, i as int);
                }
                self.entries.remove(i);
            },
            None => {
                proof {
                    lemma_entries_map_contains(self.entries@, key@);
                    assert(self@ =~= self@.remove(key@));
                }
            },
        }
    }
}

} // verus!
