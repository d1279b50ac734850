//! A small string-to-string store, kept whole in memory.
//!
//! This is a separate convenience utility beside the log-based engine: a
//! flat map of strings that a caller persists in one piece (the
//! surrounding I/O layer writes it out, e.g. as JSON to a temporary file
//! renamed into place, and hands the parsed pairs back to [`KvStore::open`]
//! on the next start). The store itself is the verified part: a
//! unique-keyed list of pairs seen abstractly as a map.

use vstd::prelude::*;

verus! {

/// The map a pair sequence stands for: later pairs win.
pub open spec fn store_map(s: Seq<(String, String)>) -> Map<Seq<char>, Seq<char>>
    decreases s.len(),
{
    if s.len() == 0 {
        Map::empty()
    } else {
        store_map(s.drop_last()).insert(s.last().0@, s.last().1@)
    }
}

/// No two pairs share a key.
pub open spec fn store_unique(s: Seq<(String, String)>) -> bool {
    forall|i: int, j: int| 0 <= i < j < s.len() ==> s[i].0@ != s[j].0@
}

proof fn lemma_store_map_contains(s: Seq<(String, String)>, k: Seq<char>)
    ensures
        store_map(s).contains_key(k) <==> exists|i: int| 0 <= i < s.len() && s[i].0@ == k,
    decreases s.len(),
{
    if s.len() > 0 {
        lemma_store_map_contains(s.drop_last(), k);
        if store_map(s).contains_key(k) {
            if s.last().0@ == k {
                assert(s[s.len() - 1].0@ == k);
            } else {
                let i = choose|i: int| 0 <= i < s.len() - 1 && s.drop_last()[i].0@ == k;
                assert(s[i].0@ == k);
            }
        }
        if exists|i: int| 0 <= i < s.len() && s[i].0@ == k {
            let i = choose|i: int| 0 <= i < s.len() && s[i].0@ == k;
            if i < s.len() - 1 {
                assert(s.drop_last()[i].0@ == k);
            }
        }
    }
}

proof fn lemma_store_map_at(s: Seq<(String, String)>, i: int)
    requires
        store_unique(s),
        0 <= i < s.len(),
    ensures
        store_map(s).contains_key(s[i].0@),
        store_map(s)[s[i].0@] == s[i].1@,
    decreases s.len(),
{
    if i == s.len() - 1 {
    } else {
        assert(store_unique(s.drop_last()));
        assert(s.drop_last()[i] == s[i]);
        lemma_store_map_at(s.drop_last(), i);
        assert(s[i].0@ != s.last().0@);
    }
}

proof fn lemma_store_map_update(s: Seq<(String, String)>, i: int, p: (String, String))
    requires
        store_unique(s),
        0 <= i < s.len(),
        p.0@ == s[i].0@,
    ensures
        store_map(s.update(i, p)) =~= store_map(s).insert(p.0@, p.1@),
        store_unique(s.update(i, p)),
    decreases s.len(),
{
    let s2 = s.update(i, p);
    if i == s.len() - 1 {
        assert(s2.drop_last() =~= s.drop_last());
        assert(s2.last() == p);
    } else {
        assert(store_unique(s.drop_last()));
        assert(s.drop_last()[i] == s[i]);
        lemma_store_map_update(s.drop_last(), i, p);
        assert(s2.drop_last() =~= s.drop_last().update(i, p));
        assert(s2.last() == s.last());
        assert(p.0@ != s.last().0@);
    }
}

proof fn lemma_store_map_remove(s: Seq<(String, String)>, i: int)
    requires
        store_unique(s),
        0 <= i < s.len(),
    ensures
        store_map(s.remove(i)) =~= store_map(s).remove(s[i].0@),
        store_unique(s.remove(i)),
    decreases s.len(),
{
    let s2 = s.remove(i);
    lemma_store_map_contains(s.drop_last(), s[i].0@);
    if i == s.len() - 1 {
        assert(s2 =~= s.drop_last());
        assert(!store_map(s.drop_last()).contains_key(s.last().0@));
    } else {
        assert(store_unique(s.drop_last()));
        assert(s.drop_last()[i] == s[i]);
        lemma_store_map_remove(s.drop_last(), i);
        assert(s2.drop_last() =~= s.drop_last().remove(i));
        assert(s2.last() == s.last());
        assert(s[i].0@ != s.last().0@);
    }
}

/// A whole-map string store, seen abstractly as a map from key characters
/// to value characters.
pub struct KvStore {
    entries: Vec<(String, String)>,
}

impl View for KvStore {
    type V = Map<Seq<char>, Seq<char>>;

    closed spec fn view(&self) -> Map<Seq<char>, Seq<char>> {
        store_map(self.entries@)
    }
}

impl KvStore {
    /// The store's internal shape: no key occurs twice.
    pub closed spec fn inv(&self) -> bool {
        store_unique(self.entries@)
    }

    /// Build a store from loaded pairs; a key occurring more than once
    /// keeps its last value.
    pub fn open(pairs: Vec<(String, String)>) -> (r: KvStore)
        ensures
            r.inv(),
            r@ == store_map(pairs@),
    {
        let mut store = KvStore { entries: Vec::new() };
        let n = pairs.len();
        let mut i: usize = 0;
        proof {
            assert(pairs@.take(0) =~= Seq::<(String, String)>::empty());
        }
        while i < n
            invariant
                n == pairs@.len(),
                i <= n,
                store.inv(),
                store@ == store_map(pairs@.take(i as int)),
            decreases n - i,
        {
            let p = &pairs[i];
            let key = p.0.clone();
            let value = p.1.clone();
            proof {
                assert(key@ == pairs@[i as int].0@);
                assert(value@ == pairs@[i as int].1@);
                assert(pairs@.take(i as int + 1).drop_last() =~= pairs@.take(i as int));
                assert(pairs@.take(i as int + 1).last() == pairs@[i as int]);
            }
            store.set(key, value);
            i += 1;
        }
        proof {
            assert(pairs@.take(n as int) =~= pairs@);
        }
        store
    }

    /// Find the pair holding `key`, if any.
    fn find(&self, key: &String) -> (r: Option<usize>)
        ensures
            match r {
                Some(i) => i < self.entries@.len() && self.entries@[i as int].0@ == key@,
                None => forall|j: int| 0 <= j < self.entries@.len() ==> self.entries@[j].0@
                    != key@,
            },
    {
        let n = self.entries.len();
        let mut i: usize = 0;
        while i < n
            invariant
                n == self.entries@.len(),
                i <= n,
                forall|j: int| 0 <= j < i ==> self.entries@[j].0@ != key@,
            decreases n - i,
        {
            if self.entries[i].0 == *key {
                return Some(i);
            }
            i += 1;
        }
        None
    }

    /// Bind `key` to `value`, inserting it or overwriting its old value.
    pub fn set(&mut self, key: String, value: String)
        requires
            old(self).inv(),
        ensures
            final(self).inv(),
            final(self)@ == old(self)@.insert(key@, value@),
    {
        match self.find(&key) {
            Some(i) => {
                proof {
                    lemma_store_map_update(self.entries@, i as int, (key, value));
                }
                let slot = vstd::std_specs::vec::vec_index_mut(&mut self.entries, i);
                *slot = (key, value);
            },
            None => {
                proof {
                    lemma_store_map_contains(self.entries@, key@);
                    assert(store_map(self.entries@.push((key, value))) =~= store_map(
                        self.entries@,
                    ).insert(key@, value@)) by {
                        assert(self.entries@.push((key, value)).drop_last() =~= self.entries@);
                    }
                }
                self.entries.push((key, value));
            },
        }
    }

    /// Drop `key` if it is present; an absent key is left alone.
    pub fn remove(&mut self, key: &str)
        requires
            old(self).inv(),
        ensures
            final(self).inv(),
            final(self)@ == old(self)@.remove(key@),
    {
        let owned = key.to_owned();
        match self.find(&owned) {
            Some(i) => {
                proof {
                    lemma_store_map_remove(self.entries@, i as int);
                }
                self.entries.remove(i);
            },
            None => {
                proof {
                    lemma_store_map_contains(self.entries@, key@);
                    assert(self@ =~= self@.remove(key@));
                }
            },
        }
    }

    /// Forget every binding.
    pub fn clear(&mut self)
        requires
            old(self).inv(),
        ensures
            final(self).inv(),
            final(self)@ == Map::<Seq<char>, Seq<char>>::empty(),
    {
        self.entries.clear();
    }

    /// The value bound to `key`, or nothing.
    pub fn get(&self, key: &str) -> (r: Option<&str>)
        requires
            self.inv(),
        ensures
            match r {
                Some(v) => self@.contains_key(key@) && v@ == self@[key@],
                None => !self@.contains_key(key@),
            },
    {
        let owned = key.to_owned();
        proof {
            lemma_store_map_contains(self.entries@, key@);
        }
        match self.find(&owned) {
            Some(i) => {
                proof {
                    lemma_store_map_at(self.entries@, i as int);
                }
                Some(self.entries[i].1.as_str())
            },
            None => None,
        }
    }

    /// The store's pairs, for persisting; they carry no key twice and
    /// stand for exactly the store's map.
    pub fn pairs(&self) -> (r: &Vec<(String, String)>)
        requires
            self.inv(),
        ensures
            store_unique(r@),
            store_map(r@) == self@,
    {
        &self.entries
    }
}

} // verus!
