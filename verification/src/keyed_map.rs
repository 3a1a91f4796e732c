//! A map kept as a vector of distinct keys with their values; lookups compare
//! keys one by one.

use vstd::prelude::*;

verus! {

/// Keys that can be compared for equality of their views.
pub trait MapKey: Copy + View {
    fn same_key(&self, other: &Self) -> (res: bool)
        ensures
            res == (self@ == other@),
    ;
}

impl MapKey for [u8; 32] {
    fn same_key(&self, other: &Self) -> (res: bool) {
        crate::byte_util::equal32(self, other)
    }
}

pub struct KeyedMap<K, V> {
    entries: Vec<(K, V)>,
}

impl<K: MapKey, V: Copy> View for KeyedMap<K, V> {
    type V = Map<K::V, V>;

    closed spec fn view(&self) -> Map<K::V, V> {
        Map::new(
            |k: K::V| exists|i: int| 0 <= i < self.entries@.len() && self.entries@[i].0@ == k,
            |k: K::V|
                self.entries@[choose|i: int| 0 <= i < self.entries@.len() && self.entries@[i].0@ == k].1,
        )
    }
}

impl<K: MapKey, V: Copy> KeyedMap<K, V> {
    /// No key occurs twice.
    pub closed spec fn wf(&self) -> bool {
        forall|i: int, j: int|
            0 <= i < self.entries@.len() && 0 <= j < self.entries@.len() && i != j
                ==> self.entries@[i].0@ != self.entries@[j].0@
    }

    /// The number of keys.
    pub closed spec fn spec_len(&self) -> nat {
        self.entries@.len()
    }

    /// The keys in the order they were first inserted.
    pub closed spec fn key_seq(&self) -> Seq<K::V> {
        self.entries@.map_values(|e: (K, V)| e.0@)
    }

    proof fn lemma_lookup(&self, i: int)
        requires
            self.wf(),
            0 <= i < self.entries@.len(),
        ensures
            self@.contains_key(self.entries@[i].0@),
            self@[self.entries@[i].0@] == self.entries@[i].1,
    {
        let k = self.entries@[i].0@;
        assert(exists|j: int| 0 <= j < self.entries@.len() && self.entries@[j].0@ == k);
        let j = choose|j: int| 0 <= j < self.entries@.len() && self.entries@[j].0@ == k;
        assert(j == i);
    }

    pub proof fn lemma_len(&self)
        requires
            self.wf(),
        ensures
            self@.dom().finite(),
            self@.dom().len() == self.spec_len(),
            self.key_seq().len() == self.spec_len(),
            self.key_seq().no_duplicates(),
            self.key_seq().to_set() == self@.dom(),
    {
        let ks = self.key_seq();
        assert(ks.no_duplicates());
        assert forall|k: K::V| ks.to_set().contains(k) <==> self@.dom().contains(k) by {
            if ks.to_set().contains(k) {
                let i = choose|i: int| 0 <= i < ks.len() && ks[i] == k;
                self.lemma_lookup(i);
            }
            if self@.dom().contains(k) {
                let i = choose|i: int| 0 <= i < self.entries@.len() && self.entries@[i].0@ == k;
                assert(ks[i] == k);
            }
        }
        assert(ks.to_set() =~= self@.dom());
        ks.unique_seq_to_set();
    }

    pub fn new() -> (res: Self)
        ensures
            res.wf(),
            res@ == Map::<K::V, V>::empty(),
            res.spec_len() == 0,
    {
        let res = KeyedMap { entries: Vec::new() };
        assert(res@ =~= Map::<K::V, V>::empty());
        res
    }

    pub fn len(&self) -> (res: usize)
        ensures
            res == self.spec_len(),
    {
        self.entries.len()
    }

    fn position(&self, key: &K) -> (res: Option<usize>)
        requires
            self.wf(),
        ensures
            match res {
                Some(i) => i < self.entries@.len() && self.entries@[i as int].0@ == key@,
                None => !self@.contains_key(key@),
            },
    {
        let mut i: usize = 0;
        while i < self.entries.len()
            invariant
                i <= self.entries@.len(),
                forall|j: int| 0 <= j < i ==> self.entries@[j].0@ != key@,
            decreases self.entries@.len() - i,
        {
            if self.entries[i].0.same_key(key) {
                return Some(i);
            }
            i = i + 1;
        }
        None
    }

    pub fn get(&self, key: &K) -> (res: Option<V>)
        requires
            self.wf(),
        ensures
            match res {
                Some(v) => self@.contains_key(key@) && self@[key@] == v,
                None => !self@.contains_key(key@),
            },
    {
        match self.position(key) {
            Some(i) => {
                proof {
                    self.lemma_lookup(i as int);
                }
                Some(self.entries[i].1)
            },
            None => None,
        }
    }

    pub fn contains_key(&self, key: &K) -> (res: bool)
        requires
            self.wf(),
        ensures
            res == self@.contains_key(key@),
    {
        match self.position(key) {
            Some(i) => {
                proof {
                    self.lemma_lookup(i as int);
                }
                true
            },
            None => false,
        }
    }

    /// Sets the value of `key`; gives back the value it had before, if any.
    pub fn insert(&mut self, key: K, value: V) -> (res: Option<V>)
        requires
            old(self).wf(),
        ensures
            final(self).wf(),
            final(self)@ == old(self)@.insert(key@, value),
            res == (if old(self)@.contains_key(key@) {
                Some(old(self)@[key@])
            } else {
                None::<V>
            }),
            final(self).key_seq() == (if old(self)@.contains_key(key@) {
                old(self).key_seq()
            } else {
                old(self).key_seq().push(key@)
            }),
    {
        match self.position(&key) {
            Some(i) => {
                proof {
                    self.lemma_lookup(i as int);
                }
                let previous = self.entries[i].1;
                let ghost before = *self;
                self.entries.set(i, (key, value));
                proof {
                    assert forall|k: K::V| #[trigger] self@.contains_key(k) == before@.insert(key@, value).contains_key(k) by {
                        if before@.contains_key(k) {
                            let j = choose|j: int| 0 <= j < before.entries@.len() && before.entries@[j].0@ == k;
                            assert(self.entries@[j].0@ == k);
                        }
                    }
                    assert forall|k: K::V| #[trigger] self@.contains_key(k) implies self@[k] == before@.insert(key@, value)[k] by {
                        let j = choose|j: int| 0 <= j < self.entries@.len() && self.entries@[j].0@ == k;
                        self.lemma_lookup(j);
                        if j != i {
                            before.lemma_lookup(j);
                        }
                    }
                    assert(self@ =~= before@.insert(key@, value));
                    assert(self.key_seq() =~= before.key_seq());
                }
                Some(previous)
            },
            None => {
                let ghost before = *self;
                self.entries.push((key, value));
                proof {
                    let n = before.entries@.len();
                    assert forall|k: K::V| #[trigger] self@.contains_key(k) == before@.insert(key@, value).contains_key(k) by {
                        if before@.contains_key(k) {
                            let j = choose|j: int| 0 <= j < before.entries@.len() && before.entries@[j].0@ == k;
                            assert(self.entries@[j].0@ == k);
                        }
                        if k == key@ {
                            assert(self.entries@[n as int].0@ == k);
                        }
                    }
                    assert forall|k: K::V| #[trigger] self@.contains_key(k) implies self@[k] == before@.insert(key@, value)[k] by {
                        let j = choose|j: int| 0 <= j < self.entries@.len() && self.entries@[j].0@ == k;
                        self.lemma_lookup(j);
                        if j != n {
                            before.lemma_lookup(j);
                        }
                    }
                    assert(self@ =~= before@.insert(key@, value));
                    assert(self.key_seq() =~= before.key_seq().push(key@));
                }
                None
            },
        }
    }

    /// Removes `key`; gives back the value it had, if any.
    pub fn remove(&mut self, key: &K) -> (res: Option<V>)
        requires
            old(self).wf(),
        ensures
            final(self).wf(),
            final(self)@ == old(self)@.remove(key@),
            res == (if old(self)@.contains_key(key@) {
                Some(old(self)@[key@])
            } else {
                None::<V>
            }),
    {
        match self.position(key) {
            Some(i) => {
                proof {
                    self.lemma_lookup(i as int);
                }
                let ghost before = *self;
                let (_, previous) = self.entries.remove(i);
                proof {
                    assert forall|a: int, b: int|
                        0 <= a < self.entries@.len() && 0 <= b < self.entries@.len() && a != b
                            implies self.entries@[a].0@ != self.entries@[b].0@ by {
                        let a2 = if a < i { a } else { a + 1 };
                        let b2 = if b < i { b } else { b + 1 };
                        assert(self.entries@[a] == before.entries@[a2]);
                        assert(self.entries@[b] == before.entries@[b2]);
                    }
                    assert forall|k: K::V| #[trigger] self@.contains_key(k) == before@.remove(key@).contains_key(k) by {
                        if before@.contains_key(k) && k != key@ {
                            let j = choose|j: int| 0 <= j < before.entries@.len() && before.entries@[j].0@ == k;
                            assert(j != i);
                            let j2 = if j < i { j } else { j - 1 };
                            assert(self.entries@[j2].0@ == k);
                        }
                        if self@.contains_key(k) {
                            let j = choose|j: int| 0 <= j < self.entries@.len() && self.entries@[j].0@ == k;
                            let j2 = if j < i { j } else { j + 1 };
                            assert(before.entries@[j2].0@ == k);
                            assert(j2 != i);
                        }
                    }
                    assert forall|k: K::V| #[trigger] self@.contains_key(k) implies self@[k] == before@.remove(key@)[k] by {
                        let j = choose|j: int| 0 <= j < self.entries@.len() && self.entries@[j].0@ == k;
                        self.lemma_lookup(j);
                        let j2 = if j < i { j } else { j + 1 };
                        assert(before.entries@[j2] == self.entries@[j]);
                        before.lemma_lookup(j2);
                    }
                    assert(self@ =~= before@.remove(key@));
                }
                Some(previous)
            },
            None => {
                assert(self@.remove(key@) =~= self@);
                None
            },
        }
    }

    /// The key and value at position `i` in insertion order.
    pub fn entry_at(&self, i: usize) -> (res: (K, V))
        requires
            self.wf(),
            i < self.spec_len(),
        ensures
            res.0@ == self.key_seq()[i as int],
            self@.contains_key(res.0@),
            self@[res.0@] == res.1,
    {
        proof {
            self.lemma_lookup(i as int);
        }
        self.entries[i]
    }
}

} // verus!
