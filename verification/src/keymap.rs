//! A map keyed by strings that remembers the order in which keys arrived.

use vstd::prelude::*;

verus! {

/// The keys of a list of entries.
pub closed spec fn keys_of<V>(entries: Seq<(String, V)>) -> Seq<Seq<char>> {
    entries.map_values(|e: (String, V)| e.0@)
}

/// Entries with distinct keys, in the order in which their keys were first
/// inserted.
pub struct KeyMap<V> {
    entries: Vec<(String, V)>,
}

impl<V> KeyMap<V> {
    /// The keys, in order.
    pub closed spec fn keys(&self) -> Seq<Seq<char>> {
        keys_of(self.entries@)
    }

    /// The values, in the order of their keys.
    pub closed spec fn values(&self) -> Seq<V> {
        self.entries@.map_values(|e: (String, V)| e.1)
    }

    #[verifier::type_invariant]
    closed spec fn keys_distinct(&self) -> bool {
        self.keys().no_duplicates()
    }

    /// The map from each key to its value.
    pub open spec fn view(&self) -> Map<Seq<char>, V> {
        Map::new(
            |k: Seq<char>| self.keys().contains(k),
            |k: Seq<char>| self.values()[self.keys().index_of(k)],
        )
    }

    /// The keys and the values line up, and no key occurs twice.
    proof fn lemma_shape(&self)
        requires
            self.keys().no_duplicates(),
        ensures
            self.keys().len() == self.values().len(),
            self.keys().no_duplicates(),
            forall|i: int|
                0 <= i < self.keys().len() ==> #[trigger] self@[self.keys()[i]] == self.values()[i],
            forall|i: int| 0 <= i < self.keys().len() ==> self@.contains_key(#[trigger] self.keys()[i]),
            forall|k: Seq<char>| #[trigger] self@.contains_key(k) <==> self.keys().contains(k),
    {
        assert forall|i: int| 0 <= i < self.keys().len() implies #[trigger] self@[self.keys()[i]]
            == self.values()[i] by {
            let k = self.keys()[i];
            assert(self.keys().contains(k));
            let j = self.keys().index_of(k);
            assert(self.keys()[j] == k);
        }
        assert forall|i: int| 0 <= i < self.keys().len() implies self@.contains_key(
            #[trigger] self.keys()[i],
        ) by {
            assert(self.keys().contains(self.keys()[i]));
        }
    }

    /// The keys of the view are exactly the listed keys, each listed once.
    pub fn shape(&self)
        ensures
            self.keys().no_duplicates(),
            self.keys().len() == self.values().len(),
            forall|k: Seq<char>| #[trigger] self@.contains_key(k) <==> self.keys().contains(k),
            forall|i: int| 0 <= i < self.keys().len() ==> #[trigger] self@[self.keys()[i]] == self.values()[i],
    {
        proof {
            use_type_invariant(self);
            self.lemma_shape();
        }
    }

    /// An empty map.
    pub fn new() -> (m: Self)
        ensures
            m.keys() == Seq::<Seq<char>>::empty(),
            m@ == Map::<Seq<char>, V>::empty(),
    {
        let m = KeyMap { entries: Vec::new() };
        assert(m.keys() =~= Seq::<Seq<char>>::empty());
        assert(m@ =~= Map::<Seq<char>, V>::empty());
        m
    }

    /// The number of keys.
    pub fn len(&self) -> (n: usize)
        ensures
            n == self.keys().len(),
    {
        self.entries.len()
    }

    /// Where `key` stands, if it is present.
    pub fn find(&self, key: &String) -> (res: Option<usize>)
        ensures
            match res {
                Some(i) => i < self.keys().len() && self.keys()[i as int] == key@,
                None => !self.keys().contains(key@),
            },
    {
        let mut i: usize = 0;
        while i < self.entries.len()
            invariant
                i <= self.entries@.len(),
                self.keys().len() == self.entries@.len(),
                forall|j: int| 0 <= j < i ==> self.keys()[j] != key@,
            decreases self.entries@.len() - i,
        {
            if self.entries[i].0 == *key {
                return Some(i);
            }
            i = i + 1;
        }
        None
    }

    /// The key at position `i`.
    pub fn key_at(&self, i: usize) -> (k: &String)
        requires
            i < self.keys().len(),
        ensures
            k@ == self.keys()[i as int],
    {
        &self.entries[i].0
    }

    /// The value at position `i`.
    pub fn value_at(&self, i: usize) -> (v: &V)
        requires
            i < self.keys().len(),
        ensures
            *v == self.values()[i as int],
            *v == self@[self.keys()[i as int]],
    {
        proof {
            use_type_invariant(self);
            self.lemma_shape();
        }
        &self.entries[i].1
    }

    /// The value of `key`, if it is present.
    pub fn get(&self, key: &String) -> (res: Option<&V>)
        ensures
            match res {
                Some(v) => self@.contains_key(key@) && *v == self@[key@],
                None => !self@.contains_key(key@),
            },
    {
        proof {
            use_type_invariant(self);
            self.lemma_shape();
        }
        match self.find(key) {
            Some(i) => Some(self.value_at(i)),
            None => None,
        }
    }

    /// Replaces the value at position `i`.
    pub fn set_at(&mut self, i: usize, value: V)
        requires
            i < old(self).keys().len(),
        ensures
            final(self).keys() == old(self).keys(),
            final(self).values() == old(self).values().update(i as int, value),
            final(self)@ == old(self)@.insert(old(self).keys()[i as int], value),
    {
        proof {
            use_type_invariant(&*self);
            self.lemma_shape();
        }
        let ghost old_self = *self;
        let k = self.entries[i].0.clone();
        let mut entries: Vec<(String, V)> = Vec::new();
        std::mem::swap(&mut entries, &mut self.entries);
        entries.set(i, (k, value));
        assert(keys_of(entries@) =~= old_self.keys());
        self.entries = entries;
        assert(self.keys() =~= old_self.keys());
        assert(self.values() =~= old_self.values().update(i as int, value));
        proof {
            self.lemma_shape();
            assert(self@ =~= old_self@.insert(old_self.keys()[i as int], value));
        }
    }

    /// Replaces the value at position `i`, handing back the value it held.
    pub fn replace_at(&mut self, i: usize, value: V) -> (prev: V)
        requires
            i < old(self).keys().len(),
        ensures
            prev == old(self).values()[i as int],
            prev == old(self)@[old(self).keys()[i as int]],
            final(self).keys() == old(self).keys(),
            final(self).values() == old(self).values().update(i as int, value),
            final(self)@ == old(self)@.insert(old(self).keys()[i as int], value),
    {
        proof {
            use_type_invariant(&*self);
            self.lemma_shape();
        }
        let ghost old_self = *self;
        let k = self.entries[i].0.clone();
        let mut entries: Vec<(String, V)> = Vec::new();
        std::mem::swap(&mut entries, &mut self.entries);
        let mut slot = (k, value);
        entries.set_and_swap(i, &mut slot);
        assert(keys_of(entries@) =~= old_self.keys());
        self.entries = entries;
        assert(self.keys() =~= old_self.keys());
        assert(self.values() =~= old_self.values().update(i as int, value));
        proof {
            self.lemma_shape();
            assert(self@ =~= old_self@.insert(old_self.keys()[i as int], value));
        }
        slot.1
    }

    /// Adds `key` with `value` after every present key; `key` must be absent.
    pub fn push(&mut self, key: String, value: V)
        requires
            !old(self).keys().contains(key@),
        ensures
            final(self).keys() == old(self).keys().push(key@),
            final(self).values() == old(self).values().push(value),
            final(self)@ == old(self)@.insert(key@, value),
    {
        proof {
            use_type_invariant(&*self);
            self.lemma_shape();
        }
        let ghost old_self = *self;
        let ghost k = key@;
        let mut entries: Vec<(String, V)> = Vec::new();
        std::mem::swap(&mut entries, &mut self.entries);
        entries.push((key, value));
        assert(keys_of(entries@) =~= old_self.keys().push(k));
        assert(keys_of(entries@).no_duplicates()) by {
            assert forall|a: int, b: int|
                0 <= a < keys_of(entries@).len() && 0 <= b < keys_of(entries@).len() && a != b
                implies keys_of(entries@)[a] != keys_of(entries@)[b] by {
                if a == old_self.keys().len() {
                    assert(old_self.keys()[b] == keys_of(entries@)[b]);
                } else if b == old_self.keys().len() {
                    assert(old_self.keys()[a] == keys_of(entries@)[a]);
                }
            }
        }
        self.entries = entries;
        assert(self.keys() =~= old_self.keys().push(k));
        assert(self.values() =~= old_self.values().push(value));
        proof {
            self.lemma_shape();
            old_self.lemma_shape();
            assert forall|x: Seq<char>| #[trigger] self@.contains_key(x) implies self@[x] == old_self@.insert(k, value)[x] by {
                let j = choose|j: int| 0 <= j < self.keys().len() && self.keys()[j] == x;
                assert(self@[self.keys()[j]] == self.values()[j]);
                if j < old_self.keys().len() {
                    assert(old_self@[old_self.keys()[j]] == old_self.values()[j]);
                }
            }
            assert forall|x: Seq<char>| #[trigger] self@.contains_key(x) <==> old_self@.insert(k, value).contains_key(x) by {
                if old_self.keys().contains(x) {
                    let j = choose|j: int| 0 <= j < old_self.keys().len() && old_self.keys()[j] == x;
                    assert(self.keys()[j] == x);
                }
                if x == k {
                    assert(self.keys()[old_self.keys().len() as int] == x);
                }
                if self.keys().contains(x) {
                    let j = choose|j: int| 0 <= j < self.keys().len() && self.keys()[j] == x;
                    if j < old_self.keys().len() {
                        assert(old_self.keys()[j] == x);
                    }
                }
            }
            assert(self@ =~= old_self@.insert(k, value));
        }
    }

    /// Sets the value of `key`, adding the key at the end if it is absent.
    pub fn insert(&mut self, key: String, value: V)
        ensures
            final(self)@ == old(self)@.insert(key@, value),
            old(self).keys().contains(key@) ==> final(self).keys() == old(self).keys(),
            !old(self).keys().contains(key@) ==> final(self).keys() == old(self).keys().push(
                key@,
            ),
    {
        match self.find(&key) {
            Some(i) => {
                self.set_at(i, value);
            },
            None => {
                self.push(key, value);
            },
        }
    }

    /// Removes `key`, if it is present, keeping the order of the others.
    pub fn remove(&mut self, key: &String)
        ensures
            final(self)@ == old(self)@.remove(key@),
    {
        proof {
            use_type_invariant(&*self);
            self.lemma_shape();
        }
        let ghost old_self = *self;
        match self.find(key) {
            Some(i) => {
                let mut entries: Vec<(String, V)> = Vec::new();
                std::mem::swap(&mut entries, &mut self.entries);
                let _ = entries.remove(i);
                assert(keys_of(entries@) =~= old_self.keys().remove(i as int));
                assert(keys_of(entries@).no_duplicates()) by {
                    assert forall|a: int, b: int|
                        0 <= a < keys_of(entries@).len() && 0 <= b < keys_of(entries@).len() && a
                            != b implies keys_of(entries@)[a] != keys_of(entries@)[b] by {
                        let a2 = if a < i { a } else { a + 1 };
                        let b2 = if b < i { b } else { b + 1 };
                        assert(keys_of(entries@)[a] == old_self.keys()[a2]);
                        assert(keys_of(entries@)[b] == old_self.keys()[b2]);
                    }
                }
                self.entries = entries;
                assert(self.keys() =~= old_self.keys().remove(i as int));
                assert(self.values() =~= old_self.values().remove(i as int));
                proof {
                    self.lemma_shape();
                    assert forall|k: Seq<char>| #[trigger]
                        self@.contains_key(k) <==> old_self@.remove(key@).contains_key(k) by {
                        if self.keys().contains(k) {
                            let j = choose|j: int| 0 <= j < self.keys().len() && self.keys()[j] == k;
                            if j < i {
                                assert(old_self.keys()[j] == k);
                            } else {
                                assert(old_self.keys()[j + 1] == k);
                            }
                        }
                        if old_self@.remove(key@).contains_key(k) {
                            let j = choose|j: int|
                                0 <= j < old_self.keys().len() && old_self.keys()[j] == k;
                            assert(j != i);
                            if j < i {
                                assert(self.keys()[j] == k);
                            } else {
                                assert(self.keys()[j - 1] == k);
                            }
                        }
                    }
                    assert forall|k: Seq<char>| #[trigger] self@.contains_key(k) implies self@[k]
                        == old_self@[k] by {
                        let j = choose|j: int| 0 <= j < self.keys().len() && self.keys()[j] == k;
                        if j < i {
                            assert(old_self.keys()[j] == k);
                        } else {
                            assert(old_self.keys()[j + 1] == k);
                        }
                    }
                    assert(self@ =~= old_self@.remove(key@));
                }
            },
            None => {
                proof {
                    assert(old_self@.remove(key@) =~= old_self@);
                }
            },
        }
    }
}

} // verus!
