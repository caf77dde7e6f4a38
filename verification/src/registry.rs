//! A map from text keys to values, kept as a list of distinct keys.

use vstd::prelude::*;
use vstd::seq_lib::seq_to_set_is_finite;

verus! {

/// Text key -> value, with the keys kept in a list without repetition.
pub struct Registry<V> {
    entries: Vec<(String, V)>,
    model: Ghost<Map<Seq<char>, V>>,
}

impl<V> View for Registry<V> {
    type V = Map<Seq<char>, V>;

    closed spec fn view(&self) -> Map<Seq<char>, V> {
        self.model@
    }
}

impl<V> Registry<V> {
    /// The list matches the map: keys distinct, one entry per key.
    pub closed spec fn wf(&self) -> bool {
        &&& forall|i: int, j: int|
            0 <= i < j < self.entries@.len() ==> #[trigger] self.entries@[i].0@ != #[trigger] self.entries@[j].0@
        &&& forall|i: int|
            0 <= i < self.entries@.len() ==> #[trigger] self.model@.contains_key(self.entries@[i].0@)
                && self.model@[self.entries@[i].0@] == self.entries@[i].1
        &&& forall|k: Seq<char>|
            #[trigger] self.model@.contains_key(k) ==> exists|i: int| 0 <= i < self.entries@.len() && #[trigger] self.entries@[i].0@ == k
    }

    /// The key at position `i`.
    pub closed spec fn key_at(&self, i: int) -> Seq<char> {
        self.entries@[i].0@
    }

    /// The keys, in list order.
    pub closed spec fn keys(&self) -> Seq<Seq<char>> {
        self.entries@.map_values(|e: (String, V)| e.0@)
    }

    /// An empty registry.
    pub fn new() -> (r: Registry<V>)
        ensures
            r.wf(),
            r@ == Map::<Seq<char>, V>::empty(),
    {
        Registry { entries: Vec::new(), model: Ghost(Map::empty()) }
    }

    /// The keys are the map's domain, each once.
    pub proof fn lemma_keys(&self)
        requires
            self.wf(),
        ensures
            self.keys().len() == self@.len(),
            self.keys().no_duplicates(),
            self.keys().to_set() == self@.dom(),
            forall|i: int| 0 <= i < self.keys().len() ==> #[trigger] self.keys()[i] == self.key_at(i),
            forall|i: int| 0 <= i < self@.len() ==> #[trigger] self@.contains_key(self.key_at(i)),
            self@.dom().finite(),
    {
        let keys = self.keys();
        assert forall|i: int, j: int| 0 <= i < keys.len() && 0 <= j < keys.len() && i != j implies keys[i] != keys[j] by {
            if i < j {
                assert(self.entries@[i].0@ != self.entries@[j].0@);
            } else {
                assert(self.entries@[j].0@ != self.entries@[i].0@);
            }
        }
        keys.unique_seq_to_set();
        assert(keys.to_set() =~= self.model@.dom()) by {
            assert forall|k: Seq<char>| keys.to_set().contains(k) implies self.model@.contains_key(k) by {
                let i = choose|i: int| 0 <= i < keys.len() && keys[i] == k;
                assert(self.model@.contains_key(self.entries@[i].0@));
            }
            assert forall|k: Seq<char>| self.model@.contains_key(k) implies keys.to_set().contains(k) by {
                let i = choose|i: int| 0 <= i < self.entries@.len() && #[trigger] self.entries@[i].0@ == k;
                assert(keys[i] == k);
            }
        }
        assert forall|i: int| 0 <= i < self@.len() implies #[trigger] self@.contains_key(self.key_at(i)) by {
            assert(self.model@.contains_key(self.entries@[i].0@));
        }
        seq_to_set_is_finite(keys);
    }

    /// Distinct positions hold distinct keys.
    pub proof fn lemma_key_at_distinct(&self, i: int, j: int)
        requires
            self.wf(),
            0 <= i < self@.len(),
            0 <= j < self@.len(),
            i != j,
        ensures
            self.key_at(i) != self.key_at(j),
    {
        self.lemma_keys();
        if i < j {
            assert(self.entries@[i].0@ != self.entries@[j].0@);
        } else {
            assert(self.entries@[j].0@ != self.entries@[i].0@);
        }
    }

    /// Every key sits at some position.
    pub proof fn lemma_key_position(&self, k: Seq<char>) -> (j: int)
        requires
            self.wf(),
            self@.contains_key(k),
        ensures
            0 <= j < self@.len(),
            self.key_at(j) == k,
    {
        self.lemma_keys();
        let j = choose|j: int| 0 <= j < self.entries@.len() && #[trigger] self.entries@[j].0@ == k;
        j
    }

    /// The number of keys.
    pub fn len(&self) -> (r: usize)
        requires
            self.wf(),
        ensures
            r == self@.len(),
    {
        proof {
            self.lemma_keys();
        }
        self.entries.len()
    }

    /// The position of `key` in the list, if present.
    pub fn find(&self, key: &String) -> (r: Option<usize>)
        requires
            self.wf(),
        ensures
            match r {
                Some(i) => i < self@.len() && self.key_at(i as int) == key@ && self@.contains_key(key@),
                None => !self@.contains_key(key@),
            },
    {
        proof {
            self.lemma_keys();
            assert(self.entries@.len() == self.keys().len());
        }
        let mut i: usize = 0;
        while i < self.entries.len()
            invariant
                self.wf(),
                self.entries@.len() == self@.len(),
                i <= self.entries@.len(),
                forall|k: int| 0 <= k < i ==> self.entries@[k].0@ != key@,
            decreases self.entries@.len() - i,
        {
            if self.entries[i].0 == *key {
                return Some(i);
            }
            i = i + 1;
        }
        proof {
            if self.model@.contains_key(key@) {
                let j = choose|j: int| 0 <= j < self.entries@.len() && #[trigger] self.entries@[j].0@ == key@;
                assert(self.entries@[j].0@ != key@);
            }
        }
        None
    }

    /// The key and value at position `i`.
    pub fn at(&self, i: usize) -> (r: (&String, &V))
        requires
            self.wf(),
            i < self@.len(),
        ensures
            r.0@ == self.key_at(i as int),
            self@.contains_key(r.0@),
            self@[r.0@] == *r.1,
    {
        proof {
            self.lemma_keys();
            assert(self.model@.contains_key(self.entries@[i as int].0@));
        }
        (&self.entries[i].0, &self.entries[i].1)
    }

    /// Replaces the value at position `i` (whose key is `key`) by `value`.
    pub fn replace_at(&mut self, i: usize, key: Ghost<Seq<char>>, value: V)
        requires
            old(self).wf(),
            i < old(self)@.len(),
            old(self).key_at(i as int) == key@,
        ensures
            final(self).wf(),
            final(self)@ == old(self)@.insert(key@, value),
            final(self)@.len() == old(self)@.len(),
            forall|j: int| 0 <= j < final(self)@.len() ==> #[trigger] final(self).key_at(j) == old(self).key_at(j),
    {
        let _ = self.swap_at(i, key, value);
    }

    /// Puts `value` at position `i` (whose key is `key`) and hands back the
    /// value that was there.
    pub fn swap_at(&mut self, i: usize, key: Ghost<Seq<char>>, value: V) -> (r: V)
        requires
            old(self).wf(),
            i < old(self)@.len(),
            old(self).key_at(i as int) == key@,
        ensures
            final(self).wf(),
            r == old(self)@[key@],
            final(self)@ == old(self)@.insert(key@, value),
            final(self)@.len() == old(self)@.len(),
            forall|j: int| 0 <= j < final(self)@.len() ==> #[trigger] final(self).key_at(j) == old(self).key_at(j),
    {
        proof {
            old(self).lemma_keys();
            assert(old(self).model@.contains_key(old(self).entries@[i as int].0@));
        }
        let (k, old_value) = self.entries.remove(i);
        let ghost v = value;
        self.entries.insert(i, (k, value));
        assert(self.entries@ =~= old(self).entries@.update(i as int, (self.entries@[i as int].0, v)));
        self.model = Ghost(self.model@.insert(key@, v));
        proof {
            let m = self.model@;
            assert(self.entries@[i as int].0@ == key@);
            assert forall|j: int| 0 <= j < self.entries@.len() implies #[trigger] m.contains_key(self.entries@[j].0@)
                && m[self.entries@[j].0@] == self.entries@[j].1 by {
                if j != i {
                    assert(self.entries@[j] == old(self).entries@[j]);
                    assert(old(self).entries@[j].0@ != key@) by {
                        if j < i {
                            assert(old(self).entries@[j].0@ != old(self).entries@[i as int].0@);
                        } else {
                            assert(old(self).entries@[i as int].0@ != old(self).entries@[j].0@);
                        }
                    }
                }
            }
            assert forall|kk: Seq<char>| #[trigger] m.contains_key(kk) implies exists|j: int|
                0 <= j < self.entries@.len() && #[trigger] self.entries@[j].0@ == kk by {
                if kk == key@ {
                    assert(self.entries@[i as int].0@ == kk);
                } else {
                    assert(old(self).model@.contains_key(kk));
                    let j = choose|j: int| 0 <= j < old(self).entries@.len() && #[trigger] old(self).entries@[j].0@ == kk;
                    assert(self.entries@[j].0@ == old(self).entries@[j].0@);
                }
            }
            assert forall|a: int, b: int| 0 <= a < b < self.entries@.len() implies #[trigger] self.entries@[a].0@
                != #[trigger] self.entries@[b].0@ by {
                assert(old(self).entries@[a].0@ != old(self).entries@[b].0@);
                assert(self.entries@[a].0@ == old(self).entries@[a].0@);
                assert(self.entries@[b].0@ == old(self).entries@[b].0@);
            }
            assert forall|j: int| 0 <= j < self.entries@.len() implies #[trigger] self.key_at(j) == old(self).key_at(j) by {
                assert(self.entries@[j].0@ == old(self).entries@[j].0@);
            }
            self.lemma_keys();
            assert(self.keys().len() == old(self).keys().len());
        }
        old_value
    }

    /// Adds `key`, which is not present yet, with `value`.
    pub fn add(&mut self, key: String, value: V)
        requires
            old(self).wf(),
            !old(self)@.contains_key(key@),
        ensures
            final(self).wf(),
            final(self)@ == old(self)@.insert(key@, value),
    {
        let ghost k = key@;
        let ghost v = value;
        self.entries.push((key, value));
        self.model = Ghost(self.model@.insert(k, v));
        proof {
            let n = old(self).entries@.len();
            let m = self.model@;
            assert(self.entries@[n as int].0@ == k);
            assert forall|j: int| 0 <= j < self.entries@.len() implies #[trigger] m.contains_key(self.entries@[j].0@)
                && m[self.entries@[j].0@] == self.entries@[j].1 by {
                if j < n {
                    assert(self.entries@[j] == old(self).entries@[j]);
                    assert(old(self).model@.contains_key(old(self).entries@[j].0@));
                }
            }
            assert forall|kk: Seq<char>| #[trigger] m.contains_key(kk) implies exists|j: int|
                0 <= j < self.entries@.len() && #[trigger] self.entries@[j].0@ == kk by {
                if kk == k {
                    assert(self.entries@[n as int].0@ == kk);
                } else {
                    assert(old(self).model@.contains_key(kk));
                    let j = choose|j: int| 0 <= j < old(self).entries@.len() && #[trigger] old(self).entries@[j].0@ == kk;
                    assert(self.entries@[j] == old(self).entries@[j]);
                }
            }
            assert forall|a: int, b: int| 0 <= a < b < self.entries@.len() implies #[trigger] self.entries@[a].0@
                != #[trigger] self.entries@[b].0@ by {
                if b == n {
                    assert(self.entries@[a] == old(self).entries@[a]);
                    assert(old(self).model@.contains_key(old(self).entries@[a].0@));
                } else {
                    assert(old(self).entries@[a].0@ != old(self).entries@[b].0@);
                }
            }
        }
    }
}

} // verus!
