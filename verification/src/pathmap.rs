//! A map keyed by paths that remembers the order in which keys were added.

use crate::text::same_text;
use vstd::prelude::*;

verus! {

/// What a [`PathMap`] holds: a value for each key, and the keys in the order
/// in which they were added.
pub struct Shelf<V> {
    pub map: Map<Seq<char>, V>,
    pub order: Seq<Seq<char>>,
}

impl<V> Shelf<V> {
    pub open spec fn empty() -> Shelf<V> {
        Shelf { map: Map::empty(), order: Seq::empty() }
    }

    /// The keys stand in `order` once each.
    pub open spec fn wf(self) -> bool {
        &&& self.order.no_duplicates()
        &&& forall|k: Seq<char>| self.map.contains_key(k) <==> self.order.contains(k)
    }

    pub open spec fn has(self, k: Seq<char>) -> bool {
        self.map.contains_key(k)
    }

    pub open spec fn get(self, k: Seq<char>) -> Option<V> {
        if self.map.contains_key(k) {
            Some(self.map[k])
        } else {
            None
        }
    }

    /// `v` under `k`; a key that was there keeps its place.
    pub open spec fn set(self, k: Seq<char>, v: V) -> Shelf<V> {
        Shelf {
            map: self.map.insert(k, v),
            order: if self.map.contains_key(k) {
                self.order
            } else {
                self.order.push(k)
            },
        }
    }

    /// Without the key `k`.
    pub open spec fn unset(self, k: Seq<char>) -> Shelf<V> {
        if self.map.contains_key(k) {
            Shelf { map: self.map.remove(k), order: self.order.remove(self.order.index_of(k)) }
        } else {
            self
        }
    }

    /// Setting a key keeps every other key.
    pub proof fn set_wf(self, k: Seq<char>, v: V)
        requires
            self.wf(),
        ensures
            self.set(k, v).wf(),
    {
        let s = self.set(k, v);
        assert forall|x: Seq<char>| s.map.contains_key(x) <==> s.order.contains(x) by {
            if !self.map.contains_key(k) {
                if s.order.contains(x) {
                    let i = choose|i: int| 0 <= i < s.order.len() && s.order[i] == x;
                    if i < self.order.len() {
                        assert(self.order[i] == x);
                    }
                }
                if self.order.contains(x) {
                    let i = choose|i: int| 0 <= i < self.order.len() && self.order[i] == x;
                    assert(s.order[i] == x);
                }
                assert(s.order[self.order.len() as int] == k);
            }
        }
        assert(s.order.no_duplicates()) by {
            if !self.map.contains_key(k) {
                assert(!self.order.contains(k));
            }
        }
    }

    /// Unsetting a key keeps every other key.
    pub proof fn unset_wf(self, k: Seq<char>)
        requires
            self.wf(),
        ensures
            self.unset(k).wf(),
    {
        if self.map.contains_key(k) {
            let s = self.unset(k);
            let n = self.order.index_of(k);
            assert(self.order.contains(k));
            assert(0 <= n < self.order.len() && self.order[n] == k);
            assert forall|x: Seq<char>| s.map.contains_key(x) <==> s.order.contains(x) by {
                if s.order.contains(x) {
                    let i = choose|i: int| 0 <= i < s.order.len() && s.order[i] == x;
                    let j = if i < n { i } else { i + 1 };
                    assert(self.order[j] == x);
                    assert(self.order.contains(x));
                    assert(j != n);
                }
                if self.map.contains_key(x) && x != k {
                    assert(self.order.contains(x));
                    let j = choose|j: int| 0 <= j < self.order.len() && self.order[j] == x;
                    let i = if j < n { j } else { j - 1 };
                    assert(s.order[i] == x);
                }
            }
            assert forall|i: int, j: int| 0 <= i < s.order.len() && 0 <= j < s.order.len() && i
                != j implies s.order[i] != s.order[j] by {
                let a = if i < n { i } else { i + 1 };
                let b = if j < n { j } else { j + 1 };
                assert(self.order[a] != self.order[b]);
            }
        }
    }
}

/// A map from paths to values.
pub struct PathMap<V> {
    keys: Vec<String>,
    values: Vec<V>,
}

impl<V: View> View for PathMap<V> {
    type V = Shelf<V::V>;

    closed spec fn view(&self) -> Shelf<V::V> {
        Shelf {
            map: Map::new(
                |k: Seq<char>| self.key_views().contains(k),
                |k: Seq<char>| self.values@[self.key_views().index_of(k)]@,
            ),
            order: self.key_views(),
        }
    }
}

impl<V> PathMap<V> {
    spec fn key_views(&self) -> Seq<Seq<char>> {
        self.keys@.map_values(|k: String| k@)
    }

    /// As many values as keys, and no key twice.
    pub closed spec fn wf(&self) -> bool {
        &&& self.keys@.len() == self.values@.len()
        &&& self.key_views().no_duplicates()
    }
}

impl<V: View> PathMap<V> {
    proof fn lemma_at(&self, i: int)
        requires
            self.wf(),
            0 <= i < self.keys@.len(),
        ensures
            self@.has(self.keys@[i]@),
            self@.map[self.keys@[i]@] == self.values@[i]@,
            self@.order[i] == self.keys@[i]@,
            self@.order.index_of(self.keys@[i]@) == i,
    {
        assert(self.key_views()[i] == self.keys@[i]@);
        let j = self.key_views().index_of(self.keys@[i]@);
        assert(self.key_views().contains(self.keys@[i]@));
        assert(0 <= j < self.key_views().len() && self.key_views()[j] == self.keys@[i]@);
        assert(i == j);
    }

    /// What is held is well formed.
    pub proof fn lemma_wf(&self)
        requires
            self.wf(),
        ensures
            self@.wf(),
    {
    }

    /// A map that holds nothing.
    pub fn new() -> (r: PathMap<V>)
        ensures
            r.wf(),
            r@ == Shelf::<V::V>::empty(),
    {
        let r: PathMap<V> = PathMap { keys: Vec::new(), values: Vec::new() };
        proof {
            assert(r.key_views() =~= Seq::empty());
            assert(r@.map =~= Map::empty());
        }
        r
    }

    /// How many keys there are.
    pub fn len(&self) -> (r: usize)
        requires
            self.wf(),
        ensures
            r == self@.order.len(),
    {
        self.keys.len()
    }

    /// The key that was added as number `i`.
    pub fn key_at(&self, i: usize) -> (r: &String)
        requires
            self.wf(),
            i < self@.order.len(),
        ensures
            r@ == self@.order[i as int],
            self@.has(r@),
    {
        proof {
            self.lemma_at(i as int);
        }
        &self.keys[i]
    }

    /// The value under the key that was added as number `i`.
    pub fn value_at(&self, i: usize) -> (r: &V)
        requires
            self.wf(),
            i < self@.order.len(),
        ensures
            r@ == self@.map[self@.order[i as int]],
    {
        proof {
            self.lemma_at(i as int);
        }
        &self.values[i]
    }

    fn position(&self, key: &str) -> (r: Option<usize>)
        requires
            self.wf(),
        ensures
            match r {
                Some(i) => i < self.keys@.len() && self.keys@[i as int]@ == key@,
                None => !self@.has(key@),
            },
    {
        let mut i: usize = 0;
        while i < self.keys.len()
            invariant
                i <= self.keys@.len(),
                forall|j: int| 0 <= j < i ==> self.keys@[j]@ != key@,
            decreases self.keys@.len() - i,
        {
            if same_text(self.keys[i].as_str(), key) {
                return Some(i);
            }
            i += 1;
        }
        proof {
            if self.key_views().contains(key@) {
                let j = choose|j: int| 0 <= j < self.key_views().len() && self.key_views()[j] == key@;
                assert(self.keys@[j]@ == key@);
            }
        }
        None
    }

    /// Whether there is a value under `key`.
    pub fn contains_key(&self, key: &str) -> (r: bool)
        requires
            self.wf(),
        ensures
            r == self@.has(key@),
    {
        match self.position(key) {
            Some(i) => {
                proof {
                    self.lemma_at(i as int);
                }
                true
            },
            None => false,
        }
    }

    /// The value under `key`.
    pub fn get(&self, key: &str) -> (r: Option<&V>)
        requires
            self.wf(),
        ensures
            match r {
                Some(v) => self@.get(key@) == Some(v@),
                None => self@.get(key@) is None,
            },
    {
        match self.position(key) {
            Some(i) => {
                proof {
                    self.lemma_at(i as int);
                }
                Some(&self.values[i])
            },
            None => None,
        }
    }

    /// Puts `value` under `key`, in place of what stood there.
    pub fn insert(&mut self, key: String, value: V)
        requires
            old(self).wf(),
        ensures
            final(self).wf(),
            final(self)@ == old(self)@.set(key@, value@),
    {
        let ghost before = *self;
        match self.position(key.as_str()) {
            Some(i) => {
                proof {
                    before.lemma_at(i as int);
                }
                self.values.set(i, value);
                proof {
                    assert(self.key_views() =~= before.key_views());
                    assert forall|k: Seq<char>| self@.map.contains_key(k) implies self@.map[k]
                        == before@.map.insert(key@, value@)[k] by {
                        let j = self.key_views().index_of(k);
                        assert(self.keys@[j]@ == k);
                        before.lemma_at(j);
                    }
                    assert(self@.map =~= before@.map.insert(key@, value@));
                }
            },
            None => {
                let ghost kv = key@;
                self.keys.push(key);
                self.values.push(value);
                proof {
                    assert(self.key_views() =~= before.key_views().push(kv));
                    assert(!before.key_views().contains(kv));
                    assert(self.wf());
                    self.lemma_at(self.keys@.len() - 1);
                    assert forall|k: Seq<char>| #[trigger]
                        self@.map.contains_key(k) <==> before@.map.insert(
                        kv,
                        value@,
                    ).contains_key(k) by {
                        if before.key_views().contains(k) {
                            let j = choose|j: int|
                                0 <= j < before.key_views().len() && before.key_views()[j] == k;
                            assert(self.key_views()[j] == k);
                        }
                        if self.key_views().contains(k) {
                            let j = choose|j: int|
                                0 <= j < self.key_views().len() && self.key_views()[j] == k;
                            if j < before.key_views().len() {
                                assert(before.key_views()[j] == k);
                            }
                        }
                    }
                    assert forall|k: Seq<char>| #[trigger] self@.map.contains_key(k) implies self@.map[k]
                        == before@.map.insert(kv, value@)[k] by {
                        if k != kv {
                            let j = before.key_views().index_of(k);
                            assert(before.key_views().contains(k));
                            assert(before.keys@[j]@ == k);
                            before.lemma_at(j);
                            self.lemma_at(j);
                        }
                    }
                    assert(self@.map =~= before@.map.insert(kv, value@));
                }
            },
        }
    }

    /// Takes the value under `key` out.
    pub fn remove(&mut self, key: &str) -> (r: Option<V>)
        requires
            old(self).wf(),
        ensures
            final(self).wf(),
            final(self)@ == old(self)@.unset(key@),
            match r {
                Some(v) => old(self)@.get(key@) == Some(v@),
                None => old(self)@.get(key@) is None,
            },
    {
        let ghost before = *self;
        match self.position(key) {
            Some(i) => {
                proof {
                    before.lemma_at(i as int);
                }
                let _gone = self.keys.remove(i);
                let v = self.values.remove(i);
                proof {
                    let n = i as int;
                    assert(self.key_views() =~= before.key_views().remove(n));
                    assert forall|a: int, b: int| 0 <= a < self.key_views().len() && 0 <= b
                        < self.key_views().len() && a != b implies self.key_views()[a]
                        != self.key_views()[b] by {
                        let a1 = if a < n { a } else { a + 1 };
                        let b1 = if b < n { b } else { b + 1 };
                        assert(before.key_views()[a1] != before.key_views()[b1]);
                    }
                    assert(self.wf());
                    assert forall|k: Seq<char>| #[trigger]
                        self@.map.contains_key(k) <==> before@.map.remove(key@).contains_key(k) by {
                        if self.key_views().contains(k) {
                            let j = choose|j: int|
                                0 <= j < self.key_views().len() && self.key_views()[j] == k;
                            let j1 = if j < n { j } else { j + 1 };
                            assert(before.key_views()[j1] == k);
                            assert(before.key_views()[n] == key@);
                        }
                        if before.key_views().contains(k) && k != key@ {
                            let j1 = choose|j: int|
                                0 <= j < before.key_views().len() && before.key_views()[j] == k;
                            let j = if j1 < n { j1 } else { j1 - 1 };
                            assert(self.key_views()[j] == k);
                        }
                    }
                    assert forall|k: Seq<char>| #[trigger] self@.map.contains_key(k) implies self@.map[k]
                        == before@.map.remove(key@)[k] by {
                        let j = self.key_views().index_of(k);
                        assert(self.key_views().contains(k));
                        assert(self.keys@[j]@ == k);
                        self.lemma_at(j);
                        let j1 = if j < n { j } else { j + 1 };
                        assert(before.keys@[j1]@ == k);
                        before.lemma_at(j1);
                    }
                    assert(self@.map =~= before@.map.remove(key@));
                }
                Some(v)
            },
            None => None,
        }
    }
}

} // verus!
