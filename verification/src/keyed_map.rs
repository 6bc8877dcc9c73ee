use vstd::prelude::*;

use crate::text::{
    chars_of, compare_char_vecs, key_lt, lemma_key_lt_irreflexive,
    lemma_key_lt_transitive, KeyOrder,
};

verus! {

/// A map from string keys to values, kept in ascending key order (the order
/// of `key_lt`, which is the order of `String`), so that walking it by index
/// visits the keys in ascending order, as walking a `BTreeMap` does.
#[derive(Debug)]
pub struct KeyedMap<V> {
    entries: Vec<(String, V)>,
}

/// Whether the keys of `e` ascend strictly.
pub open spec fn keys_ascending<V>(e: Seq<(String, V)>) -> bool {
    forall|i: int, j: int| 0 <= i < j < e.len() ==> key_lt(#[trigger] e[i].0@, #[trigger] e[j].0@)
}

impl<V> KeyedMap<V> {
    /// The keys ascend strictly. Every map keeps this.
    #[verifier::type_invariant]
    pub open spec fn ordered(&self) -> bool {
        forall|i: int, j: int|
            0 <= i < j < self.key_seq().len() ==> key_lt(
                #[trigger] self.key_seq()[i],
                #[trigger] self.key_seq()[j],
            )
    }

    proof fn lemma_ordered_iff(&self)
        ensures
            self.ordered() == keys_ascending(self.entries@),
    {
        if self.ordered() {
            assert forall|i: int, j: int| 0 <= i < j < self.entries@.len() implies key_lt(
                #[trigger] self.entries@[i].0@,
                #[trigger] self.entries@[j].0@,
            ) by {
                assert(self.key_seq()[i] == self.entries@[i].0@);
                assert(self.key_seq()[j] == self.entries@[j].0@);
            }
        }
        if keys_ascending(self.entries@) {
            assert forall|i: int, j: int| 0 <= i < j < self.key_seq().len() implies key_lt(
                #[trigger] self.key_seq()[i],
                #[trigger] self.key_seq()[j],
            ) by {
                assert(self.key_seq()[i] == self.entries@[i].0@);
                assert(self.key_seq()[j] == self.entries@[j].0@);
            }
        }
    }

    /// The keys, in ascending order.
    pub closed spec fn key_seq(&self) -> Seq<Seq<char>> {
        Seq::new(self.entries@.len(), |i: int| self.entries@[i].0@)
    }

    /// The value stored under the `i`-th key.
    pub closed spec fn value_seq(&self) -> Seq<V> {
        Seq::new(self.entries@.len(), |i: int| self.entries@[i].1)
    }

    /// The value stored under `k`, where `k` is one of the keys.
    pub open spec fn value_of(&self, k: Seq<char>) -> V {
        self.value_seq()[self.key_seq().index_of(k)]
    }

    /// The map as a mathematical map from keys to values.
    pub open spec fn as_map(&self) -> Map<Seq<char>, V> {
        Map::new(|k: Seq<char>| self.key_seq().contains(k), |k: Seq<char>| self.value_of(k))
    }

    proof fn lemma_index_of(&self, i: int)
        requires
            self.ordered(),
            0 <= i < self.entries@.len(),
        ensures
            self.key_seq().index_of(self.entries@[i].0@) == i,
            self.key_seq().contains(self.entries@[i].0@),
            self.value_of(self.entries@[i].0@) == self.entries@[i].1,
    {
        self.lemma_ordered_iff();
        let ks = self.key_seq();
        assert(ks[i] == self.entries@[i].0@);
        assert(ks.contains(ks[i]));
        let j = ks.index_of(ks[i]);
        if j != i {
            if j < i {
                assert(key_lt(self.entries@[j].0@, self.entries@[i].0@));
            } else {
                assert(key_lt(self.entries@[i].0@, self.entries@[j].0@));
            }
            lemma_key_lt_irreflexive(ks[i]);
        }
    }

    /// The keys are exactly the keys of `as_map`.
    pub proof fn lemma_keys(&self)
        requires
            self.ordered(),
        ensures
            forall|i: int|
                0 <= i < self.key_seq().len() ==> #[trigger] self.as_map().contains_key(
                    self.key_seq()[i],
                ) && self.as_map()[self.key_seq()[i]] == self.value_seq()[i],
            forall|k: Seq<char>| #[trigger]
                self.as_map().contains_key(k) <==> self.key_seq().contains(k),
            self.value_seq().len() == self.key_seq().len(),
    {
        assert forall|i: int|
            0 <= i < self.key_seq().len() implies #[trigger] self.as_map().contains_key(
                self.key_seq()[i],
            ) && self.as_map()[self.key_seq()[i]] == self.value_seq()[i] by {
            self.lemma_index_of(i);
        }
    }

    /// An empty map.
    pub fn new() -> (m: Self)
        ensures
            m.as_map() == Map::<Seq<char>, V>::empty(),
            m.key_seq().len() == 0,
    {
        let m = KeyedMap { entries: Vec::new() };
        assert(m.as_map() =~= Map::<Seq<char>, V>::empty());
        m
    }

    /// The number of keys.
    pub fn len(&self) -> (n: usize)
        ensures
            n == self.key_seq().len(),
            self.ordered(),
    {
        proof {
            use_type_invariant(self);
        }
        self.entries.len()
    }

    /// The `i`-th key in ascending order, and its value.
    pub fn entry_at(&self, i: usize) -> (r: (&String, &V))
        requires
            i < self.key_seq().len(),
        ensures
            r.0@ == self.key_seq()[i as int],
            *r.1 == self.value_seq()[i as int],
    {
        let e = &self.entries[i];
        (&e.0, &e.1)
    }

    /// The first index whose key is not below `key`, and whether it holds `key`.
    fn position(&self, key: &Vec<char>) -> (r: (usize, bool))
        ensures
            r.0 <= self.entries@.len(),
            forall|j: int| 0 <= j < r.0 ==> key_lt(#[trigger] self.entries@[j].0@, key@),
            r.1 ==> r.0 < self.entries@.len() && self.entries@[r.0 as int].0@ == key@,
            !r.1 ==> forall|j: int|
                r.0 <= j < self.entries@.len() ==> key_lt(key@, #[trigger] self.entries@[j].0@),
    {
        proof {
            use_type_invariant(self);
            self.lemma_ordered_iff();
        }
        let mut i: usize = 0;
        while i < self.entries.len()
            invariant
                i <= self.entries@.len(),
                keys_ascending(self.entries@),
                forall|j: int| 0 <= j < i ==> key_lt(#[trigger] self.entries@[j].0@, key@),
            decreases self.entries.len() - i,
        {
            let k = chars_of(self.entries[i].0.as_str());
            match compare_char_vecs(&k, key) {
                KeyOrder::Less => {
                    i = i + 1;
                },
                KeyOrder::Equal => {
                    return (i, true);
                },
                KeyOrder::Greater => {
                    assert forall|j: int| i <= j < self.entries@.len() implies key_lt(
                        key@,
                        #[trigger] self.entries@[j].0@,
                    ) by {
                        if j > i {
                            lemma_key_lt_transitive(key@, self.entries@[i as int].0@, self.entries@[j].0@);
                        }
                    }
                    return (i, false);
                },
            }
        }
        (i, false)
    }

    proof fn lemma_absent(&self, key: Seq<char>, p: int)
        requires
            0 <= p <= self.entries@.len(),
            forall|j: int| 0 <= j < p ==> key_lt(#[trigger] self.entries@[j].0@, key),
            forall|j: int| p <= j < self.entries@.len() ==> key_lt(key, #[trigger] self.entries@[j].0@),
        ensures
            !self.key_seq().contains(key),
    {
        if self.key_seq().contains(key) {
            let j = choose|j: int| 0 <= j < self.key_seq().len() && self.key_seq()[j] == key;
            assert(self.entries@[j].0@ == key);
            lemma_key_lt_irreflexive(key);
        }
    }

    /// Whether `key` is one of the keys.
    pub fn contains_key(&self, key: &str) -> (b: bool)
        ensures
            b == self.as_map().contains_key(key@),
    {
        let k = chars_of(key);
        let (p, found) = self.position(&k);
        proof {
            use_type_invariant(self);
            if found {
                self.lemma_index_of(p as int);
            } else {
                self.lemma_absent(key@, p as int);
            }
        }
        found
    }

    /// The value stored under `key`, if any.
    pub fn get(&self, key: &str) -> (r: Option<&V>)
        ensures
            r is Some == self.as_map().contains_key(key@),
            r matches Some(v) ==> *v == self.as_map()[key@],
    {
        let k = chars_of(key);
        let (p, found) = self.position(&k);
        proof {
            use_type_invariant(self);
            if found {
                self.lemma_index_of(p as int);
            } else {
                self.lemma_absent(key@, p as int);
            }
        }
        if found {
            Some(&self.entries[p].1)
        } else {
            None
        }
    }

    /// Removes `key` and hands back its value, if it was there.
    pub fn remove(&mut self, key: &str) -> (r: Option<V>)
        ensures
            final(self).as_map() == old(self).as_map().remove(key@),
            r is Some == old(self).as_map().contains_key(key@),
            r matches Some(v) ==> v == old(self).as_map()[key@],
    {
        proof {
            use_type_invariant(&*self);
            self.lemma_ordered_iff();
        }
        let k = chars_of(key);
        let (p, found) = self.position(&k);
        let ghost old_self = *self;
        if !found {
            proof {
                self.lemma_absent(key@, p as int);
                assert(self.as_map() =~= self.as_map().remove(key@));
            }
            return None;
        }
        proof {
            self.lemma_index_of(p as int);
        }
        let mut entries: Vec<(String, V)> = Vec::new();
        std::mem::swap(&mut entries, &mut self.entries);
        let (_, v) = entries.remove(p);
        assert(keys_ascending(entries@)) by {
            assert forall|i: int, j: int| 0 <= i < j < entries@.len() implies key_lt(
                #[trigger] entries@[i].0@,
                #[trigger] entries@[j].0@,
            ) by {
                let oi = if i < p { i } else { i + 1 };
                let oj = if j < p { j } else { j + 1 };
                assert(entries@[i] == old_self.entries@[oi]);
                assert(entries@[j] == old_self.entries@[oj]);
            }
        }
        proof {
            let new_self = KeyedMap { entries };
            new_self.lemma_ordered_iff();
        }
        self.entries = entries;
        proof {
            let new_self = *self;
            assert(new_self.entries@ == old_self.entries@.remove(p as int));
            assert forall|kk: Seq<char>| #[trigger] new_self.key_seq().contains(kk) <==> old_self.key_seq().contains(kk) && kk != key@ by {
                if new_self.key_seq().contains(kk) {
                    let i = choose|i: int| 0 <= i < new_self.key_seq().len() && new_self.key_seq()[i] == kk;
                    let oi = if i < p { i } else { i + 1 };
                    assert(old_self.key_seq()[oi] == kk);
                    if kk == key@ {
                        old_self.lemma_index_of(oi);
                    }
                }
                if old_self.key_seq().contains(kk) && kk != key@ {
                    let oi = choose|i: int| 0 <= i < old_self.key_seq().len() && old_self.key_seq()[i] == kk;
                    assert(oi != p);
                    let i = if oi < p { oi } else { oi - 1 };
                    assert(new_self.key_seq()[i] == kk);
                }
            }
            assert forall|kk: Seq<char>| #[trigger] new_self.key_seq().contains(kk) implies new_self.value_of(kk) == old_self.value_of(kk) by {
                let i = new_self.key_seq().index_of(kk);
                new_self.lemma_index_of(i);
                let oi = if i < p { i } else { i + 1 };
                old_self.lemma_index_of(oi);
            }
            assert(new_self.as_map() =~= old_self.as_map().remove(key@));
        }
        Some(v)
    }

    /// Stores `value` under `key`, replacing any value that was there.
    pub fn insert(&mut self, key: String, value: V)
        ensures
            final(self).as_map() == old(self).as_map().insert(key@, value),
    {
        proof {
            use_type_invariant(&*self);
            self.lemma_ordered_iff();
        }
        let k = chars_of(key.as_str());
        let (p, found) = self.position(&k);
        let ghost old_self = *self;
        let ghost kv = key@;
        let mut entries: Vec<(String, V)> = Vec::new();
        std::mem::swap(&mut entries, &mut self.entries);
        if found {
            entries.set(p, (key, value));
        } else {
            entries.insert(p, (key, value));
        }
        assert(keys_ascending(entries@)) by {
            assert forall|i: int, j: int| 0 <= i < j < entries@.len() implies key_lt(
                #[trigger] entries@[i].0@,
                #[trigger] entries@[j].0@,
            ) by {
                if found {
                    if i == p {
                        assert(entries@[i].0@ == old_self.entries@[i].0@);
                    }
                    if j == p {
                        assert(entries@[j].0@ == old_self.entries@[j].0@);
                    }
                    assert(key_lt(old_self.entries@[i].0@, old_self.entries@[j].0@));
                } else {
                    let oi = if i < p { i } else { i - 1 };
                    let oj = if j < p { j } else { j - 1 };
                    if i != p && j != p {
                        assert(entries@[i] == old_self.entries@[oi]);
                        assert(entries@[j] == old_self.entries@[oj]);
                    } else if i == p {
                        assert(entries@[j] == old_self.entries@[oj]);
                    } else {
                        assert(entries@[i] == old_self.entries@[oi]);
                    }
                }
            }
        }
        proof {
            let new_self = KeyedMap { entries };
            new_self.lemma_ordered_iff();
        }
        self.entries = entries;
        proof {
            let new_self = *self;
            assert forall|kk: Seq<char>| #[trigger] new_self.key_seq().contains(kk) <==> old_self.key_seq().contains(kk) || kk == kv by {
                if new_self.key_seq().contains(kk) && kk != kv {
                    let i = choose|i: int| 0 <= i < new_self.key_seq().len() && new_self.key_seq()[i] == kk;
                    let oi = if found || i < p { i } else { i - 1 };
                    assert(old_self.key_seq()[oi] == kk);
                }
                if old_self.key_seq().contains(kk) {
                    let oi = choose|i: int| 0 <= i < old_self.key_seq().len() && old_self.key_seq()[i] == kk;
                    let i = if found || oi < p { oi } else { oi + 1 };
                    assert(new_self.key_seq()[i] == kk);
                }
                if kk == kv {
                    assert(new_self.key_seq()[p as int] == kk);
                }
            }
            assert forall|kk: Seq<char>| #[trigger] new_self.key_seq().contains(kk) implies new_self.value_of(kk) == old_self.as_map().insert(kv, value)[kk] by {
                let i = new_self.key_seq().index_of(kk);
                new_self.lemma_index_of(i);
                if kk != kv {
                    let oi = if found || i < p { i } else { i - 1 };
                    old_self.lemma_index_of(oi);
                } else {
                    new_self.lemma_index_of(p as int);
                }
            }
            assert(new_self.as_map() =~= old_self.as_map().insert(kv, value));
        }
    }
}

} // verus!
