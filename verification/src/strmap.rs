//! An insertion-ordered map keyed by strings.
//!
//! Keys are compared by their characters. The map keeps its entries in the
//! order in which their keys were first inserted, and never holds a key twice.

use vstd::prelude::*;
use crate::text::{first_index, lemma_first_index, lemma_first_index_is, push_new};



verus! {

/// A map from strings to values of `V` that keeps its entries in the order
/// in which their keys were first stored.
pub struct StrMap<V> {
    entries: Vec<(String, V)>,
}

impl<V> StrMap<V> {
    /// No key occurs twice.
    #[verifier::type_invariant]
    pub closed spec fn wf(self) -> bool {
        self.keys().no_duplicates()
    }

    /// The keys, in insertion order.
    pub closed spec fn keys(self) -> Seq<Seq<char>> {
        Seq::new(self.entries@.len(), |i: int| self.entries@[i].0@)
    }

    /// The values, each at the index of its key.
    pub closed spec fn values(self) -> Seq<V> {
        Seq::new(self.entries@.len(), |i: int| self.entries@[i].1)
    }

    /// Whether `k` is a key of the map.
    pub open spec fn has(self, k: Seq<char>) -> bool {
        self.keys().contains(k)
    }

    /// The index of `k` among the keys, or the number of keys where it is absent.
    pub open spec fn position(self, k: Seq<char>) -> int {
        first_index(self.keys(), k)
    }

    /// The value stored under `k`.
    pub open spec fn value_of(self, k: Seq<char>) -> V
        recommends
            self.has(k),
    {
        self.values()[self.position(k)]
    }

    /// The map from each key to its value.
    pub open spec fn as_map(self) -> Map<Seq<char>, V> {
        Map::new(|k: Seq<char>| self.has(k), |k: Seq<char>| self.value_of(k))
    }

    /// Storing a value changes the map of views at the key alone.
    pub proof fn lemma_insert_views(self, after: Self, key: Seq<char>, value: V)
        requires
            after.as_map() == self.as_map().insert(key, value),
        ensures
            after.has(key),
            forall|k: Seq<char>| after.has(k) <==> self.has(k) || k == key,
            forall|k: Seq<char>| self.has(k) && k != key ==> after.value_of(k) == self.value_of(k),
            after.value_of(key) == value,
    {
        assert forall|k: Seq<char>| after.has(k) <==> self.has(k) || k == key by {
            assert(after.as_map().dom().contains(k) <==> after.has(k));
            assert(self.as_map().dom().contains(k) <==> self.has(k));
        }
        assert forall|k: Seq<char>| self.has(k) && k != key implies after.value_of(k)
            == self.value_of(k) by {
            assert(after.as_map()[k] == after.value_of(k));
            assert(self.as_map()[k] == self.value_of(k));
            assert(self.as_map().dom().contains(k));
        }
        assert(after.as_map()[key] == after.value_of(key));
        assert(after.as_map().dom().contains(key) <==> after.has(key));
    }

    /// What holds of every well-formed map.
    pub proof fn lemma_wf(self)
        requires
            self.wf(),
        ensures
            self.keys().len() == self.values().len(),
            self.keys().no_duplicates(),
            forall|i: int|
                0 <= i < self.keys().len() ==> self.position(#[trigger] self.keys()[i]) == i,
            forall|i: int|
                0 <= i < self.keys().len() ==> self.as_map()[#[trigger] self.keys()[i]]
                    == self.values()[i],
    {
        assert forall|i: int| 0 <= i < self.keys().len() implies self.position(
            #[trigger] self.keys()[i],
        ) == i by {
            lemma_first_index_is(self.keys(), self.keys()[i], i);
        }
    }

    /// The empty map.
    pub fn new() -> (m: Self)
        ensures
            m.keys() == Seq::<Seq<char>>::empty(),
            m.values() == Seq::<V>::empty(),
            m.as_map() == Map::<Seq<char>, V>::empty(),
            m.wf(),
    {
        let m = StrMap { entries: Vec::new() };
        assert(m.keys() == Seq::<Seq<char>>::empty());
        assert(m.values() == Seq::<V>::empty());
        assert(m.as_map() =~= Map::<Seq<char>, V>::empty());
        m
    }

    /// The number of entries.
    pub fn len(&self) -> (n: usize)
        ensures
            n == self.keys().len(),
            n == self.values().len(),
            self.wf(),
    {
        proof {
            use_type_invariant(self);
        }
        self.entries.len()
    }

    /// The key at index `i`.
    pub fn key_at(&self, i: usize) -> (k: &String)
        requires
            i < self.keys().len(),
        ensures
            k@ == self.keys()[i as int],
    {
        &self.entries[i].0
    }

    /// The value at index `i`.
    pub fn value_at(&self, i: usize) -> (v: &V)
        requires
            i < self.keys().len(),
        ensures
            *v == self.values()[i as int],
    {
        &self.entries[i].1
    }

    /// The index of `key`, if the map holds it.
    pub fn find(&self, key: &str) -> (r: Option<usize>)
        ensures
            self.wf(),
            match r {
                Some(i) => self.has(key@) && i == self.position(key@) && i < self.keys().len(),
                None => !self.has(key@),
            },
    {
        proof {
            use_type_invariant(self);
        }
        let wanted = key.to_string();
        let mut i: usize = 0;
        while i < self.entries.len()
            invariant
                i <= self.entries.len(),
                wanted@ == key@,
                self.wf(),
                forall|k: int| 0 <= k < i ==> self.keys()[k] != key@,
            decreases self.entries.len() - i,
        {
            if self.entries[i].0 == wanted {
                proof {
                    lemma_first_index_is(self.keys(), key@, i as int);
                    assert(self.keys()[i as int] == key@);
                }
                return Some(i);
            }
            i += 1;
        }
        None
    }

    /// The value stored under `key`, if the map holds it.
    pub fn get(&self, key: &str) -> (r: Option<&V>)
        ensures
            self.wf(),
            match r {
                Some(v) => self.has(key@) && *v == self.value_of(key@),
                None => !self.has(key@),
            },
    {
        match self.find(key) {
            Some(i) => Some(&self.entries[i].1),
            None => None,
        }
    }

    /// Stores `value` under `key`: in place where the map holds the key, at
    /// the end where it does not.
    pub fn insert(&mut self, key: String, value: V)
        ensures
            final(self).wf(),
            old(self).has(key@) ==> final(self).keys() == old(self).keys() && final(self).values()
                == old(self).values().update(old(self).position(key@), value),
            !old(self).has(key@) ==> final(self).keys() == old(self).keys().push(key@)
                && final(self).values() == old(self).values().push(value),
            final(self).keys() == push_new(old(self).keys(), key@),
            final(self).as_map() == old(self).as_map().insert(key@, value),
    {
        proof {
            use_type_invariant(&*self);
        }
        let found = self.find(key.as_str());
        let mut entries: Vec<(String, V)> = Vec::new();
        std::mem::swap(&mut self.entries, &mut entries);
        match found {
            Some(i) => {
                entries.set(i, (key, value));
            },
            None => {
                entries.push((key, value));
            },
        }
        proof {
            let m = StrMap { entries };
            match found {
                Some(i) => {
                    lemma_first_index(old(self).keys(), key@);
                    assert(m.keys() == old(self).keys());
                    assert(m.values() == old(self).values().update(i as int, value));
                },
                None => {
                    assert(m.keys() == old(self).keys().push(key@));
                    assert(m.values() == old(self).values().push(value));
                },
            }
            assert(m.as_map() =~= old(self).as_map().insert(key@, value)) by {
                assert forall|k: Seq<char>| old(self).has(k) && k != key@ implies m.has(k)
                    && m.value_of(k) == old(self).value_of(k) by {
                    lemma_first_index(old(self).keys(), k);
                    let j = old(self).position(k);
                    lemma_first_index_is(m.keys(), k, j);
                    assert(m.keys()[j] == k);
                }
                assert forall|k: Seq<char>| m.has(k) && k != key@ implies old(self).has(k) by {
                    lemma_first_index(m.keys(), k);
                    let j = m.position(k);
                    assert(old(self).keys()[j] == k);
                }
                lemma_first_index(old(self).keys(), key@);
                let at = old(self).position(key@);
                assert(m.keys()[at] == key@);
                lemma_first_index_is(m.keys(), key@, at);
                assert(m.has(key@) && m.value_of(key@) == value);
            }
        }
        std::mem::swap(&mut self.entries, &mut entries);
    }

    /// Exchanges the value at index `i` with `value`.
    pub fn swap_value(&mut self, i: usize, value: &mut V)
        requires
            i < old(self).keys().len(),
        ensures
            final(self).wf(),
            final(self).keys() == old(self).keys(),
            final(self).values() == old(self).values().update(i as int, *old(value)),
            *final(value) == old(self).values()[i as int],
    {
        proof {
            use_type_invariant(&*self);
        }
        let mut entries: Vec<(String, V)> = Vec::new();
        std::mem::swap(&mut self.entries, &mut entries);
        let (key, mut held) = entries.remove(i);
        std::mem::swap(&mut held, value);
        entries.insert(i, (key, held));
        proof {
            let m = StrMap { entries };
            assert(m.keys() == old(self).keys());
            assert(m.values() == old(self).values().update(i as int, *old(value)));
        }
        std::mem::swap(&mut self.entries, &mut entries);
    }
}

impl<V: View> StrMap<V> {
    /// The map from each key to the view of its value.
    pub open spec fn view_map(self) -> Map<Seq<char>, V::V> {
        Map::new(|k: Seq<char>| self.has(k), |k: Seq<char>| self.value_of(k)@)
    }

    /// Storing a value stores its view in the map of views.
    pub proof fn lemma_insert_view_map(self, after: Self, key: Seq<char>, value: V)
        requires
            after.as_map() == self.as_map().insert(key, value),
        ensures
            after.view_map() == self.view_map().insert(key, value@),
    {
        self.lemma_insert_views(after, key, value);
        assert(after.view_map() =~= self.view_map().insert(key, value@));
    }
}

} // verus!
