//! The mathematical model of an LRU cache: a capacity, a finite map from keys
//! to values and the keys in recency order, with the two transitions (insert
//! and lookup) as spec functions and the laws they obey as proof functions.

use crate::seq_facts::{
    lemma_push_no_duplicates, lemma_remove_no_duplicates, lemma_remove_value,
    lemma_remove_value_at,
};
use vstd::prelude::*;
use vstd::seq_lib::seq_to_set_is_finite;

verus! {

/// The abstract state of an LRU cache.
///
/// `order` lists the resident keys from least recently used (front) to most
/// recently used (back).
pub struct LruState<V> {
    /// Upper bound on the number of resident entries; fixed for the cache's life.
    pub capacity: nat,
    /// The live associations.
    pub entries: Map<Seq<char>, V>,
    /// The resident keys, least recently used first.
    pub order: Seq<Seq<char>>,
}

impl<V> LruState<V> {
    /// The state of a freshly built cache.
    pub open spec fn empty(capacity: nat) -> Self {
        LruState { capacity, entries: Map::empty(), order: Seq::empty() }
    }

    /// The invariant that couples the association and the recency order:
    /// every resident key stands exactly once in the order, nothing else
    /// stands there, and the cache holds no more than its capacity.
    pub open spec fn inv(self) -> bool {
        &&& self.order.no_duplicates()
        &&& self.entries.dom() == self.order.to_set()
        &&& self.order.len() <= self.capacity
    }

    /// Number of live associations.
    pub open spec fn size(self) -> nat {
        self.entries.len()
    }

    /// The value a lookup of `key` yields, if any.
    pub open spec fn lookup(self, key: Seq<char>) -> Option<V> {
        if self.entries.contains_key(key) {
            Some(self.entries[key])
        } else {
            None
        }
    }

    /// The recency order after `key` has been used: its old occurrence, if
    /// any, is dropped and it is appended as the most recently used.
    pub open spec fn promoted(self, key: Seq<char>) -> Seq<Seq<char>> {
        self.order.remove_value(key).push(key)
    }

    /// The state after a lookup of `key`: a resident key becomes the most
    /// recently used, an absent key changes nothing.
    pub open spec fn touch(self, key: Seq<char>) -> Self {
        if self.entries.contains_key(key) {
            LruState { order: self.promoted(key), ..self }
        } else {
            self
        }
    }

    /// The key that the next capacity-forcing insert evicts.
    pub open spec fn least_recent(self) -> Seq<char> {
        self.order.first()
    }

    /// The state after inserting `key` with `value`.
    ///
    /// A cache of capacity zero stays empty. Otherwise a resident key gets the
    /// new value and becomes the most recently used, with nothing evicted; an
    /// absent key is added as the most recently used, after the least
    /// recently used entry has been evicted if the cache was full.
    pub open spec fn put(self, key: Seq<char>, value: V) -> Self {
        if self.capacity == 0 {
            self
        } else if self.entries.contains_key(key) {
            LruState {
                entries: self.entries.insert(key, value),
                order: self.promoted(key),
                ..self
            }
        } else if self.size() >= self.capacity {
            LruState {
                entries: self.entries.remove(self.least_recent()).insert(key, value),
                order: self.order.drop_first().push(key),
                ..self
            }
        } else {
            LruState {
                entries: self.entries.insert(key, value),
                order: self.order.push(key),
                ..self
            }
        }
    }
}

impl<V> LruState<V> {
    /// A fresh cache is valid and empty.
    pub proof fn lemma_empty(capacity: nat)
        ensures
            Self::empty(capacity).inv(),
            Self::empty(capacity).size() == 0,
    {
        let s = Self::empty(capacity);
        assert(s.entries.dom() =~= s.order.to_set());
    }

    /// A valid cache holds finitely many entries, as many as its recency
    /// order lists, and never more than its capacity.
    pub proof fn lemma_size(self)
        requires
            self.inv(),
        ensures
            self.entries.dom().finite(),
            self.size() == self.order.len(),
            self.size() <= self.capacity,
    {
        seq_to_set_is_finite(self.order);
        self.order.unique_seq_to_set();
    }

    /// In a valid cache every key occurs in the recency order as often as in
    /// the association: once if it is resident, never if it is not.
    pub proof fn lemma_multiplicity(self, key: Seq<char>)
        requires
            self.inv(),
        ensures
            self.order.to_multiset().count(key) == (if self.entries.contains_key(key) {
                1nat
            } else {
                0nat
            }),
    {
        self.order.to_multiset_ensures();
        self.order.lemma_multiset_has_no_duplicates();
        assert(self.entries.contains_key(key) <==> self.order.to_set().contains(key));
    }

    /// A lookup keeps the cache valid and changes neither its capacity nor
    /// its associations.
    pub proof fn lemma_touch_inv(self, key: Seq<char>)
        requires
            self.inv(),
        ensures
            self.touch(key).inv(),
            self.touch(key).capacity == self.capacity,
            self.touch(key).entries == self.entries,
            self.touch(key).size() == self.size(),
    {
        if self.entries.contains_key(key) {
            self.lemma_promoted(key);
        }
    }

    /// Using a resident key moves it from its place in the recency order to
    /// the most recently used end and leaves the other keys where they were
    /// relative to each other.
    pub proof fn lemma_promoted(self, key: Seq<char>)
        requires
            self.inv(),
            self.entries.contains_key(key),
        ensures
            self.promoted(key) == self.order.remove(self.order.index_of(key)).push(key),
            self.promoted(key).no_duplicates(),
            self.promoted(key).to_set() == self.order.to_set(),
            self.promoted(key).len() == self.order.len(),
            self.promoted(key).last() == key,
    {
        let rest = self.order.remove_value(key);
        assert(self.order.to_set().contains(key));
        lemma_remove_value_at(self.order, self.order.index_of(key));
        lemma_remove_value(self.order, key);
        lemma_push_no_duplicates(rest, key);
        assert(self.promoted(key).to_set() =~= self.order.to_set()) by {
            assert forall|k: Seq<char>| self.promoted(key).contains(k) <==> self.order.contains(
                k,
            ) by {
                if k != key {
                    assert(rest.contains(k) <==> self.order.contains(k));
                }
            }
        }
    }

    /// An insert keeps the cache valid and its capacity fixed.
    pub proof fn lemma_put_inv(self, key: Seq<char>, value: V)
        requires
            self.inv(),
        ensures
            self.put(key, value).inv(),
            self.put(key, value).capacity == self.capacity,
    {
        let next = self.put(key, value);
        self.lemma_size();
        if self.capacity == 0 {
        } else if self.entries.contains_key(key) {
            self.lemma_promoted(key);
            assert(next.entries.dom() =~= self.entries.dom());
        } else if self.size() >= self.capacity {
            let rest = self.order.drop_first();
            assert(rest =~= self.order.remove(0));
            lemma_remove_no_duplicates(self.order, 0);
            assert(!self.order.to_set().contains(key));
            assert(!rest.contains(key));
            lemma_push_no_duplicates(rest, key);
            assert(next.entries.dom() =~= next.order.to_set()) by {
                assert forall|k: Seq<char>| next.entries.dom().contains(k)
                    <==> next.order.contains(k) by {
                    assert(self.entries.dom().contains(k) <==> self.order.to_set().contains(k));
                }
            }
        } else {
            assert(!self.order.to_set().contains(key));
            lemma_push_no_duplicates(self.order, key);
            assert(next.entries.dom() =~= next.order.to_set()) by {
                assert forall|k: Seq<char>| next.entries.dom().contains(k)
                    <==> next.order.contains(k) by {
                    assert(self.entries.dom().contains(k) <==> self.order.to_set().contains(k));
                }
            }
        }
    }

    /// Inserting an absent key into a cache with room adds one entry and
    /// evicts nothing.
    pub proof fn lemma_put_absent_with_room(self, key: Seq<char>, value: V)
        requires
            self.inv(),
            !self.entries.contains_key(key),
            self.size() < self.capacity,
        ensures
            self.put(key, value).size() == self.size() + 1,
            self.put(key, value).entries == self.entries.insert(key, value),
            self.put(key, value).order == self.order.push(key),
    {
        self.lemma_size();
    }

    /// Inserting a resident key leaves the size as it was, evicts nothing,
    /// and a lookup of the key then yields the new value.
    pub proof fn lemma_put_resident(self, key: Seq<char>, value: V)
        requires
            self.inv(),
            self.entries.contains_key(key),
        ensures
            self.put(key, value).size() == self.size(),
            self.put(key, value).entries == self.entries.insert(key, value),
            self.put(key, value).entries.dom() == self.entries.dom(),
            self.put(key, value).lookup(key) == Some(value),
    {
        self.lemma_size();
        assert(self.order.to_set().contains(key));
        assert(self.entries.insert(key, value).dom() =~= self.entries.dom());
    }

    /// Inserting an absent key into a full cache evicts exactly one entry,
    /// the least recently used one, and keeps every other entry as it was.
    pub proof fn lemma_put_absent_when_full(self, key: Seq<char>, value: V)
        requires
            self.inv(),
            self.capacity > 0,
            !self.entries.contains_key(key),
            self.size() == self.capacity,
        ensures
            self.least_recent() == self.order[0],
            self.least_recent() != key,
            self.entries.contains_key(self.least_recent()),
            !self.put(key, value).entries.contains_key(self.least_recent()),
            forall|k: Seq<char>|
                k != self.least_recent() && #[trigger] self.entries.contains_key(k) ==> self.put(
                    key,
                    value,
                ).entries.contains_key(k) && self.put(key, value).entries[k] == self.entries[k],
            self.put(key, value).entries == self.entries.remove(self.least_recent()).insert(
                key,
                value,
            ),
            self.put(key, value).order == self.order.drop_first().push(key),
            self.put(key, value).lookup(key) == Some(value),
            self.put(key, value).size() == self.size(),
    {
        self.lemma_size();
        self.lemma_put_inv(key, value);
        self.put(key, value).lemma_size();
        assert(self.order.to_set().contains(self.order[0]));
    }

    /// A key that has just been looked up survives the next capacity-forcing
    /// insert of a new key, unless the cache holds one entry only: then the
    /// insert evicts it.
    pub proof fn lemma_touch_then_put(self, used: Seq<char>, key: Seq<char>, value: V)
        requires
            self.inv(),
            self.entries.contains_key(used),
            !self.entries.contains_key(key),
            self.size() == self.capacity,
        ensures
            self.capacity > 1 ==> self.touch(used).least_recent() != used && self.touch(used).put(
                key,
                value,
            ).lookup(used) == self.lookup(used),
            self.capacity == 1 ==> self.touch(used).least_recent() == used && self.touch(
                used,
            ).put(key, value).lookup(used).is_none(),
    {
        self.lemma_size();
        self.lemma_promoted(used);
        self.lemma_touch_inv(used);
        let touched = self.touch(used);
        touched.lemma_size();
        touched.lemma_put_absent_when_full(key, value);
        assert(touched.order.last() == used);
        if self.capacity > 1 {
            assert(touched.order[0] != touched.order[touched.order.len() - 1]);
        }
    }

    /// A lookup of an absent key finds nothing and changes nothing.
    pub proof fn lemma_touch_absent(self, key: Seq<char>)
        requires
            !self.entries.contains_key(key),
        ensures
            self.lookup(key).is_none(),
            self.touch(key) == self,
    {
    }

    /// In a cache of non-zero capacity, a lookup straight after an insert of
    /// the same key yields the inserted value and leaves the state as the
    /// insert left it.
    pub proof fn lemma_put_then_lookup(self, key: Seq<char>, value: V)
        requires
            self.inv(),
            self.capacity > 0,
        ensures
            self.put(key, value).lookup(key) == Some(value),
            self.put(key, value).touch(key) == self.put(key, value),
    {
        let next = self.put(key, value);
        self.lemma_put_inv(key, value);
        self.lemma_put_most_recent(key, value);
        lemma_remove_value_at(next.order, next.order.len() - 1);
        assert(next.order.remove(next.order.len() - 1).push(key) =~= next.order);
    }

    /// In a cache of non-zero capacity an inserted key is the most recently
    /// used one.
    pub proof fn lemma_put_most_recent(self, key: Seq<char>, value: V)
        requires
            self.inv(),
            self.capacity > 0,
        ensures
            self.put(key, value).order.len() > 0,
            self.put(key, value).order.last() == key,
            self.put(key, value).entries.contains_key(key),
    {
    }

    /// Inserting the same key and value twice in a row leaves the cache as
    /// the first insert left it: same size, same contents, same recency
    /// order.
    pub proof fn lemma_put_twice(self, key: Seq<char>, value: V)
        requires
            self.inv(),
        ensures
            self.put(key, value).put(key, value) == self.put(key, value),
    {
        if self.capacity > 0 {
            let next = self.put(key, value);
            self.lemma_put_inv(key, value);
            self.lemma_put_most_recent(key, value);
            lemma_remove_value_at(next.order, next.order.len() - 1);
            assert(next.order.remove(next.order.len() - 1).push(key) =~= next.order);
            assert(next.entries.insert(key, value) =~= next.entries);
        }
    }
}

} // verus!
