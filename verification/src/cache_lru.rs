//! The LRU engine: a hash index from key to value coupled with the keys in
//! recency order.

use crate::cache_trait::CacheTrait;
use crate::lru_state::LruState;
use vstd::hash_map::StringHashMap;
use vstd::prelude::*;

verus! {

/// A cache that keeps the most recently used entries and evicts the least
/// recently used one when an insert would exceed the capacity.
///
/// Inserting and looking up scan the recency order, so both take time linear
/// in the number of resident entries.
#[verifier::reject_recursive_types(V)]
pub struct LruCache<V> {
    capacity: usize,
    map: StringHashMap<V>,
    order: Vec<String>,
}

/// The keys that a vector of owned strings stands for.
spec fn keys_of(order: Seq<String>) -> Seq<Seq<char>> {
    order.map_values(|k: String| k@)
}

impl<V> View for LruCache<V> {
    type V = LruState<V>;

    closed spec fn view(&self) -> LruState<V> {
        LruState {
            capacity: self.capacity as nat,
            entries: self.map@,
            order: keys_of(self.order@),
        }
    }
}

impl<V> LruCache<V> {
    /// Creates an empty cache that holds at most `capacity` entries.
    ///
    /// Nothing is allocated up front, so every capacity is accepted. A cache
    /// of capacity zero accepts inserts and stays empty.
    pub fn new(capacity: usize) -> (cache: Self)
        ensures
            cache.wf(),
            cache@ == LruState::<V>::empty(capacity as nat),
    {
        let cache = LruCache { capacity, map: StringHashMap::new(), order: Vec::new() };
        proof {
            assert(keys_of(cache.order@) =~= Seq::<Seq<char>>::empty());
            LruState::<V>::lemma_empty(capacity as nat);
        }
        cache
    }
}

/// Removes the first occurrence of `key` from `order`, if there is one.
fn detach(order: &mut Vec<String>, key: &String)
    ensures
        keys_of(final(order)@) == keys_of(old(order)@).remove_value(key@),
{
    let ghost before = keys_of(order@);
    let mut i: usize = 0;
    while i < order.len()
        invariant
            i <= order.len(),
            keys_of(order@) == before,
            before == keys_of(old(order)@),
            forall|j: int| 0 <= j < i ==> before[j] != key@,
        decreases order.len() - i,
    {
        if order[i] == *key {
            proof {
                assert(before[i as int] == key@);
                before.index_of_first_ensures(key@);
                assert(before.index_of_first(key@) == Some(i as int));
                assert(keys_of(order@.remove(i as int)) =~= before.remove(i as int));
            }
            order.remove(i);
            return ;
        }
        i += 1;
    }
    proof {
        before.index_of_first_ensures(key@);
        assert(!before.contains(key@));
    }
}

impl<V> CacheTrait<V> for LruCache<V> {
    open spec fn wf(&self) -> bool {
        self@.inv()
    }

    open spec fn contents(&self) -> Map<Seq<char>, V> {
        self@.entries
    }

    open spec fn capacity(&self) -> nat {
        self@.capacity
    }

    /// Inserts `key` with `value` as the most recently used entry.
    ///
    /// A resident key gets the new value and nothing is evicted. An absent
    /// key is added, after the least recently used entry has been evicted if
    /// the cache was full. A cache of capacity zero drops the value and stays
    /// empty.
    fn put(&mut self, key: &str, value: V)
        ensures
            final(self)@ == old(self)@.put(key@, value),
    {
        proof {
            self@.lemma_size();
            self@.lemma_put_inv(key@, value);
        }
        if self.capacity == 0 {
            return ;
        }
        let key = key.to_string();
        if self.map.contains_key(key.as_str()) {
            detach(&mut self.order, &key);
        } else if self.map.len() >= self.capacity {
            let oldest = self.order.remove(0);
            self.map.remove(oldest.as_str());
            proof {
                assert(keys_of(self.order@) =~= old(self)@.order.drop_first());
            }
        }
        self.map.insert(key.clone(), value);
        proof {
            assert(keys_of(self.order@.push(key)) =~= keys_of(self.order@).push(key@));
        }
        self.order.push(key);
    }

    /// Looks `key` up and, if it is resident, makes it the most recently
    /// used entry. A lookup of an absent key changes nothing.
    fn get(&mut self, key: &str) -> (found: Option<&V>)
        ensures
            final(self)@ == old(self)@.touch(key@),
            found == (match old(self)@.lookup(key@) {
                Some(value) => Some(&value),
                None => None,
            }),
    {
        proof {
            self@.lemma_touch_inv(key@);
        }
        let key = key.to_string();
        if self.map.contains_key(key.as_str()) {
            detach(&mut self.order, &key);
            proof {
                assert(keys_of(self.order@.push(key)) =~= keys_of(self.order@).push(key@));
            }
            self.order.push(key.clone());
            return self.map.get(key.as_str());
        }
        None
    }

    /// The number of resident entries.
    fn size(&self) -> (n: usize)
        ensures
            n == self@.size(),
    {
        proof {
            self@.lemma_size();
        }
        self.map.len()
    }
}

} // verus!
