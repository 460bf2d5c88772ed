//! The operations every cache offers, whatever its eviction policy.

use vstd::prelude::*;

verus! {

/// A bounded cache from text keys to values of type `V`.
///
/// The contracts here say what holds under every eviction policy: an insert
/// creates or changes no association but that of its key, a lookup changes
/// none at all, and the cache never holds more than its capacity. Which
/// entries are evicted, and when, is for the implementation to say.
pub trait CacheTrait<V> {
    /// Whether the cache's internal structures are consistent. Every
    /// operation expects it and re-establishes it.
    spec fn wf(&self) -> bool;

    /// The live associations.
    spec fn contents(&self) -> Map<Seq<char>, V>;

    /// The fixed upper bound on the number of live associations.
    spec fn capacity(&self) -> nat;

    /// Places or replaces the association of `key`.
    ///
    /// Unless the capacity is zero, `key` is resident afterwards, with
    /// `value`. Every other resident key was resident before and has kept its
    /// value: other entries are at most evicted.
    fn put(&mut self, key: &str, value: V)
        requires
            old(self).wf(),
        ensures
            final(self).wf(),
            final(self).capacity() == old(self).capacity(),
            final(self).capacity() > 0 ==> final(self).contents().contains_key(key@),
            final(self).contents().contains_key(key@) ==> final(self).contents()[key@] == value,
            forall|k: Seq<char>|
                k != key@ && #[trigger] final(self).contents().contains_key(k) ==> old(
                    self,
                ).contents().contains_key(k) && final(self).contents()[k] == old(
                    self,
                ).contents()[k],
    ;

    /// Looks `key` up: the stored value if the key is resident, `None` if it
    /// is not. The associations stay as they are; the implementation may
    /// record the use.
    fn get(&mut self, key: &str) -> (found: Option<&V>)
        requires
            old(self).wf(),
        ensures
            final(self).wf(),
            final(self).capacity() == old(self).capacity(),
            final(self).contents() == old(self).contents(),
            found == (if old(self).contents().contains_key(key@) {
                Some(&old(self).contents()[key@])
            } else {
                None
            }),
    ;

    /// The number of live associations, which never exceeds the capacity.
    fn size(&self) -> (n: usize)
        requires
            self.wf(),
        ensures
            n == self.contents().len(),
            n <= self.capacity(),
    ;
}

} // verus!
