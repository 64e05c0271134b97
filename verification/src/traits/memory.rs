//! The reference-count protocol of the containers.
//!
//! Every handle on a container shares one counter, which the heap keeps with
//! the storage. A handle made by `refcopy` is to be given up by one `refdrop`;
//! nothing but the counter keeps track of that.
use crate::data::Data;
use crate::heap::Heap;
use vstd::prelude::*;

verus! {

/// Direct access to the counter of a container.
pub trait RefC: Sized {
    /// The tagged value that stands for this handle.
    spec fn as_data(&self) -> Data;

    /// Counts one more reference. Nothing happens where there is no storage
    /// to count on: for a primitive, for null, for a released container.
    fn incrc(&mut self, heap: &mut Heap)
        requires
            old(heap).wf(),
            old(heap)@.count(old(self).as_data()) < i64::MAX,
        ensures
            final(heap).wf(),
            *final(self) == *old(self),
            final(heap)@ == old(heap)@.retained(old(self).as_data()),
    ;

    /// Counts one reference fewer. The counter stops at zero, and nothing is
    /// released even there.
    fn decrc(&mut self, heap: &mut Heap)
        requires
            old(heap).wf(),
        ensures
            final(heap).wf(),
            *final(self) == *old(self),
            final(heap)@ == old(heap)@.lowered(old(self).as_data()),
    ;

    /// The counter; zero where there is no storage.
    fn getrc(&self, heap: &Heap) -> (n: i64)
        requires
            heap.wf(),
        ensures
            n == heap@.count(self.as_data()),
    ;
}

/// Aliasing: a second handle on the same storage, and giving a handle up.
pub trait RefCopy: RefC {
    /// Counts one more reference and returns a second handle on the same
    /// storage: what is written through either is seen through the other. A
    /// value without storage is returned as it is.
    fn refcopy(&mut self, heap: &mut Heap) -> (alias: Self)
        requires
            old(heap).wf(),
            old(heap)@.count(old(self).as_data()) < i64::MAX,
        ensures
            final(heap).wf(),
            *final(self) == *old(self),
            alias == *old(self),
            final(heap)@ == old(heap)@.retained(old(self).as_data()),
    ;

    /// Gives the handle up. The counter goes down by one; when no second
    /// reference is counted the storage is released instead, and every value
    /// that it contained is given up in the same way.
    fn refdrop(self, heap: &mut Heap)
        requires
            old(heap).wf(),
        ensures
            final(heap).wf(),
            final(heap)@ == old(heap)@.release(self.as_data()),
            old(heap)@.faded_to(final(heap)@),
            !old(heap)@.holds(self.as_data()) ==> final(heap)@ == old(heap)@,
            old(heap)@.holds(self.as_data()) && old(heap)@.count(self.as_data()) > 1
                ==> final(heap)@ == old(heap)@.lowered(self.as_data()),
            old(heap)@.frees(self.as_data()) ==> !final(heap)@.holds(self.as_data()),
    ;
}

} // verus!
