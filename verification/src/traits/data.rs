//! Growing a container by a value of some type.
use crate::error::Error;
use crate::heap::Heap;
use crate::heap::HeapView;
use vstd::prelude::*;

verus! {

/// A container that a `T` can be put into at a given index.
pub trait Insert<T>: Sized {
    /// Whether the container is in a state to take `value`.
    spec fn can_insert(&self, heap: HeapView, value: T) -> bool;

    /// The largest index that is accepted: the length of the container.
    spec fn insert_bound(&self, heap: HeapView) -> int;

    /// The heap once `value` stands at `index`.
    spec fn inserted(&self, heap: HeapView, index: int, value: T) -> HeapView;

    /// Puts `value` at `index`. An index beyond the length is refused, and
    /// nothing changes.
    fn insert(&mut self, heap: &mut Heap, index: usize, value: T) -> (done: Result<(), Error>)
        requires
            old(heap).wf(),
            old(self).can_insert(old(heap)@, value),
        ensures
            final(heap).wf(),
            *final(self) == *old(self),
            match done {
                Ok(_) => {
                    &&& index <= old(self).insert_bound(old(heap)@)
                    &&& final(heap)@ == old(self).inserted(old(heap)@, index as int, value)
                },
                Err(e) => {
                    &&& index > old(self).insert_bound(old(heap)@)
                    &&& e == Error::OutOfBounds(index)
                    &&& final(heap)@ == old(heap)@
                },
            },
    ;
}

/// A container that a `T` can be appended to.
pub trait Append<T>: Sized {
    /// Whether the container is in a state to take `value`.
    spec fn can_append(&self, heap: HeapView, value: T) -> bool;

    /// The heap once `value` stands at the end.
    spec fn appended(&self, heap: HeapView, value: T) -> HeapView;

    /// Puts `value` at the end.
    fn append(&mut self, heap: &mut Heap, value: T)
        requires
            old(heap).wf(),
            old(self).can_append(old(heap)@, value),
        ensures
            final(heap).wf(),
            *final(self) == *old(self),
            final(heap)@ == old(self).appended(old(heap)@, value),
    ;
}

} // verus!
