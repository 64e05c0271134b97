//! Rendering a value as text.
use crate::heap::Heap;
use crate::heap::HeapView;
use vstd::prelude::*;

verus! {

/// A value that has a textual form: a sequence as `[v1,v2]`, a table as
/// `{k1: v1, k2: v2}`, a text as its characters, a primitive in its natural
/// form, null as `NULL`.
pub trait ToStr {
    /// Whether the value can be rendered: everything that it reaches exists,
    /// and it does not contain itself.
    spec fn renderable(&self, heap: HeapView) -> bool;

    /// The textual form of the value.
    spec fn rendering(&self, heap: HeapView) -> Seq<char>;

    /// Renders the value.
    fn tostr(&self, heap: &Heap) -> (text: std::string::String)
        requires
            heap.wf(),
            self.renderable(heap@),
        ensures
            text@ == self.rendering(heap@),
    ;
}

} // verus!
