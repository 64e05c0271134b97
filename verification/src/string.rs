//! The text sequence: a paged sequence that holds single characters only.
//!
//! Every character takes one element slot; there is no byte buffer.
use crate::data::Data;
use crate::data::DataTypes;
use crate::error::Error;
use crate::heap::Heap;
use crate::heap::HeapView;
use crate::list::List;
use crate::list::ListView;
use crate::traits::data::Append;
use crate::traits::data::Insert;
use crate::traits::debug::ToStr;
use crate::traits::memory::RefC;
use crate::traits::memory::RefCopy;
use vstd::prelude::*;

verus! {

/// The values that hold the characters of `value`, in their order.
fn chars_of(value: &str) -> (items: Vec<Data>)
    ensures
        items@ == Data::chars(value@),
{
    let mut items: Vec<Data> = Vec::new();
    let ghost all = value@;
    proof {
        assert(items@ =~= Data::chars(all.take(0)));
    }
    for c in it: value.chars()
        invariant
            it.seq() == all,
            items@ == Data::chars(all.take(it.index() as int)),
    {
        let ghost n = it.index() as int;
        let ghost before = items@;
        items.push(Data { data: DataTypes::CHAR(c) });
        proof {
            assert(all.take(n + 1) =~= all.take(n).push(c));
            assert(before.push(Data::ch(c)) =~= Data::chars(all.take(n).push(c)));
        }
    }
    proof {
        assert(all.take(all.len() as int) =~= all);
    }
    items
}

/// A handle on a text sequence.
#[derive(Debug, PartialEq, Eq, Structural)]
pub struct String {
    str: List,
}

impl String {
    /// The place in the heap of the sequence that holds the characters.
    pub closed spec fn addr(&self) -> int {
        self.str.addr()
    }

    /// Whether the handle names a text in `heap`: its storage exists and every
    /// element is a character.
    pub open spec fn valid(&self, heap: HeapView) -> bool {
        heap.list_live(self.addr()) && heap.lists[self.addr()].is_text()
    }

    /// The characters of the text.
    pub open spec fn text(&self, heap: HeapView) -> Seq<char> {
        heap.lists[self.addr()].text()
    }

    /// The handle on the text at the place `id`.
    pub closed spec fn handle(id: int) -> String {
        String { str: List::handle(id) }
    }

    /// The handle on a place names that place.
    pub proof fn lemma_handle(id: int)
        requires
            0 <= id <= usize::MAX,
        ensures
            String::handle(id).addr() == id,
    {
        List::lemma_handle(id);
    }

    /// A place is a natural number that a machine word holds.
    pub proof fn lemma_addr(&self)
        ensures
            0 <= self.addr() <= usize::MAX,
    {
        self.str.lemma_addr();
    }

    /// A handle on the text at `id`.
    pub(crate) fn at(id: usize) -> (h: String)
        ensures
            h.addr() == id,
            h == String::handle(id as int),
    {
        String { str: List::at(id) }
    }

    /// The place of the storage in the heap, as a number to index with.
    pub(crate) fn slot(&self) -> (id: usize)
        ensures
            id == self.addr(),
    {
        self.str.slot()
    }

    /// A second handle on the same place; no count changes.
    pub(crate) fn dup(&self) -> (s: String)
        ensures
            s == *self,
    {
        String { str: self.str.dup() }
    }

    /// Whether the handle names a text: its storage exists and every element
    /// is a character.
    pub fn is_valid(&self, heap: &Heap) -> (yes: bool)
        requires
            heap.wf(),
        ensures
            yes == self.valid(heap@),
    {
        let id = self.slot();
        id < heap.lists_len() && heap.list(id).is_live() && crate::render::holds_text(heap, id)
    }

    /// Makes a deep copy: a new text with the same characters, one reference
    /// counted, sharing nothing with this one.
    pub fn clone(&self, heap: &mut Heap) -> (copied: String)
        requires
            old(heap).wf(),
            self.valid(old(heap)@),
        ensures
            final(heap).wf(),
            copied.addr() == old(heap)@.lists.len(),
            copied.valid(final(heap)@),
            copied.text(final(heap)@) == self.text(old(heap)@),
            (final(heap)@, copied.as_data()) == old(heap)@.copy(self.as_data(), 0),
            old(heap)@.kept_by(final(heap)@),
            final(heap)@.count(copied.as_data()) == 1,
    {
        let copied = String::at(crate::copying::copy_text(heap, self.slot()));
        proof {
            assert(copied.text(heap@) =~= self.text(old(heap)@));
        }
        copied
    }

    /// Creates an empty text.
    pub fn new(heap: &mut Heap) -> (text: String)
        requires
            old(heap).wf(),
        ensures
            final(heap).wf(),
            text.addr() == old(heap)@.lists.len(),
            text.valid(final(heap)@),
            final(heap)@ == old(heap)@.alloc_list(ListView::fresh()),
    {
        String { str: List::new(heap) }
    }

    /// Creates a text that holds the characters of `value`.
    pub fn from(heap: &mut Heap, value: &str) -> (text: String)
        requires
            old(heap).wf(),
        ensures
            final(heap).wf(),
            text.addr() == old(heap)@.lists.len(),
            text.valid(final(heap)@),
            text.text(final(heap)@) == value@,
            final(heap)@ == old(heap)@.alloc_list(ListView::holding(Data::chars(value@))),
    {
        let text = String { str: List::from(heap, chars_of(value)) };
        proof {
            assert(text.text(heap@) =~= value@);
        }
        text
    }

    /// How many characters the text holds.
    pub fn len(&self, heap: &Heap) -> (n: usize)
        requires
            heap.wf(),
            heap@.list_live(self.addr()),
        ensures
            n == heap@.lists[self.addr()].items.len(),
    {
        self.str.len(heap)
    }

    /// References to all elements, in index order.
    pub fn as_vec<'a>(&self, heap: &'a Heap) -> (all: Vec<&'a Data>)
        requires
            heap.wf(),
            heap@.list_live(self.addr()),
        ensures
            all@.len() == heap@.lists[self.addr()].items.len(),
            forall|i: int| 0 <= i < all@.len() ==> *all@[i] == heap@.lists[self.addr()].items[i],
    {
        self.str.as_vec(heap)
    }

    /// References to all elements for writing, in index order. What the
    /// caller writes through reference `k` is element `k` afterwards; the text
    /// stays one only if every element is still a character.
    pub fn as_vec_mut<'a>(&mut self, heap: &'a mut Heap) -> (all: Vec<&'a mut Data>)
        requires
            old(heap).wf(),
            old(heap)@.list_live(old(self).addr()),
        ensures
            final(heap).wf(),
            *final(self) == *old(self),
            all@.len() == old(heap)@.lists[old(self).addr()].items.len(),
            forall|k: int|
                0 <= k < all@.len() ==> *(#[trigger] all@[k]) == old(heap)@.lists[old(
                    self,
                ).addr()].items[k],
            final(heap)@ == old(heap)@.with_list(
                old(self).addr(),
                ListView {
                    items: final(heap)@.lists[old(self).addr()].items,
                    ..old(heap)@.lists[old(self).addr()]
                },
            ),
            final(heap)@.lists[old(self).addr()].items.len() == all@.len(),
            forall|k: int|
                #![trigger all@[k]]
                0 <= k < all@.len() ==> final(heap)@.lists[old(self).addr()].items[k] == *final(
                    all@[k]),
    {
        self.str.as_vec_mut(heap)
    }

    /// Creates a text that holds the characters of this one followed by those
    /// of `other`. Neither is changed.
    pub fn concat(&self, heap: &mut Heap, other: &String) -> (text: String)
        requires
            old(heap).wf(),
            self.valid(old(heap)@),
            other.valid(old(heap)@),
            self.text(old(heap)@).len() + other.text(old(heap)@).len() <= usize::MAX,
        ensures
            final(heap).wf(),
            text.addr() == old(heap)@.lists.len(),
            text.valid(final(heap)@),
            text.text(final(heap)@) == self.text(old(heap)@) + other.text(old(heap)@),
            final(heap)@ == old(heap)@.alloc_list(
                ListView::holding(
                    old(heap)@.lists[self.addr()].items + old(heap)@.lists[other.addr()].items,
                ),
            ),
    {
        let mut items = heap.list(self.slot()).snapshot();
        let mut more = heap.list(other.slot()).snapshot();
        items.append(&mut more);
        let text = String { str: List::from(heap, items) };
        proof {
            assert(text.text(heap@) =~= self.text(old(heap)@) + other.text(old(heap)@));
        }
        text
    }
}

impl Append<char> for String {
    open spec fn can_append(&self, heap: HeapView, value: char) -> bool {
        self.valid(heap) && heap.lists[self.addr()].items.len() < usize::MAX
    }

    open spec fn appended(&self, heap: HeapView, value: char) -> HeapView {
        heap.list_append(self.addr(), Data::ch(value))
    }

    fn append(&mut self, heap: &mut Heap, value: char)
        ensures
            final(self).valid(final(heap)@),
            final(self).text(final(heap)@) == old(self).text(old(heap)@).push(value),
    {
        self.str.append(heap, Data { data: DataTypes::CHAR(value) });
        proof {
            let before = old(heap)@.lists[self.addr()].items;
            let after = heap@.lists[self.addr()].items;
            assert(after == before.push(Data::ch(value)));
            assert forall|i: int| 0 <= i < after.len() implies (#[trigger] after[i]).data is CHAR by {
                if i < before.len() {
                    assert(before[i].data is CHAR);
                }
            }
            assert(self.text(heap@) =~= old(self).text(old(heap)@).push(value));
        }
    }
}

impl Append<&String> for String {
    open spec fn can_append(&self, heap: HeapView, value: &String) -> bool {
        &&& self.valid(heap)
        &&& value.valid(heap)
        &&& heap.lists[self.addr()].items.len() + heap.lists[value.addr()].items.len()
            <= usize::MAX
    }

    open spec fn appended(&self, heap: HeapView, value: &String) -> HeapView {
        heap.with_list(self.addr(), heap.lists[self.addr()].extend(heap.lists[value.addr()].items))
    }

    /// Appends the characters that `value` holds when the call is made.
    fn append(&mut self, heap: &mut Heap, value: &String)
        ensures
            final(self).valid(final(heap)@),
            final(self).text(final(heap)@) == old(self).text(old(heap)@) + value.text(old(heap)@),
    {
        let more = heap.list(value.slot()).snapshot();
        heap.list_mut(self.slot()).append_all(more);
        proof {
            assert(self.text(heap@) =~= old(self).text(old(heap)@) + value.text(old(heap)@));
        }
    }
}

impl Append<&str> for String {
    open spec fn can_append(&self, heap: HeapView, value: &str) -> bool {
        self.valid(heap) && heap.lists[self.addr()].items.len() + value@.len() <= usize::MAX
    }

    open spec fn appended(&self, heap: HeapView, value: &str) -> HeapView {
        heap.with_list(self.addr(), heap.lists[self.addr()].extend(Data::chars(value@)))
    }

    fn append(&mut self, heap: &mut Heap, value: &str)
        ensures
            final(self).valid(final(heap)@),
            final(self).text(final(heap)@) == old(self).text(old(heap)@) + value@,
    {
        let more = chars_of(value);
        heap.list_mut(self.slot()).append_all(more);
        proof {
            assert(self.text(heap@) =~= old(self).text(old(heap)@) + value@);
        }
    }
}

impl Insert<char> for String {
    open spec fn can_insert(&self, heap: HeapView, value: char) -> bool {
        self.valid(heap) && heap.lists[self.addr()].items.len() < usize::MAX
    }

    open spec fn insert_bound(&self, heap: HeapView) -> int {
        heap.lists[self.addr()].items.len() as int
    }

    open spec fn inserted(&self, heap: HeapView, index: int, value: char) -> HeapView {
        heap.list_insert(self.addr(), index, Data::ch(value))
    }

    fn insert(&mut self, heap: &mut Heap, index: usize, value: char) -> (done: Result<(), Error>)
        ensures
            final(self).valid(final(heap)@),
            done is Ok ==> final(self).text(final(heap)@) == old(self).text(old(heap)@).insert(
                index as int,
                value,
            ),
    {
        let done = self.str.insert(heap, index, Data { data: DataTypes::CHAR(value) });
        proof {
            if done is Ok {
                let before = old(heap)@.lists[self.addr()].items;
                let after = heap@.lists[self.addr()].items;
                assert(after == before.insert(index as int, Data::ch(value)));
                assert forall|i: int| 0 <= i < after.len() implies (#[trigger] after[i]).data is CHAR by {
                    if i < index {
                        assert(before[i].data is CHAR);
                    } else if i > index {
                        assert(before[i - 1].data is CHAR);
                    }
                }
                assert(self.text(heap@) =~= old(self).text(old(heap)@).insert(index as int, value));
            }
        }
        done
    }
}

impl Insert<&String> for String {
    open spec fn can_insert(&self, heap: HeapView, value: &String) -> bool {
        &&& self.valid(heap)
        &&& value.valid(heap)
        &&& heap.lists[self.addr()].items.len() + heap.lists[value.addr()].items.len()
            <= usize::MAX
    }

    open spec fn insert_bound(&self, heap: HeapView) -> int {
        heap.lists[self.addr()].items.len() as int
    }

    open spec fn inserted(&self, heap: HeapView, index: int, value: &String) -> HeapView {
        heap.with_list(
            self.addr(),
            heap.lists[self.addr()].insert_all(index, heap.lists[value.addr()].items),
        )
    }

    /// Puts the characters that `value` holds when the call is made at
    /// `index`, in their order, before what stood at `index`.
    fn insert(&mut self, heap: &mut Heap, index: usize, value: &String) -> (done: Result<
        (),
        Error,
    >)
        ensures
            final(self).valid(final(heap)@),
            done is Ok ==> final(self).text(final(heap)@) == old(self).text(old(heap)@).take(
                index as int,
            ) + value.text(old(heap)@) + old(self).text(old(heap)@).skip(index as int),
    {
        if index > self.str.len(heap) {
            return Err(Error::OutOfBounds(index));
        }
        let more = heap.list(value.slot()).snapshot();
        heap.list_mut(self.slot()).insert_all(index, more);
        proof {
            assert(self.text(heap@) =~= old(self).text(old(heap)@).take(index as int) + value.text(
                old(heap)@,
            ) + old(self).text(old(heap)@).skip(index as int));
        }
        Ok(())
    }
}

impl Insert<&str> for String {
    open spec fn can_insert(&self, heap: HeapView, value: &str) -> bool {
        self.valid(heap) && heap.lists[self.addr()].items.len() + value@.len() <= usize::MAX
    }

    open spec fn insert_bound(&self, heap: HeapView) -> int {
        heap.lists[self.addr()].items.len() as int
    }

    open spec fn inserted(&self, heap: HeapView, index: int, value: &str) -> HeapView {
        heap.with_list(
            self.addr(),
            heap.lists[self.addr()].insert_all(index, Data::chars(value@)),
        )
    }

    /// Puts the characters of `value` at `index`, in their order, before what
    /// stood at `index`.
    fn insert(&mut self, heap: &mut Heap, index: usize, value: &str) -> (done: Result<(), Error>)
        ensures
            final(self).valid(final(heap)@),
            done is Ok ==> final(self).text(final(heap)@) == old(self).text(old(heap)@).take(
                index as int,
            ) + value@ + old(self).text(old(heap)@).skip(index as int),
    {
        if index > self.str.len(heap) {
            return Err(Error::OutOfBounds(index));
        }
        let more = chars_of(value);
        heap.list_mut(self.slot()).insert_all(index, more);
        proof {
            assert(self.text(heap@) =~= old(self).text(old(heap)@).take(index as int) + value@
                + old(self).text(old(heap)@).skip(index as int));
        }
        Ok(())
    }
}

impl RefC for String {
    open spec fn as_data(&self) -> Data {
        Data { data: DataTypes::STRING(*self) }
    }

    fn incrc(&mut self, heap: &mut Heap) {
        self.str.incrc(heap);
    }

    fn decrc(&mut self, heap: &mut Heap) {
        self.str.decrc(heap);
    }

    fn getrc(&self, heap: &Heap) -> (n: i64) {
        self.str.getrc(heap)
    }
}

impl RefCopy for String {
    fn refcopy(&mut self, heap: &mut Heap) -> (alias: Self) {
        String { str: self.str.refcopy(heap) }
    }

    fn refdrop(self, heap: &mut Heap) {
        heap.release(Data { data: DataTypes::STRING(self) });
    }
}

impl ToStr for String {
    open spec fn renderable(&self, heap: HeapView) -> bool {
        self.valid(heap)
    }

    open spec fn rendering(&self, heap: HeapView) -> Seq<char> {
        self.text(heap)
    }

    /// The characters of the text.
    fn tostr(&self, heap: &Heap) -> (text: std::string::String) {
        let mut text = std::string::String::new();
        crate::render::render_text(heap, self.slot(), &mut text);
        proof {
            assert(text@ =~= self.text(heap@));
        }
        text
    }
}

} // verus!
