//! The heap: the arena that owns the storage of every container.
//!
//! A container handle names a place in the heap. Places are never reused, so a
//! handle on released storage stays a handle on released storage.
use crate::data::Data;
use crate::data::DataTypes;
use crate::list::ListView;
use crate::list::Paged;
use crate::map::Keyed;
use crate::map::TableView;
use vstd::prelude::*;

verus! {

/// The mathematical view of a heap: the view of every paged sequence and of
/// every table that was ever allocated in it, by place.
pub struct HeapView {
    /// The paged sequences, texts among them, by place.
    pub lists: Seq<ListView>,
    /// The tables, by place.
    pub tables: Seq<TableView>,
}

impl HeapView {
    /// The heap in which nothing has been allocated.
    pub open spec fn empty() -> HeapView {
        HeapView { lists: Seq::empty(), tables: Seq::empty() }
    }

    /// Every container in the heap is valid.
    pub open spec fn valid(self) -> bool {
        &&& forall|i: int| 0 <= i < self.lists.len() ==> (#[trigger] self.lists[i]).valid()
        &&& forall|i: int| 0 <= i < self.tables.len() ==> (#[trigger] self.tables[i]).valid()
    }

    /// Whether the places of the heap are numbers that a machine word holds.
    pub open spec fn sized(self) -> bool {
        self.lists.len() <= usize::MAX && self.tables.len() <= usize::MAX
    }

    /// Whether `id` is the place of a paged sequence whose storage exists.
    pub open spec fn list_live(self, id: int) -> bool {
        0 <= id < self.lists.len() && self.lists[id].live
    }

    /// Whether `id` is the place of a table whose storage exists.
    pub open spec fn table_live(self, id: int) -> bool {
        0 <= id < self.tables.len() && self.tables[id].live
    }

    /// The heap with the paged sequence at `id` replaced by `list`.
    pub open spec fn with_list(self, id: int, list: ListView) -> HeapView {
        HeapView { lists: self.lists.update(id, list), ..self }
    }

    /// The heap with the table at `id` replaced by `table`.
    pub open spec fn with_table(self, id: int, table: TableView) -> HeapView {
        HeapView { tables: self.tables.update(id, table), ..self }
    }

    /// The heap with `list` allocated at the next free place.
    pub open spec fn alloc_list(self, list: ListView) -> HeapView {
        HeapView { lists: self.lists.push(list), ..self }
    }

    /// The heap with `table` allocated at the next free place.
    pub open spec fn alloc_table(self, table: TableView) -> HeapView {
        HeapView { tables: self.tables.push(table), ..self }
    }

    /// The heap with `value` behind the last element of the sequence at `id`.
    pub open spec fn list_append(self, id: int, value: Data) -> HeapView {
        self.with_list(id, self.lists[id].append(value))
    }

    /// The heap with `value` at `index` of the sequence at `id`.
    pub open spec fn list_insert(self, id: int, index: int, value: Data) -> HeapView {
        self.with_list(id, self.lists[id].insert(index, value))
    }

    /// The heap without the element at `index` of the sequence at `id`.
    pub open spec fn list_remove(self, id: int, index: int) -> HeapView {
        self.with_list(id, self.lists[id].remove(index))
    }

    /// The heap with `value` in place of the element at `index` of the
    /// sequence at `id`.
    pub open spec fn list_set(self, id: int, index: int, value: Data) -> HeapView {
        self.with_list(id, self.lists[id].set(index, value))
    }

    /// The heap with `value` bound to `key` in the table at `id`, and the value
    /// that this overwrote dropped.
    pub open spec fn table_insert(self, id: int, key: Seq<char>, value: Data) -> HeapView {
        self.with_table(id, self.tables[id].insert(key, value)).release(
            self.tables[id].displaced(key),
        )
    }

    /// The heap with `key` unbound in the table at `id`.
    pub open spec fn table_remove(self, id: int, key: Seq<char>) -> HeapView {
        self.with_table(id, self.tables[id].remove(key))
    }

    /// The heap with `value` in place of the value of `key` in the table at
    /// `id`.
    pub open spec fn table_set(self, id: int, key: Seq<char>, value: Data) -> HeapView {
        self.with_table(id, self.tables[id].set(key, value))
    }

    /// Whether `after` still holds everything that this heap holds, unchanged:
    /// it differs by what was allocated since.
    pub open spec fn kept_by(self, after: HeapView) -> bool {
        &&& self.lists.len() <= after.lists.len()
        &&& self.tables.len() <= after.tables.len()
        &&& forall|i: int| 0 <= i < self.lists.len() ==> #[trigger] after.lists[i] == self.lists[i]
        &&& forall|i: int|
            0 <= i < self.tables.len() ==> #[trigger] after.tables[i] == self.tables[i]
    }

    /// Whether `after` still holds, unchanged, what this heap holds at or
    /// above the given places.
    pub open spec fn kept_above(self, after: HeapView, lists: int, tables: int) -> bool {
        &&& self.lists.len() <= after.lists.len()
        &&& self.tables.len() <= after.tables.len()
        &&& forall|i: int|
            lists <= i < self.lists.len() && 0 <= i ==> #[trigger] after.lists[i] == self.lists[i]
        &&& forall|i: int|
            tables <= i < self.tables.len() && 0 <= i ==> #[trigger] after.tables[i]
                == self.tables[i]
    }
}

/// The heap: it owns the storage of every container, by place.
pub struct Heap {
    /// The storage of the paged sequences, texts among them, by place.
    lists: Vec<Paged>,
    /// The storage of the tables, by place.
    tables: Vec<Keyed>,
}

impl Heap {
    /// The view: the view of every container, by place.
    pub closed spec fn view(&self) -> HeapView {
        HeapView {
            lists: Seq::new(self.lists@.len(), |i: int| self.lists@[i]@),
            tables: Seq::new(self.tables@.len(), |i: int| self.tables@[i]@),
        }
    }

    /// The representation invariant: the storage of every container is well
    /// formed.
    pub closed spec fn wf(&self) -> bool {
        &&& forall|i: int| 0 <= i < self.lists@.len() ==> (#[trigger] self.lists@[i]).wf()
        &&& forall|i: int| 0 <= i < self.tables@.len() ==> (#[trigger] self.tables@[i]).wf()
    }

    /// A well-formed heap has a valid view.
    pub proof fn lemma_valid(&self)
        requires
            self.wf(),
        ensures
            self@.valid(),
    {
        assert forall|i: int| 0 <= i < self@.lists.len() implies (#[trigger] self@.lists[i]).valid() by {
            self.lists@[i].lemma_valid();
        }
        assert forall|i: int| 0 <= i < self@.tables.len() implies (#[trigger] self@.tables[i]).valid() by {
            self.tables@[i].lemma_valid();
        }
    }

    /// The places of a heap are numbers that a machine word holds.
    pub proof fn lemma_sized(&self)
        ensures
            self@.sized(),
    {
        assert(self.lists.len() == self.lists@.len());
        assert(self.tables.len() == self.tables@.len());
    }

    /// A heap in which nothing has been allocated.
    pub fn new() -> (heap: Heap)
        ensures
            heap.wf(),
            heap@ == HeapView::empty(),
    {
        let heap = Heap { lists: Vec::new(), tables: Vec::new() };
        proof {
            assert(heap@.lists =~= Seq::<ListView>::empty());
            assert(heap@.tables =~= Seq::<TableView>::empty());
        }
        heap
    }

    /// How many paged sequences have been allocated so far.
    pub(crate) fn lists_len(&self) -> (n: usize)
        ensures
            n == self@.lists.len(),
    {
        self.lists.len()
    }

    /// How many tables have been allocated so far.
    pub(crate) fn tables_len(&self) -> (n: usize)
        ensures
            n == self@.tables.len(),
    {
        self.tables.len()
    }

    /// Puts the storage of a paged sequence at the next free place.
    pub(crate) fn alloc_list(&mut self, list: Paged) -> (id: usize)
        requires
            old(self).wf(),
            list.wf(),
        ensures
            final(self).wf(),
            id == old(self)@.lists.len(),
            final(self)@ == old(self)@.alloc_list(list@),
    {
        let id: usize = self.lists.len();
        self.lists.push(list);
        proof {
            assert(self@.lists =~= old(self)@.lists.push(list@));
            assert(self@.tables =~= old(self)@.tables);
        }
        id
    }

    /// Puts the storage of a table at the next free place.
    pub(crate) fn alloc_table(&mut self, table: Keyed) -> (id: usize)
        requires
            old(self).wf(),
            table.wf(),
        ensures
            final(self).wf(),
            id == old(self)@.tables.len(),
            final(self)@ == old(self)@.alloc_table(table@),
    {
        let id: usize = self.tables.len();
        self.tables.push(table);
        proof {
            assert(self@.tables =~= old(self)@.tables.push(table@));
            assert(self@.lists =~= old(self)@.lists);
        }
        id
    }

    /// The storage of the paged sequence at `id`.
    pub(crate) fn list(&self, id: usize) -> (p: &Paged)
        requires
            self.wf(),
            id < self@.lists.len(),
        ensures
            p.wf(),
            p@ == self@.lists[id as int],
    {
        &self.lists[id]
    }

    /// The storage of the table at `id`.
    pub(crate) fn table(&self, id: usize) -> (t: &Keyed)
        requires
            self.wf(),
            id < self@.tables.len(),
        ensures
            t.wf(),
            t@ == self@.tables[id as int],
    {
        &self.tables[id]
    }

    /// The storage of the paged sequence at `id`, for writing.
    pub(crate) fn list_mut(&mut self, id: usize) -> (p: &mut Paged)
        requires
            old(self).wf(),
            id < old(self)@.lists.len(),
        ensures
            p.wf(),
            p@ == old(self)@.lists[id as int],
            final(p).wf() ==> final(self).wf(),
            final(self)@.lists =~= old(self)@.lists.update(id as int, final(p)@),
            final(self)@.tables =~= old(self)@.tables,
            final(p)@ == p@ ==> final(self)@.lists =~= old(self)@.lists,
    {
        &mut self.lists[id]
    }

    /// The storage of the table at `id`, for writing.
    pub(crate) fn table_mut(&mut self, id: usize) -> (t: &mut Keyed)
        requires
            old(self).wf(),
            id < old(self)@.tables.len(),
        ensures
            t.wf(),
            t@ == old(self)@.tables[id as int],
            final(t).wf() ==> final(self).wf(),
            final(self)@.tables =~= old(self)@.tables.update(id as int, final(t)@),
            final(self)@.lists =~= old(self)@.lists,
            final(t)@ == t@ ==> final(self)@.tables =~= old(self)@.tables,
    {
        &mut self.tables[id]
    }

    /// Drops one reference to `d`. The count of its storage goes down by one;
    /// when no second reference is counted, the storage is released instead,
    /// and every value that it contained is dropped in the same way.
    pub fn release(&mut self, d: Data)
        requires
            old(self).wf(),
        ensures
            final(self).wf(),
            final(self)@ == old(self)@.release(d),
            old(self)@.faded_to(final(self)@),
            !old(self)@.holds(d) ==> final(self)@ == old(self)@,
            old(self)@.holds(d) && old(self)@.count(d) > 1 ==> final(self)@ == old(self)@.lowered(d),
            old(self)@.frees(d) ==> !final(self)@.holds(d),
    {
        proof {
            self.lemma_valid();
            self@.lemma_drain_fades(seq![d]);
            if !self@.holds(d) {
                self@.lemma_release_nothing(d);
            } else if self@.count(d) > 1 {
                self@.lemma_release_counted(d);
            } else {
                self@.lemma_release_last(d);
            }
        }
        let mut pending: Vec<Data> = Vec::new();
        pending.push(d);
        proof {
            assert(pending@ =~= seq![d]);
        }
        while pending.len() > 0
            invariant
                self.wf(),
                self@.drain(pending@) == old(self)@.release(d),
            decreases self@.live_count(), pending.len(),
        {
            let ghost before = self@;
            let ghost waiting = pending@;
            let next = pending.pop().unwrap();
            proof {
                assert(pending@ =~= waiting.drop_last());
                if before.holds(next) {
                    before.lemma_retired_count(next);
                }
            }
            match &next.data {
                DataTypes::LIST(l) => {
                    self.drop_list(l.slot(), &mut pending);
                },
                DataTypes::STRING(s) => {
                    self.drop_list(s.slot(), &mut pending);
                },
                DataTypes::MAP(t) => {
                    self.drop_table(t.slot(), &mut pending);
                },
                _ => {},
            }
        }
    }

    /// Drops one reference to the paged sequence at `id`; what it contained,
    /// if this releases it, joins `pending`.
    fn drop_list(&mut self, id: usize, pending: &mut Vec<Data>)
        requires
            old(self).wf(),
        ensures
            final(self).wf(),
            final(self)@ == (if old(self)@.list_live(id as int) && old(self)@.lists[id as int].refc <= 1 {
                old(self)@.with_list(id as int, old(self)@.lists[id as int].retired())
            } else if old(self)@.list_live(id as int) {
                old(self)@.with_list(id as int, old(self)@.lists[id as int].lowered())
            } else {
                old(self)@
            }),
            final(pending)@ == (if old(self)@.list_live(id as int) && old(self)@.lists[id as int].refc <= 1 {
                old(pending)@ + old(self)@.lists[id as int].items
            } else {
                old(pending)@
            }),
    {
        if id < self.lists.len() && self.lists[id].is_live() {
            if self.lists[id].getrc() > 1 {
                self.lists[id].decrc();
                proof {
                    assert(self@.lists =~= old(self)@.lists.update(id as int, old(self)@.lists[id as int].lowered()));
                    assert(self@.tables =~= old(self)@.tables);
                }
            } else {
                let mut items = self.lists[id].retire();
                pending.append(&mut items);
                proof {
                    assert(self@.lists =~= old(self)@.lists.update(id as int, old(self)@.lists[id as int].retired()));
                    assert(self@.tables =~= old(self)@.tables);
                }
            }
        }
    }

    /// Drops one reference to the table at `id`; what its store contained, if
    /// this releases it, joins `pending`.
    fn drop_table(&mut self, id: usize, pending: &mut Vec<Data>)
        requires
            old(self).wf(),
        ensures
            final(self).wf(),
            final(self)@ == (if old(self)@.table_live(id as int) && old(self)@.tables[id as int].refc <= 1 {
                old(self)@.with_table(id as int, old(self)@.tables[id as int].retired())
            } else if old(self)@.table_live(id as int) {
                old(self)@.with_table(id as int, old(self)@.tables[id as int].lowered())
            } else {
                old(self)@
            }),
            final(pending)@ == (if old(self)@.table_live(id as int) && old(self)@.tables[id as int].refc <= 1 {
                old(pending)@ + old(self)@.tables[id as int].store.items
            } else {
                old(pending)@
            }),
    {
        if id < self.tables.len() && self.tables[id].is_live() {
            if self.tables[id].getrc() > 1 {
                self.tables[id].decrc();
                proof {
                    assert(self@.tables =~= old(self)@.tables.update(id as int, old(self)@.tables[id as int].lowered()));
                    assert(self@.lists =~= old(self)@.lists);
                }
            } else {
                let mut items = self.tables[id].retire();
                pending.append(&mut items);
                proof {
                    assert(self@.tables =~= old(self)@.tables.update(id as int, old(self)@.tables[id as int].retired()));
                    assert(self@.lists =~= old(self)@.lists);
                }
            }
        }
    }
}

} // verus!
