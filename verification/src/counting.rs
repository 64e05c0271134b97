//! The reference counts: what counting, giving up and releasing do to a heap.
//!
//! Every handle on a container shares the one counter that the heap keeps
//! with the storage. Giving up a reference lowers it; giving up the last one
//! releases the storage and gives up, in turn, every reference that the
//! storage held.
use crate::data::Data;
use crate::data::DataTypes;
use crate::heap::HeapView;
use crate::list::ListView;
use crate::map::TableView;
use vstd::prelude::*;

verus! {

/// How many of the flags are set.
pub open spec fn count_set(flags: Seq<bool>) -> nat
    decreases flags.len(),
{
    if flags.len() == 0 {
        0
    } else {
        count_set(flags.drop_last()) + if flags.last() {
            1nat
        } else {
            0nat
        }
    }
}

/// Changing one flag changes the count by that flag.
pub proof fn lemma_count_set_update(flags: Seq<bool>, i: int, b: bool)
    requires
        0 <= i < flags.len(),
    ensures
        count_set(flags.update(i, b)) + (if flags[i] { 1nat } else { 0nat }) == count_set(flags) + (if b { 1nat } else { 0nat }),
    decreases flags.len(),
{
    if i == flags.len() - 1 {
        assert(flags.update(i, b).drop_last() =~= flags.drop_last());
    } else {
        lemma_count_set_update(flags.drop_last(), i, b);
        assert(flags.update(i, b).drop_last() =~= flags.drop_last().update(i, b));
    }
}

impl HeapView {
    /// Whether `d` is a handle on storage that exists.
    pub open spec fn holds(self, d: Data) -> bool {
        match d.data {
            DataTypes::LIST(l) => self.list_live(l.addr()),
            DataTypes::STRING(s) => self.list_live(s.addr()),
            DataTypes::MAP(t) => self.table_live(t.addr()),
            _ => false,
        }
    }

    /// The reference count of the storage that `d` is a handle on; zero for
    /// every other value.
    pub open spec fn count(self, d: Data) -> int {
        match d.data {
            DataTypes::LIST(l) if self.list_live(l.addr()) => self.lists[l.addr()].refc,
            DataTypes::STRING(s) if self.list_live(s.addr()) => self.lists[s.addr()].refc,
            DataTypes::MAP(t) if self.table_live(t.addr()) => self.tables[t.addr()].refc,
            _ => 0,
        }
    }

    /// What the storage that `d` is a handle on contains: the elements of a
    /// sequence, the value store of a table.
    pub open spec fn contents(self, d: Data) -> Seq<Data> {
        match d.data {
            DataTypes::LIST(l) if self.list_live(l.addr()) => self.lists[l.addr()].items,
            DataTypes::STRING(s) if self.list_live(s.addr()) => self.lists[s.addr()].items,
            DataTypes::MAP(t) if self.table_live(t.addr()) => self.tables[t.addr()].store.items,
            _ => Seq::empty(),
        }
    }

    /// The heap with one more reference counted on the storage of `d`.
    pub open spec fn retained(self, d: Data) -> HeapView {
        match d.data {
            DataTypes::LIST(l) if self.list_live(l.addr()) => self.with_list(
                l.addr(),
                self.lists[l.addr()].retained(),
            ),
            DataTypes::STRING(s) if self.list_live(s.addr()) => self.with_list(
                s.addr(),
                self.lists[s.addr()].retained(),
            ),
            DataTypes::MAP(t) if self.table_live(t.addr()) => self.with_table(
                t.addr(),
                self.tables[t.addr()].retained(),
            ),
            _ => self,
        }
    }

    /// The heap with one reference fewer counted on the storage of `d`, never
    /// below zero.
    pub open spec fn lowered(self, d: Data) -> HeapView {
        match d.data {
            DataTypes::LIST(l) if self.list_live(l.addr()) => self.with_list(
                l.addr(),
                self.lists[l.addr()].lowered(),
            ),
            DataTypes::STRING(s) if self.list_live(s.addr()) => self.with_list(
                s.addr(),
                self.lists[s.addr()].lowered(),
            ),
            DataTypes::MAP(t) if self.table_live(t.addr()) => self.with_table(
                t.addr(),
                self.tables[t.addr()].lowered(),
            ),
            _ => self,
        }
    }

    /// The heap with the storage of `d` released.
    pub open spec fn retired(self, d: Data) -> HeapView {
        match d.data {
            DataTypes::LIST(l) if self.list_live(l.addr()) => self.with_list(
                l.addr(),
                self.lists[l.addr()].retired(),
            ),
            DataTypes::STRING(s) if self.list_live(s.addr()) => self.with_list(
                s.addr(),
                self.lists[s.addr()].retired(),
            ),
            DataTypes::MAP(t) if self.table_live(t.addr()) => self.with_table(
                t.addr(),
                self.tables[t.addr()].retired(),
            ),
            _ => self,
        }
    }

    /// How many containers of the heap have storage that exists.
    pub open spec fn live_count(self) -> nat {
        count_set(self.lists.map_values(|l: ListView| l.live)) + count_set(
            self.tables.map_values(|t: TableView| t.live),
        )
    }

    /// Whether dropping one reference to `d` releases its storage: it exists
    /// and no second reference is counted.
    pub open spec fn frees(self, d: Data) -> bool {
        self.holds(d) && self.count(d) <= 1
    }

    /// The heap once every value of `pending` has been dropped, the last one
    /// first. Dropping a value lowers the count of its storage; when no second
    /// reference is counted, the storage is released instead and what it
    /// contained is dropped in turn.
    pub open spec fn drain(self, pending: Seq<Data>) -> HeapView
        decreases self.live_count(), pending.len(),
    {
        if pending.len() == 0 {
            self
        } else {
            let d = pending.last();
            let rest = pending.drop_last();
            if self.frees(d) {
                proof {
                    self.lemma_retired_count(d);
                }
                self.retired(d).drain(rest + self.contents(d))
            } else {
                proof {
                    if self.holds(d) {
                        self.lemma_retired_count(d);
                    }
                }
                self.lowered(d).drain(rest)
            }
        }
    }

    /// The heap once one reference to `d` has been dropped.
    pub open spec fn release(self, d: Data) -> HeapView {
        self.drain(seq![d])
    }

    /// Whether `after` is this heap with some counts lowered and some storage
    /// released, and nothing else changed.
    pub open spec fn faded_to(self, after: HeapView) -> bool {
        &&& after.lists.len() == self.lists.len()
        &&& after.tables.len() == self.tables.len()
        &&& forall|i: int|
            0 <= i < self.lists.len() ==> {
                ||| #[trigger] after.lists[i] == self.lists[i].retired()
                ||| {
                    &&& after.lists[i] == (ListView { refc: after.lists[i].refc, ..self.lists[i] })
                    &&& self.lists[i].refc >= 0 ==> 0 <= after.lists[i].refc <= self.lists[i].refc
                }
            }
        &&& forall|i: int|
            0 <= i < self.tables.len() ==> {
                ||| #[trigger] after.tables[i] == self.tables[i].retired()
                ||| {
                    &&& after.tables[i] == (TableView {
                        refc: after.tables[i].refc,
                        ..self.tables[i]
                    })
                    &&& self.tables[i].refc >= 0 ==> 0 <= after.tables[i].refc
                        <= self.tables[i].refc
                }
            }
    }

    /// Replacing the sequence at a place changes the number of live containers
    /// by whether the old and the new one exist.
    pub proof fn lemma_list_count(self, id: int, list: ListView)
        requires
            0 <= id < self.lists.len(),
        ensures
            self.with_list(id, list).live_count() + (if self.lists[id].live {
                1nat
            } else {
                0nat
            }) == self.live_count() + (if list.live {
                1nat
            } else {
                0nat
            }),
    {
        let flags = self.lists.map_values(|l: ListView| l.live);
        lemma_count_set_update(flags, id, list.live);
        assert(self.with_list(id, list).lists.map_values(|l: ListView| l.live) =~= flags.update(
            id,
            list.live,
        ));
    }

    /// Replacing the table at a place changes the number of live containers
    /// by whether the old and the new one exist.
    pub proof fn lemma_table_count(self, id: int, table: TableView)
        requires
            0 <= id < self.tables.len(),
        ensures
            self.with_table(id, table).live_count() + (if self.tables[id].live {
                1nat
            } else {
                0nat
            }) == self.live_count() + (if table.live {
                1nat
            } else {
                0nat
            }),
    {
        let flags = self.tables.map_values(|t: TableView| t.live);
        lemma_count_set_update(flags, id, table.live);
        assert(self.with_table(id, table).tables.map_values(|t: TableView| t.live)
            =~= flags.update(id, table.live));
    }

    /// Releasing storage leaves one live container fewer; counting on it
    /// leaves as many.
    pub proof fn lemma_retired_count(self, d: Data)
        requires
            self.holds(d),
        ensures
            self.retired(d).live_count() + 1 == self.live_count(),
            self.lowered(d).live_count() == self.live_count(),
            self.retained(d).live_count() == self.live_count(),
    {
        match d.data {
            DataTypes::LIST(l) => self.lemma_list_place_count(l.addr()),
            DataTypes::STRING(s) => self.lemma_list_place_count(s.addr()),
            DataTypes::MAP(t) => {
                let id = t.addr();
                self.lemma_table_count(id, self.tables[id].retired());
                self.lemma_table_count(id, self.tables[id].lowered());
                self.lemma_table_count(id, self.tables[id].retained());
            },
            _ => {},
        }
    }

    /// What releasing and counting do to the number of live containers, for the
    /// sequence at a place.
    pub proof fn lemma_list_place_count(self, id: int)
        requires
            self.list_live(id),
        ensures
            self.with_list(id, self.lists[id].retired()).live_count() + 1 == self.live_count(),
            self.with_list(id, self.lists[id].lowered()).live_count() == self.live_count(),
            self.with_list(id, self.lists[id].retained()).live_count() == self.live_count(),
    {
        self.lemma_list_count(id, self.lists[id].retired());
        self.lemma_list_count(id, self.lists[id].lowered());
        self.lemma_list_count(id, self.lists[id].retained());
    }

    /// Dropping a value that is no handle on existing storage changes nothing.
    pub proof fn lemma_release_nothing(self, d: Data)
        requires
            !self.holds(d),
        ensures
            self.release(d) == self,
    {
        let pending = seq![d];
        assert(pending.last() == d);
        assert(pending.drop_last() =~= Seq::<Data>::empty());
        assert(self.lowered(d) == self);
        reveal_with_fuel(HeapView::drain, 2);
    }

    /// Dropping a reference to storage on which a second one is counted
    /// lowers the count and does nothing else.
    pub proof fn lemma_release_counted(self, d: Data)
        requires
            self.holds(d),
            self.count(d) > 1,
        ensures
            self.release(d) == self.lowered(d),
    {
        let pending = seq![d];
        assert(pending.last() == d);
        assert(pending.drop_last() =~= Seq::<Data>::empty());
        reveal_with_fuel(HeapView::drain, 2);
    }

    /// Dropping the last counted reference to storage releases the storage.
    pub proof fn lemma_release_last(self, d: Data)
        requires
            self.valid(),
            self.frees(d),
        ensures
            !self.release(d).holds(d),
    {
        let pending = seq![d];
        assert(pending.last() == d);
        let next = self.retired(d);
        assert(next.valid());
        next.lemma_drain_fades(pending.drop_last() + self.contents(d));
    }

    /// Dropping values lowers counts and releases storage, and changes nothing
    /// else: what a container holds stays as it is for as long as the
    /// container exists.
    pub proof fn lemma_drain_fades(self, pending: Seq<Data>)
        requires
            self.valid(),
        ensures
            self.faded_to(self.drain(pending)),
            self.drain(pending).valid(),
        decreases self.live_count(), pending.len(),
    {
        if pending.len() > 0 {
            let d = pending.last();
            let rest = pending.drop_last();
            if self.holds(d) {
                self.lemma_retired_count(d);
            }
            if self.frees(d) {
                let next = self.retired(d);
                assert(self.faded_to(next));
                assert(next.valid());
                next.lemma_drain_fades(rest + self.contents(d));
                let end = next.drain(rest + self.contents(d));
                assert(self.faded_to(end));
            } else {
                let next = self.lowered(d);
                assert(self.faded_to(next));
                assert(next.valid());
                next.lemma_drain_fades(rest);
                let end = next.drain(rest);
                assert(self.faded_to(end));
            }
        }
    }
}

} // verus!
