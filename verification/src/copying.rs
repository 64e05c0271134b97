//! Deep copies: what a copy is, how one is made, and why it reads like the
//! value it was made from and shares no storage with it.
use crate::data::Data;
use crate::data::DataTypes;
use crate::heap::Heap;
use crate::heap::HeapView;
use crate::list::List;
use crate::list::ListView;
use crate::list::Paged;
use crate::list::DEFAULT_COLS;
use crate::map::Binding;
use crate::map::Keyed;
use crate::map::Table;
use crate::map::TableView;
use crate::string::String;
use vstd::prelude::*;

verus! {

impl HeapView {
    /// The heap with a deep copy of `d` in it, and the copy. A primitive is
    /// its own copy. A container is copied into storage allocated at the next
    /// free place, with one reference counted: a sequence element by element,
    /// each copied in the same way; a table binding by binding, in the order
    /// of the bindings, so that binding `i` of the copy takes slot `i`; a text
    /// character by character.
    pub open spec fn copy(self, d: Data, depth: nat) -> (HeapView, Data)
        decreases depth, 0nat,
    {
        match d.data {
            DataTypes::LIST(l) if depth > 0 => {
                let id = self.lists.len() as int;
                (
                    self.alloc_list(ListView::fresh()).copy_items(
                        self.lists[l.addr()].items,
                        id,
                        (depth - 1) as nat,
                    ),
                    Data { data: DataTypes::LIST(List::handle(id)) },
                )
            },
            DataTypes::STRING(s) => {
                let id = self.lists.len() as int;
                (
                    self.alloc_list(ListView::holding(self.lists[s.addr()].items)),
                    Data { data: DataTypes::STRING(String::handle(id)) },
                )
            },
            DataTypes::MAP(t) if depth > 0 => {
                let id = self.tables.len() as int;
                (
                    self.alloc_table(TableView::fresh()).copy_entries(
                        self.tables[t.addr()].entries,
                        self.tables[t.addr()].store.items,
                        id,
                        (depth - 1) as nat,
                    ),
                    Data { data: DataTypes::MAP(Table::handle(id)) },
                )
            },
            _ => (self, d),
        }
    }

    /// The heap once a deep copy of each of `items`, in their order, has been
    /// appended to the sequence at `into`.
    pub open spec fn copy_items(self, items: Seq<Data>, into: int, depth: nat) -> HeapView
        decreases depth, items.len() + 1,
    {
        if items.len() == 0 {
            self
        } else {
            let done = self.copy_items(items.drop_last(), into, depth);
            let (next, copied) = done.copy(items.last(), depth);
            next.list_append(into, copied)
        }
    }

    /// The heap once, for each of `entries` in their order, a deep copy of its
    /// value in `values` has been bound to its key in the table at `into`.
    pub open spec fn copy_entries(
        self,
        entries: Seq<Binding>,
        values: Seq<Data>,
        into: int,
        depth: nat,
    ) -> HeapView
        decreases depth, entries.len() + 1,
    {
        if entries.len() == 0 {
            self
        } else {
            let done = self.copy_entries(entries.drop_last(), values, into, depth);
            let (next, copied) = done.copy(values[entries.last().slot], depth);
            next.with_table(into, next.tables[into].insert(entries.last().key, copied))
        }
    }

    /// Whether all storage that `d` reaches within `depth` containers lies at
    /// or above the given places: sequences and texts from `lists` on, tables
    /// from `tables` on.
    pub open spec fn apart(self, d: Data, lists: int, tables: int, depth: nat) -> bool
        decreases depth,
    {
        match d.data {
            DataTypes::LIST(l) => {
                &&& l.addr() >= lists
                &&& depth > 0 && self.list_live(l.addr()) ==> forall|i: int|
                    0 <= i < self.lists[l.addr()].items.len() ==> self.apart(
                        #[trigger] self.lists[l.addr()].items[i],
                        lists,
                        tables,
                        (depth - 1) as nat,
                    )
            },
            DataTypes::STRING(s) => s.addr() >= lists,
            DataTypes::MAP(t) => {
                &&& t.addr() >= tables
                &&& depth > 0 && self.table_live(t.addr()) ==> forall|i: int|
                    0 <= i < self.tables[t.addr()].entries.len() ==> self.apart(
                        self.tables[t.addr()].store.items[(
                        #[trigger] self.tables[t.addr()].entries[i]).slot],
                        lists,
                        tables,
                        (depth - 1) as nat,
                    )
            },
            _ => true,
        }
    }

    /// A deep copy leaves everything that the heap held before as it was.
    pub proof fn lemma_copy_kept(self, base: HeapView, d: Data, depth: nat)
        requires
            base.kept_by(self),
        ensures
            base.kept_by(self.copy(d, depth).0),
        decreases depth, 0nat,
    {
        match d.data {
            DataTypes::LIST(l) if depth > 0 => {
                let first = self.alloc_list(ListView::fresh());
                first.lemma_copy_items_kept(
                    base,
                    self.lists[l.addr()].items,
                    self.lists.len() as int,
                    (depth - 1) as nat,
                );
            },
            DataTypes::MAP(t) if depth > 0 => {
                let first = self.alloc_table(TableView::fresh());
                first.lemma_copy_entries_kept(
                    base,
                    self.tables[t.addr()].entries,
                    self.tables[t.addr()].store.items,
                    self.tables.len() as int,
                    (depth - 1) as nat,
                );
            },
            _ => {},
        }
    }

    /// Copying elements into a sequence allocated since leaves everything
    /// that the heap held before as it was.
    pub proof fn lemma_copy_items_kept(self, base: HeapView, items: Seq<Data>, into: int, depth: nat)
        requires
            base.kept_by(self),
            base.lists.len() <= into < self.lists.len(),
        ensures
            base.kept_by(self.copy_items(items, into, depth)),
            self.lists.len() <= self.copy_items(items, into, depth).lists.len(),
        decreases depth, items.len() + 1,
    {
        if items.len() > 0 {
            self.lemma_copy_items_kept(base, items.drop_last(), into, depth);
            let done = self.copy_items(items.drop_last(), into, depth);
            done.lemma_copy_kept(base, items.last(), depth);
            done.lemma_copy_kept(done, items.last(), depth);
        }
    }

    /// The sequence that elements are copied into gains one element for each
    /// of them, and nothing else of it changes.
    pub proof fn lemma_copy_items_made(self, items: Seq<Data>, into: int, depth: nat)
        requires
            self.list_live(into),
        ensures
            ({
                let made = self.copy_items(items, into, depth).lists[into];
                &&& self.copy_items(items, into, depth).list_live(into)
                &&& made.items.len() == self.lists[into].items.len() + items.len()
                &&& made.refc == self.lists[into].refc
                &&& made.cols == self.lists[into].cols
                &&& forall|i: int|
                    0 <= i < self.lists[into].items.len() ==> made.items[i]
                        == self.lists[into].items[i]
            }),
        decreases items.len(),
    {
        if items.len() > 0 {
            self.lemma_copy_items_made(items.drop_last(), into, depth);
            let done = self.copy_items(items.drop_last(), into, depth);
            done.lemma_copy_kept(done, items.last(), depth);
        }
    }

    /// Copying bindings into a table allocated since leaves everything that
    /// the heap held before as it was.
    pub proof fn lemma_copy_entries_kept(
        self,
        base: HeapView,
        entries: Seq<Binding>,
        values: Seq<Data>,
        into: int,
        depth: nat,
    )
        requires
            base.kept_by(self),
            base.tables.len() <= into < self.tables.len(),
        ensures
            base.kept_by(self.copy_entries(entries, values, into, depth)),
            self.tables.len() <= self.copy_entries(entries, values, into, depth).tables.len(),
        decreases depth, entries.len() + 1,
    {
        if entries.len() > 0 {
            self.lemma_copy_entries_kept(base, entries.drop_last(), values, into, depth);
            let done = self.copy_entries(entries.drop_last(), values, into, depth);
            done.lemma_copy_kept(base, values[entries.last().slot], depth);
            done.lemma_copy_kept(done, values[entries.last().slot], depth);
        }
    }

    /// Storage that lies above some places lies above all lower ones.
    pub proof fn lemma_apart_lower(
        self,
        d: Data,
        lists: int,
        tables: int,
        lower_lists: int,
        lower_tables: int,
        depth: nat,
    )
        requires
            self.apart(d, lists, tables, depth),
            lower_lists <= lists,
            lower_tables <= tables,
        ensures
            self.apart(d, lower_lists, lower_tables, depth),
        decreases depth,
    {
        match d.data {
            DataTypes::LIST(l) => {
                if depth > 0 && self.list_live(l.addr()) {
                    assert forall|i: int| 0 <= i < self.lists[l.addr()].items.len() implies self.apart(
                        #[trigger] self.lists[l.addr()].items[i],
                        lower_lists,
                        lower_tables,
                        (depth - 1) as nat,
                    ) by {
                        self.lemma_apart_lower(
                            self.lists[l.addr()].items[i],
                            lists,
                            tables,
                            lower_lists,
                            lower_tables,
                            (depth - 1) as nat,
                        );
                    }
                }
            },
            DataTypes::MAP(t) => {
                if depth > 0 && self.table_live(t.addr()) {
                    let table = self.tables[t.addr()];
                    assert forall|i: int| 0 <= i < table.entries.len() implies self.apart(
                        table.store.items[(#[trigger] table.entries[i]).slot],
                        lower_lists,
                        lower_tables,
                        (depth - 1) as nat,
                    ) by {
                        self.lemma_apart_lower(
                            table.store.items[table.entries[i].slot],
                            lists,
                            tables,
                            lower_lists,
                            lower_tables,
                            (depth - 1) as nat,
                        );
                    }
                }
            },
            _ => {},
        }
    }

    /// Every value lies above the lowest places.
    pub proof fn lemma_apart_all(self, d: Data, depth: nat)
        ensures
            self.apart(d, 0, 0, depth),
        decreases depth,
    {
        match d.data {
            DataTypes::LIST(l) => {
                l.lemma_addr();
                if depth > 0 && self.list_live(l.addr()) {
                    assert forall|i: int| 0 <= i < self.lists[l.addr()].items.len() implies self.apart(
                        #[trigger] self.lists[l.addr()].items[i],
                        0,
                        0,
                        (depth - 1) as nat,
                    ) by {
                        self.lemma_apart_all(self.lists[l.addr()].items[i], (depth - 1) as nat);
                    }
                }
            },
            DataTypes::STRING(s) => {
                s.lemma_addr();
            },
            DataTypes::MAP(t) => {
                t.lemma_addr();
                if depth > 0 && self.table_live(t.addr()) {
                    let table = self.tables[t.addr()];
                    assert forall|i: int| 0 <= i < table.entries.len() implies self.apart(
                        table.store.items[(#[trigger] table.entries[i]).slot],
                        0,
                        0,
                        (depth - 1) as nat,
                    ) by {
                        self.lemma_apart_all(
                            table.store.items[table.entries[i].slot],
                            (depth - 1) as nat,
                        );
                    }
                }
            },
            _ => {},
        }
    }

    /// A value reads the same in every heap that keeps the storage it reaches.
    pub proof fn lemma_same_above(
        self,
        after: HeapView,
        d: Data,
        lists: int,
        tables: int,
        depth: nat,
    )
        requires
            self.sound(d, depth),
            self.apart(d, lists, tables, depth),
            self.kept_above(after, lists, tables),
        ensures
            after.sound(d, depth),
            after.apart(d, lists, tables, depth),
            after.render(d, depth) == self.render(d, depth),
        decreases depth, 0nat,
    {
        match d.data {
            DataTypes::LIST(l) => {
                l.lemma_addr();
                let items = self.lists[l.addr()].items;
                assert(after.lists[l.addr()] == self.lists[l.addr()]);
                assert forall|i: int| 0 <= i < items.len() implies after.sound(
                    #[trigger] after.lists[l.addr()].items[i],
                    (depth - 1) as nat,
                ) && after.apart(
                    after.lists[l.addr()].items[i],
                    lists,
                    tables,
                    (depth - 1) as nat,
                ) by {
                    self.lemma_same_above(after, items[i], lists, tables, (depth - 1) as nat);
                }
                self.lemma_same_items_above(after, items, lists, tables, (depth - 1) as nat);
            },
            DataTypes::STRING(s) => {
                s.lemma_addr();
                assert(after.lists[s.addr()] == self.lists[s.addr()]);
            },
            DataTypes::MAP(t) => {
                t.lemma_addr();
                let table = self.tables[t.addr()];
                assert(after.tables[t.addr()] == table);
                assert forall|i: int| 0 <= i < table.entries.len() implies after.sound(
                    after.tables[t.addr()].store.items[(
                    #[trigger] after.tables[t.addr()].entries[i]).slot],
                    (depth - 1) as nat,
                ) && after.apart(
                    after.tables[t.addr()].store.items[after.tables[t.addr()].entries[i].slot],
                    lists,
                    tables,
                    (depth - 1) as nat,
                ) by {
                    self.lemma_same_above(
                        after,
                        table.store.items[table.entries[i].slot],
                        lists,
                        tables,
                        (depth - 1) as nat,
                    );
                }
                assert(table.entries.take(table.entries.len() as int) =~= table.entries);
                self.lemma_same_entries_above(
                    after,
                    table.entries,
                    table.entries.len() as int,
                    table.store.items,
                    lists,
                    tables,
                    (depth - 1) as nat,
                );
            },
            _ => {},
        }
    }

    /// Elements read the same in every heap that keeps the storage they reach.
    pub proof fn lemma_same_items_above(
        self,
        after: HeapView,
        items: Seq<Data>,
        lists: int,
        tables: int,
        depth: nat,
    )
        requires
            forall|i: int| 0 <= i < items.len() ==> self.sound(#[trigger] items[i], depth),
            forall|i: int|
                0 <= i < items.len() ==> self.apart(#[trigger] items[i], lists, tables, depth),
            self.kept_above(after, lists, tables),
        ensures
            after.render_items(items, depth) == self.render_items(items, depth),
        decreases depth, items.len() + 1,
    {
        if items.len() == 1 {
            self.lemma_same_above(after, items[0], lists, tables, depth);
        } else if items.len() > 1 {
            let head = items.drop_last();
            assert forall|i: int| 0 <= i < head.len() implies self.sound(
                #[trigger] head[i],
                depth,
            ) && self.apart(head[i], lists, tables, depth) by {
                assert(head[i] == items[i]);
            }
            self.lemma_same_items_above(after, head, lists, tables, depth);
            self.lemma_same_above(after, items.last(), lists, tables, depth);
        }
    }

    /// Bindings read the same in every heap that keeps the storage they reach.
    pub proof fn lemma_same_entries_above(
        self,
        after: HeapView,
        entries: Seq<Binding>,
        n: int,
        values: Seq<Data>,
        lists: int,
        tables: int,
        depth: nat,
    )
        requires
            0 <= n <= entries.len(),
            forall|i: int|
                0 <= i < entries.len() ==> self.sound(values[(#[trigger] entries[i]).slot], depth),
            forall|i: int|
                0 <= i < entries.len() ==> self.apart(
                    values[(#[trigger] entries[i]).slot],
                    lists,
                    tables,
                    depth,
                ),
            self.kept_above(after, lists, tables),
        ensures
            after.render_entries(entries.take(n), values, depth) == self.render_entries(
                entries.take(n),
                values,
                depth,
            ),
        decreases depth, n + 1,
    {
        if n > 0 {
            let shown = entries.take(n);
            assert(shown.drop_last() =~= entries.take(n - 1));
            assert(shown.last() == entries[n - 1]);
            self.lemma_same_entries_above(after, entries, n - 1, values, lists, tables, depth);
            self.lemma_same_above(after, values[entries[n - 1].slot], lists, tables, depth);
        }
    }

    /// A value reads the same in every heap that keeps what this one holds.
    pub proof fn lemma_same_kept(self, after: HeapView, d: Data, depth: nat)
        requires
            self.sound(d, depth),
            self.kept_by(after),
        ensures
            after.sound(d, depth),
            after.render(d, depth) == self.render(d, depth),
    {
        self.lemma_apart_all(d, depth);
        self.lemma_same_above(after, d, 0, 0, depth);
    }

    /// Elements that read the same one by one read the same in a row.
    pub proof fn lemma_items_alike(self, items: Seq<Data>, other: HeapView, others: Seq<Data>, depth: nat)
        requires
            items.len() == others.len(),
            forall|i: int|
                0 <= i < items.len() ==> self.render(#[trigger] items[i], depth) == other.render(
                    others[i],
                    depth,
                ),
        ensures
            self.render_items(items, depth) == other.render_items(others, depth),
        decreases items.len(),
    {
        if items.len() == 1 {
            assert(self.render(items[0], depth) == other.render(others[0], depth));
        } else if items.len() > 1 {
            let head = items.drop_last();
            let head_others = others.drop_last();
            assert forall|i: int| 0 <= i < head.len() implies self.render(
                #[trigger] head[i],
                depth,
            ) == other.render(head_others[i], depth) by {
                assert(head[i] == items[i]);
                assert(head_others[i] == others[i]);
            }
            self.lemma_items_alike(head, other, head_others, depth);
            assert(self.render(items[items.len() - 1], depth) == other.render(
                others[items.len() - 1],
                depth,
            ));
        }
    }

    /// Bindings that have the same keys and whose values read the same one by
    /// one read the same in a row.
    pub proof fn lemma_entries_alike(
        self,
        entries: Seq<Binding>,
        values: Seq<Data>,
        other: HeapView,
        other_entries: Seq<Binding>,
        other_values: Seq<Data>,
        n: int,
        depth: nat,
    )
        requires
            0 <= n <= entries.len(),
            n <= other_entries.len(),
            forall|i: int|
                0 <= i < n ==> {
                    &&& (#[trigger] entries[i]).key == other_entries[i].key
                    &&& self.render(values[entries[i].slot], depth) == other.render(
                        other_values[other_entries[i].slot],
                        depth,
                    )
                    &&& (values[entries[i].slot].data is NULL)
                        == (other_values[other_entries[i].slot].data is NULL)
                },
        ensures
            self.render_entries(entries.take(n), values, depth) == other.render_entries(
                other_entries.take(n),
                other_values,
                depth,
            ),
        decreases n,
    {
        if n > 0 {
            let shown = entries.take(n);
            let other_shown = other_entries.take(n);
            assert(shown.drop_last() =~= entries.take(n - 1));
            assert(other_shown.drop_last() =~= other_entries.take(n - 1));
            assert(shown.last() == entries[n - 1]);
            assert(other_shown.last() == other_entries[n - 1]);
            self.lemma_entries_alike(
                entries,
                values,
                other,
                other_entries,
                other_values,
                n - 1,
                depth,
            );
            assert(entries[n - 1].key == other_entries[n - 1].key);
        }
    }

    /// A deep copy reads like the value it was made from and reaches only
    /// storage that was allocated for it, each container of it with one
    /// reference counted. Making it leaves everything that the heap held
    /// before as it was.
    pub proof fn lemma_copy_alike(self, d: Data, depth: nat)
        requires
            self.valid(),
            self.sound(d, depth),
            self.copy(d, depth).0.sized(),
        ensures
            ({
                let (after, copied) = self.copy(d, depth);
                &&& self.kept_by(after)
                &&& after.valid()
                &&& after.sound(copied, depth)
                &&& after.apart(copied, self.lists.len() as int, self.tables.len() as int, depth)
                &&& after.render(copied, depth) == self.render(d, depth)
                &&& (copied.data is NULL) == (d.data is NULL)
                &&& after.holds(d) ==> after.holds(copied) && after.count(copied) == 1
            }),
        decreases depth, 0nat,
    {
        let (after, copied) = self.copy(d, depth);
        self.lemma_copy_kept(self, d, depth);
        match d.data {
            DataTypes::LIST(l) => {
                let into = self.lists.len() as int;
                let first = self.alloc_list(ListView::fresh());
                let items = self.lists[l.addr()].items;
                let below = (depth - 1) as nat;
                List::lemma_handle(into);
                assert(items.take(items.len() as int) =~= items);
                first.lemma_copy_items_alike(self, items, items.len() as int, into, below);
                let made = after.lists[into];
                assert forall|i: int| 0 <= i < made.items.len() implies after.apart(
                    #[trigger] made.items[i],
                    into,
                    self.tables.len() as int,
                    below,
                ) by {
                    after.lemma_apart_lower(
                        made.items[i],
                        into + 1,
                        self.tables.len() as int,
                        into,
                        self.tables.len() as int,
                        below,
                    );
                }
                after.lemma_items_alike(made.items, self, items, below);
            },
            DataTypes::STRING(s) => {
                let into = self.lists.len() as int;
                String::lemma_handle(into);
                let made = ListView::holding(self.lists[s.addr()].items);
                ListView::fresh().lemma_append_each(self.lists[s.addr()].items);
                assert(Seq::<Data>::empty() + self.lists[s.addr()].items =~= self.lists[s.addr(
                )].items);
                assert(made.text() =~= self.lists[s.addr()].text());
            },
            DataTypes::MAP(t) => {
                let into = self.tables.len() as int;
                let first = self.alloc_table(TableView::fresh());
                let table = self.tables[t.addr()];
                let below = (depth - 1) as nat;
                Table::lemma_handle(into);
                assert(TableView::fresh().valid()) by {
                    assert(ListView::fresh().valid());
                }
                assert(table.entries.take(table.entries.len() as int) =~= table.entries);
                first.lemma_copy_entries_alike(
                    self,
                    table.entries,
                    table.entries.len() as int,
                    table.store.items,
                    into,
                    below,
                );
                let made = after.tables[into];
                assert forall|i: int| 0 <= i < made.entries.len() implies after.apart(
                    made.store.items[(#[trigger] made.entries[i]).slot],
                    self.lists.len() as int,
                    into,
                    below,
                ) && after.sound(made.store.items[made.entries[i].slot], below) by {
                    assert(made.entries[i].slot == i);
                    after.lemma_apart_lower(
                        made.store.items[i],
                        self.lists.len() as int,
                        into + 1,
                        self.lists.len() as int,
                        into,
                        below,
                    );
                }
                assert(made.entries.take(made.entries.len() as int) =~= made.entries);
                after.lemma_entries_alike(
                    made.entries,
                    made.store.items,
                    self,
                    table.entries,
                    table.store.items,
                    table.entries.len() as int,
                    below,
                );
            },
            _ => {},
        }
    }

    /// What copying the first `n` of `items` into a new sequence makes: a
    /// sequence of as many elements, each a deep copy of its counterpart.
    pub proof fn lemma_copy_items_alike(
        self,
        base: HeapView,
        items: Seq<Data>,
        n: int,
        into: int,
        depth: nat,
    )
        requires
            base.valid(),
            self.valid(),
            base.kept_by(self),
            base.lists.len() <= into < self.lists.len(),
            self.lists[into] == ListView::fresh(),
            0 <= n <= items.len(),
            forall|i: int| 0 <= i < items.len() ==> base.sound(#[trigger] items[i], depth),
            self.copy_items(items.take(n), into, depth).sized(),
        ensures
            ({
                let after = self.copy_items(items.take(n), into, depth);
                let made = after.lists[into];
                &&& base.kept_by(after)
                &&& self.lists.len() <= after.lists.len()
                &&& self.tables.len() <= after.tables.len()
                &&& after.valid()
                &&& made.live
                &&& made.refc == 1
                &&& made.items.len() == n
                &&& forall|i: int|
                    0 <= i < n ==> {
                        &&& after.sound(#[trigger] made.items[i], depth)
                        &&& after.apart(made.items[i], into + 1, base.tables.len() as int, depth)
                        &&& after.render(made.items[i], depth) == base.render(items[i], depth)
                    }
            }),
        decreases depth, n + 1,
    {
        if n > 0 {
            let shown = items.take(n);
            assert(shown.drop_last() =~= items.take(n - 1));
            assert(shown.last() == items[n - 1]);
            let done = self.copy_items(items.take(n - 1), into, depth);
            let (next, copied) = done.copy(items[n - 1], depth);
            let after = next.list_append(into, copied);
            self.lemma_copy_items_kept(base, items.take(n - 1), into, depth);
            done.lemma_copy_kept(done, items[n - 1], depth);
            self.lemma_copy_items_alike(base, items, n - 1, into, depth);
            base.lemma_same_kept(done, items[n - 1], depth);
            done.lemma_copy_alike(items[n - 1], depth);
            let before = done.lists[into];
            assert(next.lists[into] == before);
            before.lemma_grow_valid(0, copied);
            let made = after.lists[into];
            assert(made.items =~= before.items.push(copied));
            assert(after.valid());
            assert(done.kept_above(after, into + 1, base.tables.len() as int));
            assert(next.kept_above(after, done.lists.len() as int, done.tables.len() as int));
            next.lemma_same_above(
                after,
                copied,
                done.lists.len() as int,
                done.tables.len() as int,
                depth,
            );
            after.lemma_apart_lower(
                copied,
                done.lists.len() as int,
                done.tables.len() as int,
                into + 1,
                base.tables.len() as int,
                depth,
            );
            assert forall|i: int| 0 <= i < n implies {
                &&& after.sound(#[trigger] made.items[i], depth)
                &&& after.apart(made.items[i], into + 1, base.tables.len() as int, depth)
                &&& after.render(made.items[i], depth) == base.render(items[i], depth)
            } by {
                if i < n - 1 {
                    assert(made.items[i] == before.items[i]);
                    done.lemma_same_above(
                        after,
                        before.items[i],
                        into + 1,
                        base.tables.len() as int,
                        depth,
                    );
                }
            }
        } else {
            assert(items.take(0) =~= Seq::<Data>::empty());
        }
    }

    /// What copying the first `n` of `entries` into a new table makes: a
    /// table of as many bindings, binding `i` with the key of its counterpart
    /// and slot `i`, which holds a deep copy of the counterpart's value.
    pub proof fn lemma_copy_entries_alike(
        self,
        base: HeapView,
        entries: Seq<Binding>,
        n: int,
        values: Seq<Data>,
        into: int,
        depth: nat,
    )
        requires
            base.valid(),
            self.valid(),
            base.kept_by(self),
            base.tables.len() <= into < self.tables.len(),
            self.tables[into] == TableView::fresh(),
            0 <= n <= entries.len(),
            forall|i: int, j: int|
                0 <= i < j < entries.len() ==> (#[trigger] entries[i]).key != (
                #[trigger] entries[j]).key,
            forall|i: int|
                0 <= i < entries.len() ==> base.sound(values[(#[trigger] entries[i]).slot], depth),
            self.copy_entries(entries.take(n), values, into, depth).sized(),
        ensures
            ({
                let after = self.copy_entries(entries.take(n), values, into, depth);
                let made = after.tables[into];
                &&& base.kept_by(after)
                &&& self.lists.len() <= after.lists.len()
                &&& self.tables.len() <= after.tables.len()
                &&& after.valid()
                &&& made.live
                &&& made.refc == 1
                &&& made.entries.len() == n
                &&& made.store.items.len() == n
                &&& forall|i: int|
                    0 <= i < n ==> {
                        &&& #[trigger] made.entries[i] == (Binding { key: entries[i].key, slot: i })
                        &&& after.sound(made.store.items[i], depth)
                        &&& after.apart(made.store.items[i], base.lists.len() as int, into + 1, depth)
                        &&& after.render(made.store.items[i], depth) == base.render(
                            values[entries[i].slot],
                            depth,
                        )
                        &&& (made.store.items[i].data is NULL) == (values[entries[i].slot].data
                            is NULL)
                    }
            }),
        decreases depth, n + 1,
    {
        if n > 0 {
            let shown = entries.take(n);
            assert(shown.drop_last() =~= entries.take(n - 1));
            assert(shown.last() == entries[n - 1]);
            let value = values[entries[n - 1].slot];
            let key = entries[n - 1].key;
            let done = self.copy_entries(entries.take(n - 1), values, into, depth);
            let (next, copied) = done.copy(value, depth);
            let before = next.tables[into];
            let after = next.with_table(into, before.insert(key, copied));
            self.lemma_copy_entries_kept(base, entries.take(n - 1), values, into, depth);
            done.lemma_copy_kept(done, value, depth);
            self.lemma_copy_entries_alike(base, entries, n - 1, values, into, depth);
            base.lemma_same_kept(done, value, depth);
            done.lemma_copy_alike(value, depth);
            assert(before == done.tables[into]);
            if before.has(key) {
                let at = before.at(key);
                assert(before.entries[at].key == entries[at].key);
                assert(entries[at].key != entries[n - 1].key);
            }
            before.lemma_insert(key, copied);
            let made = after.tables[into];
            assert(made.entries =~= before.entries.push(Binding { key: key, slot: n - 1 }));
            assert(made.store.items =~= before.store.items.push(copied));
            assert(after.valid());
            assert(done.kept_above(after, base.lists.len() as int, into + 1));
            assert(next.kept_above(after, done.lists.len() as int, done.tables.len() as int));
            next.lemma_same_above(
                after,
                copied,
                done.lists.len() as int,
                done.tables.len() as int,
                depth,
            );
            after.lemma_apart_lower(
                copied,
                done.lists.len() as int,
                done.tables.len() as int,
                base.lists.len() as int,
                into + 1,
                depth,
            );
            assert forall|i: int| 0 <= i < n implies {
                &&& #[trigger] made.entries[i] == (Binding { key: entries[i].key, slot: i })
                &&& after.sound(made.store.items[i], depth)
                &&& after.apart(made.store.items[i], base.lists.len() as int, into + 1, depth)
                &&& after.render(made.store.items[i], depth) == base.render(
                    values[entries[i].slot],
                    depth,
                )
                &&& (made.store.items[i].data is NULL) == (values[entries[i].slot].data is NULL)
            } by {
                if i < n - 1 {
                    assert(made.entries[i] == before.entries[i]);
                    assert(made.store.items[i] == before.store.items[i]);
                    done.lemma_same_above(
                        after,
                        before.store.items[i],
                        base.lists.len() as int,
                        into + 1,
                        depth,
                    );
                }
            }
        } else {
            assert(entries.take(0) =~= Seq::<Binding>::empty());
        }
    }
}

/// Allocates a text that holds the characters of the text at `id`.
pub(crate) fn copy_text(heap: &mut Heap, id: usize) -> (into: usize)
    requires
        old(heap).wf(),
        old(heap)@.list_live(id as int),
    ensures
        final(heap).wf(),
        into == old(heap)@.lists.len(),
        final(heap)@ == old(heap)@.alloc_list(ListView::holding(old(heap)@.lists[id as int].items)),
        old(heap)@.kept_by(final(heap)@),
{
    let items = heap.list(id).snapshot();
    let mut store = Paged::with_cols(DEFAULT_COLS);
    proof {
        assert(items.len() <= usize::MAX);
        assert(Seq::<Data>::empty() + items@ =~= items@);
    }
    store.append_all(items);
    heap.alloc_list(store)
}

/// Allocates a sequence and appends a deep copy of each element of the
/// sequence at `id` to it.
pub(crate) fn copy_list(heap: &mut Heap, id: usize, Ghost(depth): Ghost<nat>) -> (into: usize)
    requires
        old(heap).wf(),
        depth > 0,
        old(heap)@.list_live(id as int),
        forall|i: int|
            0 <= i < old(heap)@.lists[id as int].items.len() ==> old(heap)@.sound(
                #[trigger] old(heap)@.lists[id as int].items[i],
                (depth - 1) as nat,
            ),
    ensures
        final(heap).wf(),
        into == old(heap)@.lists.len(),
        final(heap)@ == old(heap)@.alloc_list(ListView::fresh()).copy_items(
            old(heap)@.lists[id as int].items,
            into as int,
            (depth - 1) as nat,
        ),
        old(heap)@.kept_by(final(heap)@),
    decreases depth, 1nat,
{
    let items = heap.list(id).snapshot();
    let ghost start = heap@;
    let ghost below = (depth - 1) as nat;
    let into = heap.alloc_list(Paged::with_cols(DEFAULT_COLS));
    let ghost first = heap@;
    let n: usize = items.len();
    let mut i: usize = 0;
    proof {
        assert(items@.take(0) =~= Seq::<Data>::empty());
    }
    while i < n
        invariant
            heap.wf(),
            i <= n,
            n == items@.len(),
            depth > 0,
            below == depth - 1,
            start.kept_by(heap@),
            into == start.lists.len(),
            heap@.list_live(into as int),
            heap@.lists[into as int].items.len() == i,
            heap@ == first.copy_items(items@.take(i as int), into as int, below),
            forall|k: int| 0 <= k < items@.len() ==> start.sound(#[trigger] items@[k], below),
        decreases n - i,
    {
        let ghost before = heap@;
        proof {
            start.lemma_sound_kept(before, items@[i as int], below);
        }
        let copied = copy_into(heap, &items[i], Ghost(below));
        let ghost between = heap@;
        heap.list_mut(into).append(copied);
        proof {
            let next = items@.take(i + 1);
            assert(next.drop_last() =~= items@.take(i as int));
            assert(next.last() == items@[i as int]);
            assert(between.lists[into as int] == before.lists[into as int]);
        }
        i = i + 1;
    }
    proof {
        assert(items@.take(n as int) =~= items@);
    }
    into
}

/// Allocates a table and binds a deep copy of the value of each key of the
/// table at `id` to that key in it, in the order of the bindings.
pub(crate) fn copy_table(heap: &mut Heap, id: usize, Ghost(depth): Ghost<nat>) -> (into: usize)
    requires
        old(heap).wf(),
        depth > 0,
        old(heap)@.table_live(id as int),
        forall|i: int|
            0 <= i < old(heap)@.tables[id as int].entries.len() ==> old(heap)@.sound(
                old(heap)@.tables[id as int].store.items[(
                #[trigger] old(heap)@.tables[id as int].entries[i]).slot],
                (depth - 1) as nat,
            ),
    ensures
        final(heap).wf(),
        into == old(heap)@.tables.len(),
        final(heap)@ == old(heap)@.alloc_table(TableView::fresh()).copy_entries(
            old(heap)@.tables[id as int].entries,
            old(heap)@.tables[id as int].store.items,
            into as int,
            (depth - 1) as nat,
        ),
        old(heap)@.kept_by(final(heap)@),
    decreases depth, 1nat,
{
    let keys = heap.table(id).keys();
    let bound = heap.table(id).bound_values();
    let ghost start = heap@;
    let ghost entries = start.tables[id as int].entries;
    let ghost values = start.tables[id as int].store.items;
    let ghost below = (depth - 1) as nat;
    let into = heap.alloc_table(Keyed::new());
    let ghost first = heap@;
    let n: usize = keys.len();
    let mut i: usize = 0;
    proof {
        assert(entries.take(0) =~= Seq::<crate::map::Binding>::empty());
    }
    while i < n
        invariant
            heap.wf(),
            i <= n,
            n == entries.len(),
            n == keys@.len(),
            n == bound@.len(),
            depth > 0,
            below == depth - 1,
            start.kept_by(heap@),
            into == start.tables.len(),
            heap@.table_live(into as int),
            heap@.tables[into as int].store.items.len() <= i,
            heap@ == first.copy_entries(entries.take(i as int), values, into as int, below),
            forall|k: int| 0 <= k < n ==> (#[trigger] keys@[k])@ == entries[k].key,
            forall|k: int| 0 <= k < n ==> bound@[k] == values[(#[trigger] entries[k]).slot],
            forall|k: int| 0 <= k < n ==> start.sound(values[(#[trigger] entries[k]).slot], below),
        decreases n - i,
    {
        let ghost before = heap@;
        proof {
            assert(bound@[i as int] == values[entries[i as int].slot]);
            start.lemma_sound_kept(before, bound@[i as int], below);
        }
        let copied = copy_into(heap, &bound[i], Ghost(below));
        let ghost between = heap@;
        proof {
            assert(between.tables[into as int] == before.tables[into as int]);
            heap.lemma_valid();
            let table = between.tables[into as int];
            if table.has(keys@[i as int]@) {
                let at = table.at(keys@[i as int]@);
                assert(0 <= table.entries[at].slot < table.store.items.len());
            }
        }
        heap.table_mut(into).insert(keys[i].as_str(), copied);
        proof {
            let next = entries.take(i + 1);
            assert(next.drop_last() =~= entries.take(i as int));
            assert(next.last() == entries[i as int]);
            assert(keys@[i as int]@ == entries[i as int].key);
        }
        i = i + 1;
    }
    proof {
        assert(entries.take(n as int) =~= entries);
    }
    into
}

/// Makes a deep copy of `d`.
pub(crate) fn copy_into(heap: &mut Heap, d: &Data, Ghost(depth): Ghost<nat>) -> (copied: Data)
    requires
        old(heap).wf(),
        old(heap)@.sound(*d, depth),
    ensures
        final(heap).wf(),
        (final(heap)@, copied) == old(heap)@.copy(*d, depth),
        old(heap)@.kept_by(final(heap)@),
    decreases depth, 2nat,
{
    match &d.data {
        DataTypes::STRING(s) => {
            let into = copy_text(heap, s.slot());
            Data { data: DataTypes::STRING(String::at(into)) }
        },
        DataTypes::LIST(l) => {
            let into = copy_list(heap, l.slot(), Ghost(depth));
            Data { data: DataTypes::LIST(List::at(into)) }
        },
        DataTypes::MAP(t) => {
            let into = copy_table(heap, t.slot(), Ghost(depth));
            Data { data: DataTypes::MAP(Table::at(into)) }
        },
        _ => d.dup(),
    }
}

} // verus!
