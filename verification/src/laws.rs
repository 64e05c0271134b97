//! What the operations guarantee when they are taken together.
//!
//! Every statement here is about the views that the contracts of the
//! operations speak of, so it holds of every run of the operations.
use crate::data::Data;
use crate::heap::HeapView;
use crate::list::List;
use crate::list::ListView;
use crate::map::Table;
use crate::map::TableView;
use crate::traits::memory::RefC;
use vstd::prelude::*;

verus! {

impl HeapView {
    /// The heap once the values of `values` have been appended, one at a time
    /// and in their order, to the sequence at `id`.
    pub open spec fn list_append_each(self, id: int, values: Seq<Data>) -> HeapView
        decreases values.len(),
    {
        if values.len() == 0 {
            self
        } else {
            self.list_append_each(id, values.drop_last()).list_append(id, values.last())
        }
    }
}

/// Appending values one at a time changes the one sequence, and changes it as
/// extending it by all of them does.
pub proof fn append_each_extends(heap: HeapView, id: int, values: Seq<Data>)
    requires
        heap.valid(),
        heap.list_live(id),
    ensures
        heap.list_append_each(id, values) == heap.with_list(id, heap.lists[id].extend(values)),
    decreases values.len(),
{
    let list = heap.lists[id];
    list.lemma_append_each(values);
    if values.len() == 0 {
        list.lemma_rows_step();
        assert(list.items + values =~= list.items);
        assert(heap.lists.update(id, list) =~= heap.lists);
    } else {
        let head = values.drop_last();
        append_each_extends(heap, id, head);
        list.lemma_append_each(head);
        let mid = heap.with_list(id, list.extend(head));
        assert(mid.lists.update(id, list.extend(head).append(values.last())) =~= heap.lists.update(
            id,
            list.extend(values),
        ));
    }
}

/// Values appended in order are read back in that order: the value appended
/// `i`-th is the element `i` places behind the old end, there is nothing
/// behind the last one, and what the sequence held before stays where it was.
pub proof fn append_then_get(heap: HeapView, id: int, values: Seq<Data>, i: int)
    requires
        heap.valid(),
        heap.list_live(id),
        0 <= i <= values.len(),
    ensures
        heap.list_append_each(id, values).lists[id].get(heap.lists[id].items.len() + i) == (if i
            < values.len() {
            Some(values[i])
        } else {
            None
        }),
        forall|k: int|
            0 <= k < heap.lists[id].items.len() ==> heap.list_append_each(id, values).lists[id].get(
                k,
            ) == heap.lists[id].get(k),
{
    append_each_extends(heap, id, values);
}

/// A new sequence to which values have been appended one at a time has one row
/// for every `DEFAULT_COLS` values begun, and no more.
pub proof fn rows_of_a_new_sequence(values: Seq<Data>)
    ensures
        ListView::fresh().append_each(values) == ListView::holding(values),
        ListView::holding(values).rows * crate::list::DEFAULT_COLS >= values.len(),
        values.len() > 0 ==> (ListView::holding(values).rows - 1) * crate::list::DEFAULT_COLS
            < values.len(),
{
    ListView::fresh().lemma_append_each(values);
    assert(Seq::<Data>::empty() + values =~= values);
}

/// Removing at the index at which a value was just inserted hands that value
/// back and restores the sequence: the same elements in the same order. Only a
/// row that the insertion allocated stays allocated.
pub proof fn insert_then_remove(heap: HeapView, id: int, index: int, value: Data)
    requires
        heap.list_live(id),
        0 <= index <= heap.lists[id].items.len(),
    ensures
        ({
            let inserted = heap.list_insert(id, index, value);
            let removed = inserted.list_remove(id, index);
            &&& inserted.lists[id].items.len() == heap.lists[id].items.len() + 1
            &&& inserted.lists[id].items[index] == value
            &&& removed.lists[id].items == heap.lists[id].items
            &&& removed == heap.with_list(
                id,
                ListView { rows: heap.lists[id].grown(), ..heap.lists[id] },
            )
        }),
{
    let list = heap.lists[id];
    let inserted = heap.list_insert(id, index, value);
    let removed = inserted.list_remove(id, index);
    assert(list.items.insert(index, value).remove(index) =~= list.items);
    assert(removed.lists =~= heap.lists.update(id, ListView { rows: list.grown(), ..list }));
}

/// Inserting a key that is bound overwrites its value and takes no new slot:
/// the bindings, the slot of the key and the number of slots stay, and the key
/// has the new value. This is what an insertion does to the table itself.
pub proof fn insert_twice_keeps_the_slot(table: TableView, key: Seq<char>, first: Data, second: Data)
    requires
        table.valid(),
        table.live,
    ensures
        ({
            let once = table.insert(key, first);
            let twice = once.insert(key, second);
            &&& once.valid()
            &&& twice.valid()
            &&& once.get(key) == Some(first)
            &&& twice.get(key) == Some(second)
            &&& twice.store.items.len() == once.store.items.len()
            &&& twice.entries == once.entries
            &&& twice.slot_of(key) == once.slot_of(key)
            &&& twice.refc == table.refc
            &&& forall|other: Seq<char>| other != key ==> twice.get(other) == table.get(other)
        }),
{
    table.lemma_insert(key, first);
    table.insert(key, first).lemma_insert(key, second);
}

/// In the heap an insertion also gives up the value that it overwrites. That
/// changes counts and releases storage and nothing else, so the table is
/// afterwards what the insertion made of it, with its count as it was or
/// lower, or else it has been released: by the value that was overwritten, if
/// that held the last counted reference to the table. So a second insertion
/// of a key keeps the bindings and the number of slots of every table that
/// it leaves in existence, and it leaves the table exactly as the insertion
/// made it when the values overwritten hold no storage.
pub proof fn insert_twice_in_the_heap(
    heap: HeapView,
    id: int,
    key: Seq<char>,
    first: Data,
    second: Data,
)
    requires
        heap.valid(),
        heap.table_live(id),
    ensures
        ({
            let table = heap.tables[id];
            let once = heap.table_insert(id, key, first);
            let twice = once.table_insert(id, key, second);
            &&& once.valid()
            &&& once.tables[id] == table.insert(key, first).retired() || once.tables[id] == (
            TableView { refc: once.tables[id].refc, ..table.insert(key, first) })
            &&& once.table_live(id) ==> {
                &&& twice.valid()
                &&& once.tables[id].get(key) == Some(first)
                &&& twice.tables[id] == once.tables[id].insert(key, second).retired()
                    || twice.tables[id] == (TableView {
                    refc: twice.tables[id].refc,
                    ..once.tables[id].insert(key, second)
                })
                &&& twice.table_live(id) ==> {
                    &&& twice.tables[id].get(key) == Some(second)
                    &&& twice.tables[id].store.items.len() == once.tables[id].store.items.len()
                    &&& twice.tables[id].entries == once.tables[id].entries
                }
            }
            &&& !heap.holds(table.displaced(key)) && !heap.holds(first) ==> twice
                == heap.with_table(id, table.insert(key, first).insert(key, second))
        }),
{
    let table = heap.tables[id];
    table.lemma_insert(key, first);
    let put = heap.with_table(id, table.insert(key, first));
    assert(put.valid());
    put.lemma_drain_fades(seq![table.displaced(key)]);
    let once = heap.table_insert(id, key, first);
    if once.table_live(id) {
        let bound = once.tables[id];
        assert(bound.entries == put.tables[id].entries);
        assert(bound.store == put.tables[id].store);
        assert(bound.get(key) == Some(first));
        bound.lemma_insert(key, second);
        let again = once.with_table(id, bound.insert(key, second));
        assert(again.valid());
        again.lemma_drain_fades(seq![bound.displaced(key)]);
    }
    if !heap.holds(table.displaced(key)) && !heap.holds(first) {
        assert(!put.holds(table.displaced(key)));
        put.lemma_release_nothing(table.displaced(key));
        assert(once == put);
        let bound = once.tables[id];
        assert(bound.displaced(key) == first);
        let again = once.with_table(id, bound.insert(key, second));
        assert(!again.holds(first));
        again.lemma_release_nothing(first);
        assert(again.tables =~= heap.tables.update(id, bound.insert(key, second)));
    }
}

/// A table made from pairs whose keys differ is valid and binds the key of each
/// pair to the value of that pair.
pub proof fn from_pairs_then_get(pairs: Seq<(Seq<char>, Data)>, i: int)
    requires
        forall|a: int, b: int|
            0 <= a < b < pairs.len() ==> (#[trigger] pairs[a]).0 != (#[trigger] pairs[b]).0,
        0 <= i < pairs.len(),
    ensures
        TableView::holding(pairs).valid(),
        TableView::holding(pairs).get(pairs[i].0) == Some(pairs[i].1),
{
    let table = TableView::holding(pairs);
    let values = Seq::new(pairs.len(), |k: int| pairs[k].1);
    ListView::fresh().lemma_append_each(values);
    assert(Seq::<Data>::empty() + values =~= values);
    assert forall|a: int, b: int| 0 <= a < b < table.entries.len() implies (
    #[trigger] table.entries[a]).key != (#[trigger] table.entries[b]).key by {
        assert(pairs[a].0 != pairs[b].0);
    }
    assert(table.entries[i].key == pairs[i].0);
    table.lemma_at(pairs[i].0, i);
}

/// A key that was removed is not bound any more, through whichever handle the
/// table is read: an alias is a handle on the same place, so it sees the
/// removal. The slot of the key stays in the store and holds null, and the key
/// is not among those that a rendering walks.
pub proof fn remove_is_seen_through_an_alias(
    heap: HeapView,
    table: Table,
    alias: Table,
    key: Seq<char>,
)
    requires
        heap.valid(),
        heap.table_live(table.addr()),
        alias == table,
    ensures
        ({
            let shared = heap.retained(table.as_data());
            let after = shared.table_remove(table.addr(), key);
            let seen = after.tables[alias.addr()];
            &&& shared.tables[table.addr()].refc == heap.tables[table.addr()].refc + 1
            &&& seen.get(key) is None
            &&& !seen.keys().contains(key)
            &&& seen.store.items.len() == heap.tables[table.addr()].store.items.len()
            &&& heap.tables[table.addr()].has(key) ==> seen.store.items[heap.tables[table.addr(
            )].slot_of(key)] == Data::nil()
            &&& forall|other: Seq<char>|
                other != key ==> seen.get(other) == heap.tables[table.addr()].get(other)
        }),
{
    let shared = heap.retained(table.as_data());
    let held = shared.tables[table.addr()];
    assert(held.entries == heap.tables[table.addr()].entries);
    assert(held.store == heap.tables[table.addr()].store);
    assert(held.valid());
    held.lemma_remove(key);
    heap.tables[table.addr()].lemma_remove(key);
}

/// What is appended through one handle is seen through an alias: the alias is
/// a handle on the same place. Through either the sequence is one element
/// longer, the new element is the last, the elements before it are as they
/// were, and a row has been added exactly if every slot was in use.
pub proof fn append_is_seen_through_an_alias(heap: HeapView, list: List, alias: List, value: Data)
    requires
        heap.list_live(list.addr()),
        alias == list,
    ensures
        ({
            let before = heap.lists[list.addr()];
            let n = before.items.len() as int;
            let shared = heap.retained(list.as_data());
            let after = shared.list_append(list.addr(), value);
            let seen = after.lists[alias.addr()];
            &&& shared.lists[list.addr()].refc == before.refc + 1
            &&& seen == after.lists[list.addr()]
            &&& seen.items == before.items.push(value)
            &&& seen.items.len() == n + 1
            &&& seen.get(n) == Some(value)
            &&& forall|i: int| 0 <= i < n ==> seen.get(i) == before.get(i)
            &&& seen.rows == (if n == before.rows * before.cols {
                before.rows + 1
            } else {
                before.rows
            })
        }),
{
}

/// Whatever is done to a sequence is not seen through a deep copy of it made
/// before: the copy has storage of its own, at the place that was free when it
/// was made, with as many elements as the sequence had and one reference
/// counted, and making it left the sequence as it was. Appending to the
/// sequence, or changing it in any other way, leaves the copy as it is.
pub proof fn a_change_is_not_seen_through_a_copy(
    heap: HeapView,
    list: List,
    copy: List,
    depth: nat,
    value: Data,
    changed: ListView,
)
    requires
        heap.sound(list.as_data(), depth),
        copy.addr() == heap.lists.len(),
    ensures
        ({
            let before = heap.lists[list.addr()];
            let n = before.items.len() as int;
            let copied = heap.copy(list.as_data(), depth).0;
            let made = copied.lists[copy.addr()];
            let after = copied.list_append(list.addr(), value);
            &&& copied.lists[list.addr()] == before
            &&& copy.addr() != list.addr()
            &&& copied.list_live(copy.addr())
            &&& made.items.len() == n
            &&& made.refc == 1
            &&& made.get(n) is None
            &&& after.lists[list.addr()].items == before.items.push(value)
            &&& after.lists[copy.addr()] == made
            &&& copied.with_list(list.addr(), changed).lists[copy.addr()] == made
        }),
{
    let first = heap.alloc_list(ListView::fresh());
    let items = heap.lists[list.addr()].items;
    let into = heap.lists.len() as int;
    heap.lemma_copy_kept(heap, list.as_data(), depth);
    first.lemma_copy_items_kept(heap, items, into, (depth - 1) as nat);
    first.lemma_copy_items_made(items, into, (depth - 1) as nat);
}

/// A deep copy reads like the value it was made from, every container of it
/// counts one reference, and it reaches only storage that was allocated for it:
/// nothing that the heap held before, so nothing of the value it was made
/// from. Making it leaves everything that the heap held before as it was.
pub proof fn a_copy_reads_alike_and_shares_nothing(heap: HeapView, d: Data, depth: nat)
    requires
        heap.valid(),
        heap.sound(d, depth),
        heap.copy(d, depth).0.sized(),
    ensures
        ({
            let (after, copied) = heap.copy(d, depth);
            &&& heap.kept_by(after)
            &&& after.finite(copied)
            &&& after.text_of(copied) == heap.text_of(d)
            &&& after.apart(copied, heap.lists.len() as int, heap.tables.len() as int, depth)
            &&& after.holds(copied) ==> after.count(copied) == 1
        }),
{
    let (after, copied) = heap.copy(d, depth);
    heap.lemma_copy_alike(d, depth);
    heap.lemma_text_of(d, depth);
    after.lemma_text_of(copied, depth);
}

/// Giving up a handle that `refcopy` made restores the heap: the count is
/// what it was before the alias was made, and nothing else has changed.
pub proof fn refcopy_then_refdrop_restores(heap: HeapView, d: Data)
    requires
        heap.valid(),
        heap.holds(d),
        heap.count(d) >= 1,
    ensures
        heap.retained(d).count(d) == heap.count(d) + 1,
        heap.retained(d).release(d) == heap,
{
    let shared = heap.retained(d);
    shared.lemma_release_counted(d);
    let back = shared.lowered(d);
    assert(back.lists =~= heap.lists);
    assert(back.tables =~= heap.tables);
}

} // verus!
