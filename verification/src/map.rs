//! The associative table: text keys bound to slots of a paged sequence.
//!
//! A key is bound to the slot that its first insertion appended. A slot is
//! never given back: removing a key unbinds it and leaves null in its slot.
use crate::data::Data;
use crate::data::DataTypes;
use crate::error::Error;
use crate::traits::debug::ToStr;
use crate::traits::memory::RefC;
use crate::traits::memory::RefCopy;
use crate::heap::Heap;
use crate::heap::HeapView;
use crate::list::ListView;
use crate::list::Paged;
use vstd::prelude::*;

verus! {

/// One binding of a table, as the view shows it.
pub struct Binding {
    /// The key.
    pub key: Seq<char>,
    /// The slot of the value store that the key is bound to.
    pub slot: int,
}

/// The mathematical view of one associative table.
pub struct TableView {
    /// The bindings, in the order in which their keys were first inserted.
    pub entries: Seq<Binding>,
    /// The value store: one slot for every insertion of a new key.
    pub store: ListView,
    /// The reference count shared by every handle on the table.
    pub refc: int,
    /// Whether the storage still exists.
    pub live: bool,
}

impl TableView {
    /// A table as `new` makes it: no binding, an empty store, one reference.
    pub open spec fn fresh() -> TableView {
        TableView { entries: Seq::empty(), store: ListView::fresh(), refc: 1, live: true }
    }

    /// A table made of `pairs`, whose keys differ, by inserting them in order
    /// into a new one: the key of pair `i` is bound to slot `i`, which holds
    /// the value of pair `i`.
    pub open spec fn holding(pairs: Seq<(Seq<char>, Data)>) -> TableView {
        TableView {
            entries: Seq::new(pairs.len(), |i: int| Binding { key: pairs[i].0, slot: i }),
            store: ListView::holding(Seq::new(pairs.len(), |i: int| pairs[i].1)),
            refc: 1,
            live: true,
        }
    }

    /// What is left once the storage has been released.
    pub open spec fn retired(self) -> TableView {
        TableView { entries: Seq::empty(), store: self.store.retired(), refc: 0, live: false }
    }

    /// The invariant of a table: no key is bound twice, every binding names a
    /// slot of the store, and no slot is bound twice.
    pub open spec fn valid(self) -> bool {
        &&& self.store.valid()
        &&& self.store.live == self.live
        &&& self.refc >= 0
        &&& forall|i: int, j: int|
            0 <= i < j < self.entries.len() ==> (#[trigger] self.entries[i]).key != (
            #[trigger] self.entries[j]).key
        &&& forall|i: int, j: int|
            0 <= i < j < self.entries.len() ==> (#[trigger] self.entries[i]).slot != (
            #[trigger] self.entries[j]).slot
        &&& forall|i: int|
            0 <= i < self.entries.len() ==> 0 <= (#[trigger] self.entries[i]).slot
                < self.store.items.len()
        &&& !self.live ==> self == self.retired()
    }

    /// Whether `key` is bound.
    pub open spec fn has(self, key: Seq<char>) -> bool {
        exists|i: int| 0 <= i < self.entries.len() && (#[trigger] self.entries[i]).key == key
    }

    /// The position of the binding of `key` among the bindings.
    pub open spec fn at(self, key: Seq<char>) -> int {
        choose|i: int| 0 <= i < self.entries.len() && (#[trigger] self.entries[i]).key == key
    }

    /// The slot that `key` is bound to.
    pub open spec fn slot_of(self, key: Seq<char>) -> int {
        self.entries[self.at(key)].slot
    }

    /// The value bound to `key`, absent when the key is not bound.
    pub open spec fn get(self, key: Seq<char>) -> Option<Data> {
        if self.has(key) {
            Some(self.store.items[self.slot_of(key)])
        } else {
            None
        }
    }

    /// The keys, in the order of their first insertion.
    pub open spec fn keys(self) -> Seq<Seq<char>> {
        Seq::new(self.entries.len(), |i: int| self.entries[i].key)
    }

    /// The table with `value` bound to `key`: in the slot that the key already
    /// has, or else in a slot appended to the store.
    pub open spec fn insert(self, key: Seq<char>, value: Data) -> TableView {
        if self.has(key) {
            TableView { store: self.store.set(self.slot_of(key), value), ..self }
        } else {
            TableView {
                entries: self.entries.push(
                    Binding { key: key, slot: self.store.items.len() as int },
                ),
                store: self.store.append(value),
                ..self
            }
        }
    }

    /// The value that binding `key` anew overwrites: null when the key is not
    /// bound yet.
    pub open spec fn displaced(self, key: Seq<char>) -> Data {
        if self.has(key) {
            self.store.items[self.slot_of(key)]
        } else {
            Data::nil()
        }
    }

    /// The table with the value of `key` replaced by `value`.
    pub open spec fn set(self, key: Seq<char>, value: Data) -> TableView {
        TableView { store: self.store.set(self.slot_of(key), value), ..self }
    }

    /// The table without `key`: the binding is gone and its slot holds null.
    pub open spec fn remove(self, key: Seq<char>) -> TableView {
        if self.has(key) {
            TableView {
                entries: self.entries.remove(self.at(key)),
                store: self.store.set(self.slot_of(key), Data::nil()),
                ..self
            }
        } else {
            self
        }
    }

    /// The table with one more reference counted.
    pub open spec fn retained(self) -> TableView {
        TableView { refc: self.refc + 1, ..self }
    }

    /// The table with one reference fewer counted, never below zero.
    pub open spec fn lowered(self) -> TableView {
        TableView {
            refc: if self.refc > 0 {
                self.refc - 1
            } else {
                0
            },
            ..self
        }
    }

    /// Binding a value keeps the table valid, and the key then has that value.
    /// A key that was bound keeps its slot and the store its length; a new
    /// key takes one slot more. Every other key keeps its value.
    pub proof fn lemma_insert(self, key: Seq<char>, value: Data)
        requires
            self.valid(),
            self.live,
        ensures
            self.insert(key, value).valid(),
            self.insert(key, value).get(key) == Some(value),
            self.has(key) ==> self.insert(key, value).store.items.len() == self.store.items.len(),
            !self.has(key) ==> self.insert(key, value).store.items.len() == self.store.items.len()
                + 1,
            forall|other: Seq<char>|
                other != key ==> self.insert(key, value).get(other) == self.get(other),
    {
        let after = self.insert(key, value);
        self.store.lemma_rows_step();
        if self.has(key) {
            let at = self.at(key);
            self.store.lemma_grow_valid(self.entries[at].slot, value);
            assert(after.entries[at].key == key);
            after.lemma_at(key, at);
            assert forall|other: Seq<char>| other != key implies after.get(other) == self.get(
                other,
            ) by {
                if self.has(other) {
                    let o = self.at(other);
                    assert(self.entries[o].slot != self.entries[at].slot);
                }
            }
        } else {
            let n = self.entries.len() as int;
            self.store.lemma_grow_valid(0, value);
            assert forall|i: int, j: int| 0 <= i < j < after.entries.len() implies (
            #[trigger] after.entries[i]).key != (#[trigger] after.entries[j]).key by {
                if j == n {
                    assert(self.entries[i].key != key);
                } else {
                    assert(self.entries[i].key != self.entries[j].key);
                }
            }
            assert forall|i: int, j: int| 0 <= i < j < after.entries.len() implies (
            #[trigger] after.entries[i]).slot != (#[trigger] after.entries[j]).slot by {
                if j == n {
                    assert(self.entries[i].slot < self.store.items.len());
                } else {
                    assert(self.entries[i].slot != self.entries[j].slot);
                }
            }
            assert forall|i: int| 0 <= i < after.entries.len() implies 0 <= (
            #[trigger] after.entries[i]).slot < after.store.items.len() by {
                if i < n {
                    assert(self.entries[i].slot < self.store.items.len());
                }
            }
            assert(after.entries[n].key == key);
            after.lemma_at(key, n);
            assert forall|other: Seq<char>| other != key implies after.get(other) == self.get(
                other,
            ) by {
                if self.has(other) {
                    let o = self.at(other);
                    assert(after.entries[o].key == other);
                    after.lemma_at(other, o);
                } else if after.has(other) {
                    let o = after.at(other);
                    assert(o < n);
                    assert(self.entries[o].key == other);
                }
            }
        }
    }

    /// Unbinding a key keeps the table valid and every slot of the store. The
    /// key is not bound afterwards, its slot holds null, and every other key
    /// keeps its value.
    pub proof fn lemma_remove(self, key: Seq<char>)
        requires
            self.valid(),
        ensures
            self.remove(key).valid(),
            !self.remove(key).has(key),
            self.remove(key).get(key) is None,
            !self.remove(key).keys().contains(key),
            self.remove(key).store.items.len() == self.store.items.len(),
            self.has(key) ==> self.remove(key).store.items[self.slot_of(key)] == Data::nil(),
            forall|other: Seq<char>| other != key ==> self.remove(key).get(other) == self.get(other),
    {
        let after = self.remove(key);
        if self.has(key) {
            let at = self.at(key);
            assert forall|a: int, b: int| 0 <= a < b < after.entries.len() implies (
            #[trigger] after.entries[a]).key != (#[trigger] after.entries[b]).key by {
                let a0 = if a < at { a } else { a + 1 };
                let b0 = if b < at { b } else { b + 1 };
                assert(self.entries[a0].key != self.entries[b0].key);
            }
            assert forall|a: int, b: int| 0 <= a < b < after.entries.len() implies (
            #[trigger] after.entries[a]).slot != (#[trigger] after.entries[b]).slot by {
                let a0 = if a < at { a } else { a + 1 };
                let b0 = if b < at { b } else { b + 1 };
                assert(self.entries[a0].slot != self.entries[b0].slot);
            }
            assert forall|a: int| 0 <= a < after.entries.len() implies 0 <= (
            #[trigger] after.entries[a]).slot < after.store.items.len() by {
                let a0 = if a < at { a } else { a + 1 };
                assert(0 <= self.entries[a0].slot < self.store.items.len());
            }
            if after.has(key) {
                let a = after.at(key);
                let a0 = if a < at { a } else { a + 1 };
                assert(self.entries[a0].key == key);
                self.lemma_at(key, a0);
            }
            assert forall|other: Seq<char>| other != key implies after.get(other) == self.get(
                other,
            ) by {
                if self.has(other) {
                    let o = self.at(other);
                    let o1 = if o < at { o } else { o - 1 };
                    assert(after.entries[o1].key == other);
                    after.lemma_at(other, o1);
                    assert(self.entries[o].slot != self.entries[at].slot);
                } else if after.has(other) {
                    let a = after.at(other);
                    let a0 = if a < at { a } else { a + 1 };
                    assert(self.entries[a0].key == other);
                }
            }
        }
        if after.keys().contains(key) {
            let i = choose|i: int| 0 <= i < after.keys().len() && after.keys()[i] == key;
            assert(after.entries[i].key == key);
        }
    }

    /// In a valid table a key is bound at one position only.
    pub proof fn lemma_at(self, key: Seq<char>, i: int)
        requires
            self.valid(),
            0 <= i < self.entries.len(),
            self.entries[i].key == key,
        ensures
            self.has(key),
            self.at(key) == i,
    {
        let j = self.at(key);
        if j < i {
            assert(self.entries[j].key != self.entries[i].key);
        } else if i < j {
            assert(self.entries[i].key != self.entries[j].key);
        }
    }
}

/// One binding as the storage holds it.
pub(crate) struct Entry {
    /// The key.
    key: std::string::String,
    /// The slot of the value store that the key is bound to.
    slot: usize,
}

/// The storage of one associative table: the bindings, the value store, and
/// the counter that every handle on the table shares.
pub(crate) struct Keyed {
    /// The bindings, in the order in which their keys were first inserted.
    entries: Vec<Entry>,
    /// The value store.
    store: Paged,
    /// The reference count.
    refc: i64,
    /// Whether the storage exists.
    live: bool,
}

impl Keyed {
    /// The view: the bindings in the order of their keys' first insertion,
    /// the view of the value store, the counter, and whether the storage
    /// exists.
    pub closed spec fn view(&self) -> TableView {
        TableView {
            entries: Seq::new(
                self.entries@.len(),
                |i: int| Binding { key: self.entries@[i].key@, slot: self.entries@[i].slot as int },
            ),
            store: self.store@,
            refc: self.refc as int,
            live: self.live,
        }
    }

    /// The representation invariant: the value store is well formed and the
    /// view is a valid table.
    pub closed spec fn wf(&self) -> bool {
        &&& self.store.wf()
        &&& self@.valid()
    }

    /// A well-formed storage has a valid view.
    pub proof fn lemma_valid(&self)
        requires
            self.wf(),
        ensures
            self@.valid(),
    {
    }

    /// Storage for an empty table.
    pub(crate) fn new() -> (t: Keyed)
        ensures
            t.wf(),
            t@ == TableView::fresh(),
    {
        let t = Keyed {
            entries: Vec::new(),
            store: Paged::with_cols(crate::list::DEFAULT_COLS),
            refc: 1,
            live: true,
        };
        proof {
            t.store.lemma_valid();
            assert(t@.entries =~= Seq::<Binding>::empty());
        }
        t
    }

    /// The position of the binding of `key`, if the key is bound.
    fn find(&self, key: &str) -> (found: Option<usize>)
        requires
            self.wf(),
        ensures
            match found {
                Some(i) => self@.has(key@) && self@.at(key@) == i && i < self.entries@.len(),
                None => !self@.has(key@),
            },
    {
        let probe = key.to_owned();
        let mut i: usize = 0;
        while i < self.entries.len()
            invariant
                self.wf(),
                probe@ == key@,
                i <= self.entries@.len(),
                forall|k: int| 0 <= k < i ==> (#[trigger] self@.entries[k]).key != key@,
            decreases self.entries.len() - i,
        {
            if self.entries[i].key == probe {
                proof {
                    assert(self@.entries[i as int].key == key@);
                    self@.lemma_at(key@, i as int);
                }
                return Some(i);
            }
            i = i + 1;
        }
        None
    }

    /// How many slots the value store has: one for every insertion of a new
    /// key, removed or not.
    pub fn slots(&self) -> (n: usize)
        requires
            self.wf(),
        ensures
            n == self@.store.items.len(),
    {
        self.store.len()
    }

    /// How many keys are bound.
    pub fn len(&self) -> (n: usize)
        requires
            self.wf(),
        ensures
            n == self@.entries.len(),
    {
        self.entries.len()
    }

    /// Binds `value` to `key` and hands back the value that this overwrites,
    /// null when the key was not bound.
    pub fn insert(&mut self, key: &str, value: Data) -> (displaced: Data)
        requires
            old(self).wf(),
            old(self)@.live,
            old(self)@.store.items.len() < usize::MAX,
        ensures
            final(self).wf(),
            final(self)@ == old(self)@.insert(key@, value),
            displaced == old(self)@.displaced(key@),
    {
        match self.find(key) {
            Some(i) => {
                let slot: usize = self.entries[i].slot;
                let displaced = self.store.set(slot, value);
                proof {
                    self.store.lemma_valid();
                    assert(self@.entries =~= old(self)@.entries);
                }
                displaced
            },
            None => {
                let slot: usize = self.store.len();
                self.entries.push(Entry { key: key.to_owned(), slot });
                self.store.append(value);
                proof {
                    self.store.lemma_valid();
                    let b = Binding { key: key@, slot: slot as int };
                    assert(self@.entries =~= old(self)@.entries.push(b));
                    assert forall|i: int, j: int| 0 <= i < j < self@.entries.len() implies (
                    #[trigger] self@.entries[i]).key != (#[trigger] self@.entries[j]).key by {
                        if j == old(self)@.entries.len() {
                            assert(old(self)@.entries[i].key != key@);
                        } else {
                            assert(old(self)@.entries[i].key != old(self)@.entries[j].key);
                        }
                    }
                    assert forall|i: int, j: int| 0 <= i < j < self@.entries.len() implies (
                    #[trigger] self@.entries[i]).slot != (#[trigger] self@.entries[j]).slot by {
                        if j == old(self)@.entries.len() {
                            assert(old(self)@.entries[i].slot < slot);
                        } else {
                            assert(old(self)@.entries[i].slot != old(self)@.entries[j].slot);
                        }
                    }
                    assert forall|i: int| 0 <= i < self@.entries.len() implies 0 <= (
                    #[trigger] self@.entries[i]).slot < self@.store.items.len() by {
                        if i < old(self)@.entries.len() {
                            assert(old(self)@.entries[i].slot < slot);
                        }
                    }
                }
                Data::null()
            },
        }
    }

    /// The value bound to `key`, or nothing when the key is not bound.
    pub fn get(&self, key: &str) -> (found: Option<&Data>)
        requires
            self.wf(),
        ensures
            match found {
                Some(d) => self@.get(key@) == Some(*d),
                None => self@.get(key@) is None,
            },
    {
        match self.find(key) {
            Some(i) => {
                let slot: usize = self.entries[i].slot;
                proof {
                    assert(self@.entries[i as int].slot == slot);
                }
                self.store.get(slot)
            },
            None => None,
        }
    }

    /// The value bound to `key` for writing, or nothing when the key is not
    /// bound. What the caller writes through the reference is the value
    /// afterwards.
    pub fn get_mut(&mut self, key: &str) -> (found: Option<&mut Data>)
        requires
            old(self).wf(),
        ensures
            final(self).wf(),
            match found {
                Some(d) => {
                    &&& old(self)@.get(key@) == Some(*d)
                    &&& final(self)@ == old(self)@.set(key@, *final(d))
                },
                None => {
                    &&& old(self)@.get(key@) is None
                    &&& final(self)@ == old(self)@
                },
            },
    {
        match self.find(key) {
            Some(i) => {
                let slot: usize = self.entries[i].slot;
                proof {
                    assert(self@.entries[i as int].slot == slot);
                    assert forall|after: Paged| #[trigger] after.wf() implies after@.valid() by {
                        after.lemma_valid();
                    }
                }
                self.store.get_mut(slot)
            },
            None => None,
        }
    }

    /// Unbinds `key` and hands back the value that was bound to it; its slot
    /// holds null from now on. Nothing happens when the key is not bound.
    pub fn remove(&mut self, key: &str) -> (removed: Option<Data>)
        requires
            old(self).wf(),
        ensures
            final(self).wf(),
            removed == old(self)@.get(key@),
            final(self)@ == old(self)@.remove(key@),
    {
        match self.find(key) {
            Some(i) => {
                let entry = self.entries.remove(i);
                let removed = self.store.set(entry.slot, Data::null());
                proof {
                    self.store.lemma_valid();
                    assert(old(self)@.entries[i as int].slot == entry.slot);
                    assert(self@.entries =~= old(self)@.entries.remove(i as int));
                    assert forall|a: int, b: int| 0 <= a < b < self@.entries.len() implies (
                    #[trigger] self@.entries[a]).key != (#[trigger] self@.entries[b]).key by {
                        let a0 = if a < i { a } else { a + 1 };
                        let b0 = if b < i { b } else { b + 1 };
                        assert(old(self)@.entries[a0].key != old(self)@.entries[b0].key);
                    }
                    assert forall|a: int, b: int| 0 <= a < b < self@.entries.len() implies (
                    #[trigger] self@.entries[a]).slot != (#[trigger] self@.entries[b]).slot by {
                        let a0 = if a < i { a } else { a + 1 };
                        let b0 = if b < i { b } else { b + 1 };
                        assert(old(self)@.entries[a0].slot != old(self)@.entries[b0].slot);
                    }
                    assert forall|a: int| 0 <= a < self@.entries.len() implies 0 <= (
                    #[trigger] self@.entries[a]).slot < self@.store.items.len() by {
                        let a0 = if a < i { a } else { a + 1 };
                        assert(0 <= old(self)@.entries[a0].slot < old(self)@.store.items.len());
                    }
                }
                Some(removed)
            },
            None => None,
        }
    }

    /// The keys, in the order of their first insertion.
    pub fn keys(&self) -> (all: Vec<std::string::String>)
        requires
            self.wf(),
        ensures
            all@.len() == self@.entries.len(),
            forall|i: int| 0 <= i < all@.len() ==> (#[trigger] all@[i])@ == self@.entries[i].key,
    {
        let mut all: Vec<std::string::String> = Vec::new();
        let mut i: usize = 0;
        while i < self.entries.len()
            invariant
                i <= self.entries@.len(),
                all@.len() == i,
                forall|k: int| 0 <= k < i ==> (#[trigger] all@[k])@ == self@.entries[k].key,
            decreases self.entries.len() - i,
        {
            all.push(self.entries[i].key.clone());
            i = i + 1;
        }
        all
    }

    /// The key of the binding at position `i`.
    pub(crate) fn key_at(&self, i: usize) -> (key: &str)
        requires
            self.wf(),
            i < self@.entries.len(),
        ensures
            key@ == self@.entries[i as int].key,
    {
        self.entries[i].key.as_str()
    }

    /// The value of the binding at position `i`.
    pub(crate) fn value_at(&self, i: usize) -> (value: &Data)
        requires
            self.wf(),
            i < self@.entries.len(),
        ensures
            *value == self@.store.items[self@.entries[i as int].slot],
    {
        let slot: usize = self.entries[i].slot;
        proof {
            assert(self@.entries[i as int].slot == slot);
        }
        self.store.item(slot)
    }

    /// The values of the bindings, in the order of the bindings, as values of
    /// their own.
    pub(crate) fn bound_values(&self) -> (all: Vec<Data>)
        requires
            self.wf(),
        ensures
            all@.len() == self@.entries.len(),
            forall|i: int|
                0 <= i < all@.len() ==> all@[i] == self@.store.items[(
                #[trigger] self@.entries[i]).slot],
    {
        let mut all: Vec<Data> = Vec::new();
        let mut i: usize = 0;
        while i < self.entries.len()
            invariant
                self.wf(),
                i <= self.entries@.len(),
                all@.len() == i,
                forall|k: int|
                    0 <= k < i ==> all@[k] == self@.store.items[(#[trigger] self@.entries[k]).slot],
            decreases self.entries.len() - i,
        {
            all.push(self.value_at(i).dup());
            i = i + 1;
        }
        all
    }

    /// Counts one more reference.
    pub fn incrc(&mut self)
        requires
            old(self).wf(),
            old(self)@.live,
            old(self)@.refc < i64::MAX,
        ensures
            final(self).wf(),
            final(self)@ == old(self)@.retained(),
    {
        self.refc = self.refc + 1;
        proof {
            assert(self@.entries =~= old(self)@.entries);
        }
    }

    /// Counts one reference fewer. The count stops at zero; nothing is
    /// released by this.
    pub fn decrc(&mut self)
        requires
            old(self).wf(),
        ensures
            final(self).wf(),
            final(self)@ == old(self)@.lowered(),
    {
        if self.refc > 0 {
            self.refc = self.refc - 1;
        }
        proof {
            assert(self@.entries =~= old(self)@.entries);
        }
    }

    /// The reference count.
    pub fn getrc(&self) -> (n: i64)
        requires
            self.wf(),
        ensures
            n == self@.refc,
    {
        self.refc
    }

    /// Whether the storage still exists.
    pub fn is_live(&self) -> (b: bool)
        ensures
            b == self@.live,
    {
        self.live
    }

    /// Releases the storage: hands out every value of the store, bound or not,
    /// drops the bindings and leaves the table retired.
    pub fn retire(&mut self) -> (items: Vec<Data>)
        requires
            old(self).wf(),
        ensures
            final(self).wf(),
            items@ == old(self)@.store.items,
            final(self)@ == old(self)@.retired(),
    {
        let items = self.store.retire();
        self.entries.clear();
        self.refc = 0;
        self.live = false;
        proof {
            self.store.lemma_valid();
            assert(self@.entries =~= Seq::<Binding>::empty());
        }
        items
    }
}

/// A handle on an associative table.
#[derive(Debug, PartialEq, Eq, Structural)]
pub struct Table {
    id: usize,
}

impl Table {
    /// The place of the table's storage in the heap.
    pub closed spec fn addr(&self) -> int {
        self.id as int
    }

    /// The place of the storage in the heap, as a number to index with.
    pub(crate) fn slot(&self) -> (id: usize)
        ensures
            id == self.addr(),
    {
        self.id
    }

    /// The handle on the place `id`.
    pub closed spec fn handle(id: int) -> Table {
        Table { id: id as usize }
    }

    /// The handle on a place names that place.
    pub proof fn lemma_handle(id: int)
        requires
            0 <= id <= usize::MAX,
        ensures
            Table::handle(id).addr() == id,
    {
    }

    /// A place is a natural number that a machine word holds.
    pub proof fn lemma_addr(&self)
        ensures
            0 <= self.addr() <= usize::MAX,
    {
    }

    /// A handle on the storage at `id`.
    pub(crate) fn at(id: usize) -> (h: Table)
        ensures
            h.addr() == id,
            h == Table::handle(id as int),
    {
        Table { id }
    }

    /// A second handle on the same place; no count changes.
    pub(crate) fn dup(&self) -> (t: Table)
        ensures
            t == *self,
    {
        Table { id: self.id }
    }

    /// Whether the storage that the handle names still exists.
    pub fn is_live(&self, heap: &Heap) -> (yes: bool)
        requires
            heap.wf(),
        ensures
            yes == heap@.table_live(self.addr()),
    {
        self.id < heap.tables_len() && heap.table(self.id).is_live()
    }

    /// Whether the table exists and everything that its keys reach exists and
    /// lies at most `depth` containers deep, the table itself counted. A table
    /// that holds of this for some depth can be rendered and copied.
    pub fn within(&self, heap: &Heap, depth: usize) -> (yes: bool)
        requires
            heap.wf(),
        ensures
            yes == heap@.sound(self.as_data(), depth as nat),
            yes ==> heap@.finite(self.as_data()),
    {
        depth > 0 && self.id < heap.tables_len() && heap.table(self.id).is_live()
            && crate::render::walk_table(heap, self.id, depth - 1)
    }

    /// Makes a deep copy: a new table in which every key of this one is bound
    /// to a deep copy of its value, in the order of the bindings. The copy
    /// counts one reference, shares nothing with this one, and has no slot
    /// for a key that was removed.
    pub fn clone(&self, heap: &mut Heap) -> (copied: Table)
        requires
            old(heap).wf(),
            old(heap)@.finite(self.as_data()),
        ensures
            final(heap).wf(),
            copied.addr() == old(heap)@.tables.len(),
            (final(heap)@, copied.as_data()) == old(heap)@.copy(
                self.as_data(),
                old(heap)@.depth(self.as_data()),
            ),
            old(heap)@.kept_by(final(heap)@),
            final(heap)@.finite(copied.as_data()),
            final(heap)@.text_of(copied.as_data()) == old(heap)@.text_of(self.as_data()),
            final(heap)@.apart(
                copied.as_data(),
                old(heap)@.lists.len() as int,
                old(heap)@.tables.len() as int,
                old(heap)@.depth(self.as_data()),
            ),
            final(heap)@.count(copied.as_data()) == 1,
    {
        let ghost depth = heap@.depth(self.as_data());
        proof {
            heap.lemma_valid();
        }
        let copied = Table::at(crate::copying::copy_table(heap, self.id, Ghost(depth)));
        proof {
            heap.lemma_sized();
            old(heap)@.lemma_copy_alike(self.as_data(), depth);
            old(heap)@.lemma_text_of(self.as_data(), depth);
            heap@.lemma_text_of(copied.as_data(), depth);
        }
        copied
    }

    /// Creates an empty table: no binding, no slot, one reference.
    pub fn new(heap: &mut Heap) -> (table: Table)
        requires
            old(heap).wf(),
        ensures
            final(heap).wf(),
            table.addr() == old(heap)@.tables.len(),
            final(heap)@ == old(heap)@.alloc_table(TableView::fresh()),
    {
        let id = heap.alloc_table(Keyed::new());
        Table { id }
    }

    /// Creates a table from a mapping, given as pairs whose keys differ: pair
    /// `i` takes slot `i`.
    pub fn from(heap: &mut Heap, pairs: Vec<(std::string::String, Data)>) -> (table: Table)
        requires
            old(heap).wf(),
            forall|i: int, j: int|
                0 <= i < j < pairs@.len() ==> (#[trigger] pairs@[i]).0@ != (#[trigger] pairs@[j]).0@,
        ensures
            final(heap).wf(),
            table.addr() == old(heap)@.tables.len(),
            final(heap)@ == old(heap)@.alloc_table(
                TableView::holding(Seq::new(pairs@.len(), |i: int| (pairs@[i].0@, pairs@[i].1))),
            ),
    {
        let mut store = Keyed::new();
        let ghost all = Seq::new(pairs@.len(), |i: int| (pairs@[i].0@, pairs@[i].1));
        let ghost given = pairs@;
        proof {
            assert(pairs.len() <= usize::MAX);
            assert(store@.entries =~= TableView::holding(all.take(0)).entries);
            assert(TableView::holding(all.take(0)).store.items =~= Seq::<Data>::empty());
        }
        for pair in it: pairs.into_iter()
            invariant
                it.seq() == given,
                given.len() <= usize::MAX,
                all == Seq::new(given.len(), |i: int| (given[i].0@, given[i].1)),
                forall|i: int, j: int|
                    0 <= i < j < given.len() ==> (#[trigger] given[i]).0@ != (#[trigger] given[j]).0@,
                store.wf(),
                store@ == TableView::holding(all.take(it.index() as int)),
        {
            let ghost n = it.index() as int;
            let ghost before = store@;
            proof {
                assert(all[n] == (pair.0@, pair.1));
                if before.has(pair.0@) {
                    let k = before.at(pair.0@);
                    assert(before.entries[k].key == all.take(n)[k].0);
                    assert(given[k].0@ != given[n].0@);
                }
            }
            let (key, value) = pair;
            store.insert(key.as_str(), value);
            proof {
                let next = TableView::holding(all.take(n + 1));
                assert(store@.entries =~= next.entries);
                assert(store@.store.items =~= next.store.items);
            }
        }
        proof {
            assert(all.take(all.len() as int) =~= all);
        }
        let id = heap.alloc_table(store);
        Table { id }
    }

    /// Binds `value` to `key`. A key that is bound keeps its slot: the value
    /// there is overwritten, and dropped as `release` drops a value. A new key
    /// takes a slot appended to the store.
    pub fn insert(&mut self, heap: &mut Heap, key: &str, value: Data)
        requires
            old(heap).wf(),
            old(heap)@.table_live(old(self).addr()),
            old(heap)@.tables[old(self).addr()].store.items.len() < usize::MAX,
        ensures
            final(heap).wf(),
            *final(self) == *old(self),
            final(heap)@ == old(heap)@.table_insert(old(self).addr(), key@, value),
            !old(heap)@.holds(old(heap)@.tables[old(self).addr()].displaced(key@)) ==> final(heap)@
                == old(heap)@.with_table(
                old(self).addr(),
                old(heap)@.tables[old(self).addr()].insert(key@, value),
            ),
            old(heap)@.with_table(
                old(self).addr(),
                old(heap)@.tables[old(self).addr()].insert(key@, value),
            ).faded_to(final(heap)@),
    {
        let displaced = heap.table_mut(self.id).insert(key, value);
        proof {
            if !old(heap)@.holds(displaced) {
                assert(!heap@.holds(displaced));
                heap@.lemma_release_nothing(displaced);
            }
        }
        heap.release(displaced);
    }

    /// The value bound to `key`, or nothing when the key is not bound.
    pub fn get<'a>(&self, heap: &'a Heap, key: &str) -> (found: Option<&'a Data>)
        requires
            heap.wf(),
            heap@.table_live(self.addr()),
        ensures
            match found {
                Some(d) => heap@.tables[self.addr()].get(key@) == Some(*d),
                None => heap@.tables[self.addr()].get(key@) is None,
            },
    {
        heap.table(self.id).get(key)
    }

    /// The value bound to `key` for writing, or nothing when the key is not
    /// bound. What the caller writes through the reference is the value
    /// afterwards.
    pub fn get_mut<'a>(&mut self, heap: &'a mut Heap, key: &str) -> (found: Option<&'a mut Data>)
        requires
            old(heap).wf(),
            old(heap)@.table_live(old(self).addr()),
        ensures
            final(heap).wf(),
            *final(self) == *old(self),
            match found {
                Some(d) => {
                    &&& old(heap)@.tables[old(self).addr()].get(key@) == Some(*d)
                    &&& final(heap)@ == old(heap)@.table_set(old(self).addr(), key@, *final(d))
                },
                None => {
                    &&& old(heap)@.tables[old(self).addr()].get(key@) is None
                    &&& final(heap)@ == old(heap)@
                },
            },
    {
        heap.table_mut(self.id).get_mut(key)
    }

    /// Unbinds `key` and hands the value that was bound to it to the caller;
    /// its slot stays in the store and holds null from now on. No count
    /// changes: the reference that the table held is the caller's now. Nothing
    /// happens when the key is not bound.
    pub fn remove(&mut self, heap: &mut Heap, key: &str) -> (removed: Option<Data>)
        requires
            old(heap).wf(),
            old(heap)@.table_live(old(self).addr()),
        ensures
            final(heap).wf(),
            *final(self) == *old(self),
            removed == old(heap)@.tables[old(self).addr()].get(key@),
            final(heap)@ == old(heap)@.table_remove(old(self).addr(), key@),
    {
        let removed = heap.table_mut(self.id).remove(key);
        proof {
            if removed is None {
                assert(heap@.tables =~= old(heap)@.tables.update(
                    self.addr(),
                    old(heap)@.tables[self.addr()],
                ));
            }
        }
        removed
    }

    /// The value bound to `key`. A key that is not bound is refused.
    pub fn index<'a>(&self, heap: &'a Heap, key: &str) -> (found: Result<&'a Data, Error>)
        requires
            heap.wf(),
            heap@.table_live(self.addr()),
        ensures
            match found {
                Ok(d) => heap@.tables[self.addr()].get(key@) == Some(*d),
                Err(e) => {
                    &&& heap@.tables[self.addr()].get(key@) is None
                    &&& e matches Error::InvalidKey(k) && k@ == key@
                },
            },
    {
        match heap.table(self.id).get(key) {
            Some(d) => Ok(d),
            None => Err(Error::InvalidKey(key.to_owned())),
        }
    }

    /// The value bound to `key` for writing. A key that is not bound is
    /// refused.
    pub fn index_mut<'a>(&mut self, heap: &'a mut Heap, key: &str) -> (found: Result<
        &'a mut Data,
        Error,
    >)
        requires
            old(heap).wf(),
            old(heap)@.table_live(old(self).addr()),
        ensures
            final(heap).wf(),
            *final(self) == *old(self),
            match found {
                Ok(d) => {
                    &&& old(heap)@.tables[old(self).addr()].get(key@) == Some(*d)
                    &&& final(heap)@ == old(heap)@.table_set(old(self).addr(), key@, *final(d))
                },
                Err(e) => {
                    &&& old(heap)@.tables[old(self).addr()].get(key@) is None
                    &&& e matches Error::InvalidKey(k) && k@ == key@
                    &&& final(heap)@ == old(heap)@
                },
            },
    {
        match heap.table_mut(self.id).get_mut(key) {
            Some(d) => Ok(d),
            None => Err(Error::InvalidKey(key.to_owned())),
        }
    }

    /// How many slots the value store has: one for every insertion of a new
    /// key, whether the key is still bound or not.
    pub fn slots(&self, heap: &Heap) -> (n: usize)
        requires
            heap.wf(),
            heap@.table_live(self.addr()),
        ensures
            n == heap@.tables[self.addr()].store.items.len(),
    {
        heap.table(self.id).slots()
    }

    /// How many keys are bound.
    pub fn len(&self, heap: &Heap) -> (n: usize)
        requires
            heap.wf(),
            heap@.table_live(self.addr()),
        ensures
            n == heap@.tables[self.addr()].entries.len(),
    {
        heap.table(self.id).len()
    }

    /// The keys, in the order of their first insertion.
    pub fn keys(&self, heap: &Heap) -> (all: Vec<std::string::String>)
        requires
            heap.wf(),
            heap@.table_live(self.addr()),
        ensures
            all@.len() == heap@.tables[self.addr()].entries.len(),
            forall|i: int|
                0 <= i < all@.len() ==> (#[trigger] all@[i])@ == heap@.tables[self.addr()].entries[i].key,
    {
        heap.table(self.id).keys()
    }
}

impl RefC for Table {
    open spec fn as_data(&self) -> Data {
        Data { data: DataTypes::MAP(*self) }
    }

    fn incrc(&mut self, heap: &mut Heap) {
        if self.id < heap.tables_len() && heap.table(self.id).is_live() {
            heap.table_mut(self.id).incrc();
        }
    }

    fn decrc(&mut self, heap: &mut Heap) {
        if self.id < heap.tables_len() && heap.table(self.id).is_live() {
            heap.table_mut(self.id).decrc();
        }
    }

    fn getrc(&self, heap: &Heap) -> (n: i64) {
        if self.id < heap.tables_len() && heap.table(self.id).is_live() {
            heap.table(self.id).getrc()
        } else {
            0
        }
    }
}

impl RefCopy for Table {
    fn refcopy(&mut self, heap: &mut Heap) -> (alias: Self) {
        self.incrc(heap);
        Table { id: self.id }
    }

    fn refdrop(self, heap: &mut Heap) {
        heap.release(Data { data: DataTypes::MAP(self) });
    }
}

impl ToStr for Table {
    open spec fn renderable(&self, heap: HeapView) -> bool {
        heap.finite(self.as_data())
    }

    open spec fn rendering(&self, heap: HeapView) -> Seq<char> {
        heap.text_of(self.as_data())
    }

    /// The bindings between braces as `key: value`, in the order in which
    /// the keys were first inserted, with a comma and a space between one and
    /// the next. A key whose value is null is left out.
    fn tostr(&self, heap: &Heap) -> (text: std::string::String) {
        let ghost depth = heap@.depth(self.as_data());
        let mut text = std::string::String::new();
        crate::render::render_table(heap, self.id, &mut text, Ghost(depth));
        proof {
            assert(text@ =~= heap@.render(self.as_data(), depth));
        }
        text
    }
}

} // verus!
