//! The textual form of values, and walking a value to its end.
//!
//! A sequence reads as `[v1,v2]`, a table as `{k1: v1, k2: v2}`, a text as its
//! characters, an integer in decimal, a character as itself, a float as its
//! bit pattern, null as `NULL`.
use crate::data::Data;
use crate::data::DataTypes;
use crate::heap::Heap;
use crate::heap::HeapView;
use crate::map::Binding;
use vstd::prelude::*;
use vstd::string::StringExecFns;

verus! {

/// Appending one character to a `String`: `std::string::String::push` puts
/// the character behind the last one and leaves the others as they are.
pub assume_specification[ std::string::String::push ](s: &mut std::string::String, c: char)
    ensures
        final(s)@ == old(s)@.push(c),
;

/// The character for a digit below sixteen: `0` to `9`, then `a` to `f`.
pub open spec fn digit(d: nat) -> char {
    if d < 10 {
        ((48 + d) as u8) as char
    } else {
        ((87 + d) as u8) as char
    }
}

/// The decimal digits of `n`, the most significant first; `0` is the one
/// digit `0`.
pub open spec fn digits(n: nat) -> Seq<char>
    decreases n,
{
    if n < 10 {
        seq![digit(n)]
    } else {
        digits(n / 10).push(digit(n % 10))
    }
}

/// The decimal form of an integer: its digits, behind a minus sign when it is
/// negative.
pub open spec fn decimal(n: int) -> Seq<char> {
    if n < 0 {
        seq!['-'] + digits((-n) as nat)
    } else {
        digits(n as nat)
    }
}

/// The sixteen hexadecimal digits of a 64-bit pattern, behind `0x`.
pub open spec fn pattern(bits: u64) -> Seq<char> {
    seq!['0', 'x'] + Seq::new(16, |i: int| digit(((bits as nat) / pow16((15 - i) as nat)) % 16))
}

/// Sixteen to the power `e`.
pub open spec fn pow16(e: nat) -> nat
    decreases e,
{
    if e == 0 {
        1
    } else {
        16 * pow16((e - 1) as nat)
    }
}

/// The character for a digit below sixteen.
fn digit_char(d: u8) -> (c: char)
    requires
        d < 16,
    ensures
        c == digit(d as nat),
{
    if d < 10 {
        (48 + d) as char
    } else {
        (87 + d) as char
    }
}

/// Appends the decimal digits of `n` to `out`.
pub(crate) fn push_unsigned(out: &mut std::string::String, n: u64)
    ensures
        final(out)@ == old(out)@ + digits(n as nat),
{
    let mut low: Vec<char> = Vec::new();
    let mut rest: u64 = n;
    while rest >= 10
        invariant
            digits(n as nat) == digits(rest as nat) + low@.reverse(),
        decreases rest,
    {
        let d: u8 = (rest % 10) as u8;
        proof {
            let c = digit((rest % 10) as nat);
            assert(digits(rest as nat) == digits((rest / 10) as nat).push(c));
            assert(low@.push(c).reverse() =~= seq![c] + low@.reverse());
            assert(digits((rest / 10) as nat).push(c) + low@.reverse() =~= digits((rest / 10) as nat) + low@.push(c).reverse());
        }
        low.push(digit_char(d));
        rest = rest / 10;
    }
    out.push(digit_char(rest as u8));
    let ghost head = out@;
    proof {
        assert(digits(rest as nat) == seq![digit(rest as nat)]);
        assert(head =~= old(out)@ + digits(rest as nat));
    }
    let mut i: usize = low.len();
    while i > 0
        invariant
            i <= low@.len(),
            out@ == head + low@.skip(i as int).reverse(),
        decreases i,
    {
        i = i - 1;
        out.push(low[i]);
        proof {
            assert(low@.skip(i as int).reverse() =~= low@.skip(i + 1).reverse().push(low@[i as int]));
        }
    }
    proof {
        assert(low@.skip(0) =~= low@);
        assert(out@ =~= old(out)@ + (digits(rest as nat) + low@.reverse()));
    }
}

/// Appends the decimal form of `n` to `out`.
pub(crate) fn push_signed(out: &mut std::string::String, n: i64)
    ensures
        final(out)@ == old(out)@ + decimal(n as int),
{
    if n < 0 {
        out.push('-');
        let size: u64 = ((-(n + 1)) as u64) + 1;
        push_unsigned(out, size);
        proof {
            assert(out@ =~= old(out)@ + (seq!['-'] + digits((-n) as nat)));
        }
    } else {
        push_unsigned(out, n as u64);
    }
}

/// Appends the hexadecimal form of a 64-bit pattern to `out`.
pub(crate) fn push_pattern(out: &mut std::string::String, bits: u64)
    ensures
        final(out)@ == old(out)@ + pattern(bits),
{
    out.push('0');
    out.push('x');
    let ghost body = Seq::new(16, |i: int| digit(((bits as nat) / pow16((15 - i) as nat)) % 16));
    let mut i: usize = 0;
    let mut scale: u64 = 0x1000_0000_0000_0000;
    proof {
        lemma_pow16();
    }
    while i < 16
        invariant
            i <= 16,
            i < 16 ==> scale == pow16((15 - i) as nat),
            body == Seq::new(16, |i: int| digit(((bits as nat) / pow16((15 - i) as nat)) % 16)),
            out@ == old(out)@ + seq!['0', 'x'] + body.take(i as int),
        decreases 16 - i,
    {
        proof {
            lemma_pow16();
        }
        let d: u8 = ((bits / scale) % 16) as u8;
        out.push(digit_char(d));
        proof {
            assert(body.take(i + 1) =~= body.take(i as int).push(body[i as int]));
            assert(old(out)@ + seq!['0', 'x'] + body.take(i + 1) =~= (old(out)@ + seq!['0', 'x']
                + body.take(i as int)).push(body[i as int]));
        }
        i = i + 1;
        if i < 16 {
            scale = scale / 16;
        }
    }
    proof {
        assert(body.take(16) =~= body);
        assert(out@ =~= old(out)@ + (seq!['0', 'x'] + body));
    }
}

/// The powers of sixteen that a 64-bit pattern has a digit for.
proof fn lemma_pow16()
    ensures
        pow16(0) == 0x1,
        pow16(1) == 0x10,
        pow16(2) == 0x100,
        pow16(3) == 0x1000,
        pow16(4) == 0x1_0000,
        pow16(5) == 0x10_0000,
        pow16(6) == 0x100_0000,
        pow16(7) == 0x1000_0000,
        pow16(8) == 0x1_0000_0000,
        pow16(9) == 0x10_0000_0000,
        pow16(10) == 0x100_0000_0000,
        pow16(11) == 0x1000_0000_0000,
        pow16(12) == 0x1_0000_0000_0000,
        pow16(13) == 0x10_0000_0000_0000,
        pow16(14) == 0x100_0000_0000_0000,
        pow16(15) == 0x1000_0000_0000_0000,
{
    reveal_with_fuel(pow16, 17);
}

impl HeapView {
    /// Whether everything that `d` reaches exists and lies at most `depth`
    /// containers deep: a sequence reaches its elements, a table the values
    /// of its keys, and a text holds characters only.
    pub open spec fn sound(self, d: Data, depth: nat) -> bool
        decreases depth,
    {
        match d.data {
            DataTypes::LIST(l) => {
                &&& depth > 0
                &&& self.list_live(l.addr())
                &&& forall|i: int|
                    0 <= i < self.lists[l.addr()].items.len() ==> self.sound(
                        #[trigger] self.lists[l.addr()].items[i],
                        (depth - 1) as nat,
                    )
            },
            DataTypes::STRING(s) => self.list_live(s.addr()) && self.lists[s.addr()].is_text(),
            DataTypes::MAP(t) => {
                &&& depth > 0
                &&& self.table_live(t.addr())
                &&& forall|i: int|
                    0 <= i < self.tables[t.addr()].entries.len() ==> self.sound(
                        self.tables[t.addr()].store.items[(
                        #[trigger] self.tables[t.addr()].entries[i]).slot],
                        (depth - 1) as nat,
                    )
            },
            _ => true,
        }
    }

    /// Whether `d` can be walked to its end: everything that it reaches
    /// exists, and no container reaches itself.
    pub open spec fn finite(self, d: Data) -> bool {
        exists|depth: nat| self.sound(d, depth)
    }

    /// A depth within which `d` can be walked to its end.
    pub open spec fn depth(self, d: Data) -> nat {
        choose|depth: nat| self.sound(d, depth)
    }

    /// The textual form of `d`, followed at most `depth` containers deep.
    pub open spec fn render(self, d: Data, depth: nat) -> Seq<char>
        decreases depth, 0nat,
    {
        match d.data {
            DataTypes::BOOL(v) => if v {
                "true"@
            } else {
                "false"@
            },
            DataTypes::UINT8(v) => decimal(v as int),
            DataTypes::UINT16(v) => decimal(v as int),
            DataTypes::UINT32(v) => decimal(v as int),
            DataTypes::UINT64(v) => decimal(v as int),
            DataTypes::INT8(v) => decimal(v as int),
            DataTypes::INT16(v) => decimal(v as int),
            DataTypes::INT32(v) => decimal(v as int),
            DataTypes::INT64(v) => decimal(v as int),
            DataTypes::FLOAT64(bits) => pattern(bits),
            DataTypes::CHAR(c) => seq![c],
            DataTypes::STRING(s) => self.lists[s.addr()].text(),
            DataTypes::LIST(l) => if depth == 0 {
                Seq::empty()
            } else {
                seq!['['] + self.render_items(self.lists[l.addr()].items, (depth - 1) as nat)
                    + seq![']']
            },
            DataTypes::MAP(t) => if depth == 0 {
                Seq::empty()
            } else {
                seq!['{'] + self.render_entries(
                    self.tables[t.addr()].entries,
                    self.tables[t.addr()].store.items,
                    (depth - 1) as nat,
                ) + seq!['}']
            },
            DataTypes::NULL => "NULL"@,
        }
    }

    /// The textual forms of `items`, with a comma between one and the next.
    pub open spec fn render_items(self, items: Seq<Data>, depth: nat) -> Seq<char>
        decreases depth, items.len() + 1,
    {
        if items.len() == 0 {
            Seq::empty()
        } else if items.len() == 1 {
            self.render(items[0], depth)
        } else {
            self.render_items(items.drop_last(), depth) + seq![','] + self.render(
                items.last(),
                depth,
            )
        }
    }

    /// The bindings of `entries` as `key: value`, with a comma and a space
    /// between one and the next. A binding whose value in `values` is null is
    /// left out.
    pub open spec fn render_entries(
        self,
        entries: Seq<Binding>,
        values: Seq<Data>,
        depth: nat,
    ) -> Seq<char>
        decreases depth, entries.len() + 1,
    {
        if entries.len() == 0 {
            Seq::empty()
        } else {
            let head = self.render_entries(entries.drop_last(), values, depth);
            let value = values[entries.last().slot];
            if value.data is NULL {
                head
            } else if head.len() == 0 {
                entries.last().key + seq![':', ' '] + self.render(value, depth)
            } else {
                head + seq![',', ' '] + entries.last().key + seq![':', ' '] + self.render(
                    value,
                    depth,
                )
            }
        }
    }

    /// The textual form of a value that can be walked to its end.
    pub open spec fn text_of(self, d: Data) -> Seq<char> {
        self.render(d, self.depth(d))
    }

    /// What can be walked to its end stays so while the heap only grows.
    pub proof fn lemma_sound_kept(self, after: HeapView, d: Data, depth: nat)
        requires
            self.kept_by(after),
            self.sound(d, depth),
        ensures
            after.sound(d, depth),
        decreases depth,
    {
        match d.data {
            DataTypes::LIST(l) => {
                assert(after.lists[l.addr()] == self.lists[l.addr()]);
                assert forall|i: int| 0 <= i < after.lists[l.addr()].items.len() implies after.sound(
                    #[trigger] after.lists[l.addr()].items[i],
                    (depth - 1) as nat,
                ) by {
                    self.lemma_sound_kept(after, self.lists[l.addr()].items[i], (depth - 1) as nat);
                }
            },
            DataTypes::STRING(s) => {
                assert(after.lists[s.addr()] == self.lists[s.addr()]);
            },
            DataTypes::MAP(t) => {
                assert(after.tables[t.addr()] == self.tables[t.addr()]);
                assert forall|i: int|
                    0 <= i < after.tables[t.addr()].entries.len() implies after.sound(
                    after.tables[t.addr()].store.items[(
                    #[trigger] after.tables[t.addr()].entries[i]).slot],
                    (depth - 1) as nat,
                ) by {
                    self.lemma_sound_kept(
                        after,
                        self.tables[t.addr()].store.items[self.tables[t.addr()].entries[i].slot],
                        (depth - 1) as nat,
                    );
                }
            },
            _ => {},
        }
    }

    /// The textual form does not depend on the depth allowed, as long as the
    /// value can be walked to its end within it.
    pub proof fn lemma_render_depth(self, d: Data, a: nat, b: nat)
        requires
            self.sound(d, a),
            self.sound(d, b),
        ensures
            self.render(d, a) == self.render(d, b),
        decreases a, 0nat,
    {
        match d.data {
            DataTypes::LIST(l) => {
                self.lemma_render_items_depth(
                    self.lists[l.addr()].items,
                    (a - 1) as nat,
                    (b - 1) as nat,
                );
            },
            DataTypes::MAP(t) => {
                let table = self.tables[t.addr()];
                assert(table.entries.take(table.entries.len() as int) =~= table.entries);
                self.lemma_render_entries_depth(
                    table.entries,
                    table.entries.len() as int,
                    table.store.items,
                    (a - 1) as nat,
                    (b - 1) as nat,
                );
            },
            _ => {},
        }
    }

    /// The textual form of elements does not depend on the depth allowed.
    pub proof fn lemma_render_items_depth(self, items: Seq<Data>, a: nat, b: nat)
        requires
            forall|i: int| 0 <= i < items.len() ==> self.sound(#[trigger] items[i], a),
            forall|i: int| 0 <= i < items.len() ==> self.sound(#[trigger] items[i], b),
        ensures
            self.render_items(items, a) == self.render_items(items, b),
        decreases a, items.len() + 1,
    {
        if items.len() == 1 {
            self.lemma_render_depth(items[0], a, b);
        } else if items.len() > 1 {
            let head = items.drop_last();
            assert forall|i: int| 0 <= i < head.len() implies self.sound(#[trigger] head[i], a) by {
                assert(head[i] == items[i]);
            }
            assert forall|i: int| 0 <= i < head.len() implies self.sound(#[trigger] head[i], b) by {
                assert(head[i] == items[i]);
            }
            self.lemma_render_items_depth(head, a, b);
            self.lemma_render_depth(items.last(), a, b);
        }
    }

    /// The textual form of the first `n` bindings does not depend on the depth
    /// allowed.
    pub proof fn lemma_render_entries_depth(
        self,
        entries: Seq<Binding>,
        n: int,
        values: Seq<Data>,
        a: nat,
        b: nat,
    )
        requires
            0 <= n <= entries.len(),
            forall|i: int|
                0 <= i < entries.len() ==> self.sound(values[(#[trigger] entries[i]).slot], a),
            forall|i: int|
                0 <= i < entries.len() ==> self.sound(values[(#[trigger] entries[i]).slot], b),
        ensures
            self.render_entries(entries.take(n), values, a) == self.render_entries(
                entries.take(n),
                values,
                b,
            ),
        decreases a, n + 1,
    {
        if n > 0 {
            let shown = entries.take(n);
            assert(shown.drop_last() =~= entries.take(n - 1));
            assert(shown.last() == entries[n - 1]);
            self.lemma_render_entries_depth(entries, n - 1, values, a, b);
            self.lemma_render_depth(values[entries[n - 1].slot], a, b);
        }
    }

    /// A value that can be walked to its end within `depth` has the textual
    /// form that walking it within `depth` gives.
    pub proof fn lemma_text_of(self, d: Data, depth: nat)
        requires
            self.sound(d, depth),
        ensures
            self.finite(d),
            self.text_of(d) == self.render(d, depth),
    {
        self.lemma_render_depth(d, self.depth(d), depth);
    }
}

/// Whether every element of the sequence at `id` is a character.
pub(crate) fn holds_text(heap: &Heap, id: usize) -> (yes: bool)
    requires
        heap.wf(),
        heap@.list_live(id as int),
    ensures
        yes == heap@.lists[id as int].is_text(),
{
    let store = heap.list(id);
    let n: usize = store.len();
    let mut i: usize = 0;
    while i < n
        invariant
            store.wf(),
            store@ == heap@.lists[id as int],
            n == store@.items.len(),
            i <= n,
            forall|k: int| 0 <= k < i ==> (#[trigger] store@.items[k]).data is CHAR,
        decreases n - i,
    {
        match &store.item(i).data {
            DataTypes::CHAR(_) => {},
            _ => {
                return false;
            },
        }
        i = i + 1;
    }
    true
}

/// Whether every element of the sequence at `id` can be walked to its end
/// within `depth` containers.
pub(crate) fn walk_list(heap: &Heap, id: usize, depth: usize) -> (yes: bool)
    requires
        heap.wf(),
        heap@.list_live(id as int),
    ensures
        yes == (forall|i: int|
            0 <= i < heap@.lists[id as int].items.len() ==> heap@.sound(
                #[trigger] heap@.lists[id as int].items[i],
                depth as nat,
            )),
    decreases depth, 1nat,
{
    let store = heap.list(id);
    let n: usize = store.len();
    let mut i: usize = 0;
    while i < n
        invariant
            heap.wf(),
            heap@.list_live(id as int),
            store.wf(),
            store@ == heap@.lists[id as int],
            n == store@.items.len(),
            i <= n,
            forall|k: int| 0 <= k < i ==> heap@.sound(#[trigger] store@.items[k], depth as nat),
        decreases n - i,
    {
        if !walk(heap, store.item(i), depth) {
            proof {
                assert(!heap@.sound(heap@.lists[id as int].items[i as int], depth as nat));
            }
            return false;
        }
        i = i + 1;
    }
    true
}

/// Whether the value of every key of the table at `id` can be walked to its
/// end within `depth` containers.
pub(crate) fn walk_table(heap: &Heap, id: usize, depth: usize) -> (yes: bool)
    requires
        heap.wf(),
        heap@.table_live(id as int),
    ensures
        yes == (forall|i: int|
            0 <= i < heap@.tables[id as int].entries.len() ==> heap@.sound(
                heap@.tables[id as int].store.items[(
                #[trigger] heap@.tables[id as int].entries[i]).slot],
                depth as nat,
            )),
    decreases depth, 1nat,
{
    let store = heap.table(id);
    let n: usize = store.len();
    let mut i: usize = 0;
    while i < n
        invariant
            heap.wf(),
            heap@.table_live(id as int),
            store.wf(),
            store@ == heap@.tables[id as int],
            n == store@.entries.len(),
            i <= n,
            forall|k: int|
                0 <= k < i ==> heap@.sound(
                    store@.store.items[(#[trigger] store@.entries[k]).slot],
                    depth as nat,
                ),
        decreases n - i,
    {
        if !walk(heap, store.value_at(i), depth) {
            proof {
                let entry = heap@.tables[id as int].entries[i as int];
                assert(!heap@.sound(heap@.tables[id as int].store.items[entry.slot], depth as nat));
            }
            return false;
        }
        i = i + 1;
    }
    true
}

/// Whether `d` can be walked to its end within `depth` containers.
pub(crate) fn walk(heap: &Heap, d: &Data, depth: usize) -> (yes: bool)
    requires
        heap.wf(),
    ensures
        yes == heap@.sound(*d, depth as nat),
    decreases depth, 0nat,
{
    match &d.data {
        DataTypes::STRING(s) => {
            let id = s.slot();
            id < heap.lists_len() && heap.list(id).is_live() && holds_text(heap, id)
        },
        DataTypes::LIST(l) => {
            let id = l.slot();
            depth > 0 && id < heap.lists_len() && heap.list(id).is_live() && walk_list(
                heap,
                id,
                depth - 1,
            )
        },
        DataTypes::MAP(t) => {
            let id = t.slot();
            depth > 0 && id < heap.tables_len() && heap.table(id).is_live() && walk_table(
                heap,
                id,
                depth - 1,
            )
        },
        _ => true,
    }
}

/// Appends the characters of the text at `id` to `out`.
pub(crate) fn render_text(heap: &Heap, id: usize, out: &mut std::string::String)
    requires
        heap.wf(),
        heap@.list_live(id as int),
        heap@.lists[id as int].is_text(),
    ensures
        final(out)@ == old(out)@ + heap@.lists[id as int].text(),
{
    let store = heap.list(id);
    let n: usize = store.len();
    let mut i: usize = 0;
    proof {
        assert(out@ =~= old(out)@ + heap@.lists[id as int].text().take(0));
    }
    while i < n
        invariant
            store.wf(),
            store@ == heap@.lists[id as int],
            store@.is_text(),
            n == store@.items.len(),
            i <= n,
            out@ == old(out)@ + store@.text().take(i as int),
        decreases n - i,
    {
        match &store.item(i).data {
            DataTypes::CHAR(c) => {
                out.push(*c);
            },
            _ => {
                proof {
                    assert(store@.items[i as int].data is CHAR);
                }
            },
        }
        proof {
            assert(store@.text().take(i + 1) =~= store@.text().take(i as int).push(
                store@.text()[i as int],
            ));
            assert(out@ =~= old(out)@ + store@.text().take(i + 1));
        }
        i = i + 1;
    }
    proof {
        assert(store@.text().take(n as int) =~= store@.text());
    }
}

/// Appends the textual form of the sequence at `id` to `out`.
pub(crate) fn render_list(
    heap: &Heap,
    id: usize,
    out: &mut std::string::String,
    Ghost(depth): Ghost<nat>,
)
    requires
        heap.wf(),
        depth > 0,
        heap@.list_live(id as int),
        forall|i: int|
            0 <= i < heap@.lists[id as int].items.len() ==> heap@.sound(
                #[trigger] heap@.lists[id as int].items[i],
                (depth - 1) as nat,
            ),
    ensures
        final(out)@ == old(out)@ + (seq!['['] + heap@.render_items(
            heap@.lists[id as int].items,
            (depth - 1) as nat,
        ) + seq![']']),
    decreases depth, 1nat,
{
    let store = heap.list(id);
    let n: usize = store.len();
    let ghost items = store@.items;
    let ghost below = (depth - 1) as nat;
    out.push('[');
    let mut i: usize = 0;
    proof {
        assert(items.take(0) =~= Seq::<Data>::empty());
        assert(out@ =~= old(out)@ + seq!['['] + heap@.render_items(items.take(0), below));
    }
    while i < n
        invariant
            heap.wf(),
            store.wf(),
            store@ == heap@.lists[id as int],
            items == store@.items,
            n == items.len(),
            i <= n,
            depth > 0,
            below == depth - 1,
            forall|k: int| 0 <= k < items.len() ==> heap@.sound(#[trigger] items[k], below),
            out@ == old(out)@ + seq!['['] + heap@.render_items(items.take(i as int), below),
        decreases n - i,
    {
        if i > 0 {
            out.push(',');
        }
        let item = store.item(i);
        render_into(heap, item, out, Ghost(below));
        proof {
            let done = items.take(i as int);
            let next = items.take(i + 1);
            assert(next.drop_last() =~= done);
            assert(next.last() == items[i as int]);
            if i == 0 {
                assert(next[0] == items[0]);
                assert(heap@.render_items(done, below) =~= Seq::<char>::empty());
                assert(out@ =~= old(out)@ + seq!['['] + heap@.render_items(next, below));
            } else {
                assert(out@ =~= old(out)@ + seq!['['] + heap@.render_items(next, below));
            }
        }
        i = i + 1;
    }
    out.push(']');
    proof {
        assert(items.take(n as int) =~= items);
        assert(out@ =~= old(out)@ + (seq!['['] + heap@.render_items(items, below) + seq![']']));
    }
}

/// Appends the textual form of the table at `id` to `out`.
pub(crate) fn render_table(
    heap: &Heap,
    id: usize,
    out: &mut std::string::String,
    Ghost(depth): Ghost<nat>,
)
    requires
        heap.wf(),
        depth > 0,
        heap@.table_live(id as int),
        forall|i: int|
            0 <= i < heap@.tables[id as int].entries.len() ==> heap@.sound(
                heap@.tables[id as int].store.items[(
                #[trigger] heap@.tables[id as int].entries[i]).slot],
                (depth - 1) as nat,
            ),
    ensures
        final(out)@ == old(out)@ + (seq!['{'] + heap@.render_entries(
            heap@.tables[id as int].entries,
            heap@.tables[id as int].store.items,
            (depth - 1) as nat,
        ) + seq!['}']),
    decreases depth, 1nat,
{
    let store = heap.table(id);
    let n: usize = store.len();
    let ghost entries = store@.entries;
    let ghost values = store@.store.items;
    let ghost below = (depth - 1) as nat;
    out.push('{');
    let mut i: usize = 0;
    let mut shown: bool = false;
    proof {
        assert(entries.take(0) =~= Seq::<crate::map::Binding>::empty());
        assert(out@ =~= old(out)@ + seq!['{'] + heap@.render_entries(
            entries.take(0),
            values,
            below,
        ));
    }
    while i < n
        invariant
            heap.wf(),
            store.wf(),
            store@ == heap@.tables[id as int],
            entries == store@.entries,
            values == store@.store.items,
            n == entries.len(),
            i <= n,
            depth > 0,
            below == depth - 1,
            forall|k: int| 0 <= k < entries.len() ==> heap@.sound(
                values[(#[trigger] entries[k]).slot],
                below,
            ),
            shown == (heap@.render_entries(entries.take(i as int), values, below).len() > 0),
            out@ == old(out)@ + seq!['{'] + heap@.render_entries(
                entries.take(i as int),
                values,
                below,
            ),
        decreases n - i,
    {
        let value = store.value_at(i);
        proof {
            let next = entries.take(i + 1);
            assert(next.drop_last() =~= entries.take(i as int));
            assert(next.last() == entries[i as int]);
        }
        if !value.is_null() {
            if shown {
                out.push(',');
                out.push(' ');
            }
            out.append(store.key_at(i));
            out.push(':');
            out.push(' ');
            render_into(heap, value, out, Ghost(below));
            shown = true;
            proof {
                let head = heap@.render_entries(entries.take(i as int), values, below);
                let pair = entries[i as int].key + seq![':', ' '] + heap@.render(*value, below);
                assert(pair.len() >= 2);
                if head.len() == 0 {
                    assert(out@ =~= old(out)@ + seq!['{'] + pair);
                } else {
                    assert(out@ =~= old(out)@ + seq!['{'] + (head + seq![',', ' ']
                        + entries[i as int].key + seq![':', ' '] + heap@.render(*value, below)));
                }
            }
        }
        i = i + 1;
    }
    out.push('}');
    proof {
        assert(entries.take(n as int) =~= entries);
        assert(out@ =~= old(out)@ + (seq!['{'] + heap@.render_entries(entries, values, below)
            + seq!['}']));
    }
}

/// Appends the textual form of `d` to `out`.
pub(crate) fn render_into(
    heap: &Heap,
    d: &Data,
    out: &mut std::string::String,
    Ghost(depth): Ghost<nat>,
)
    requires
        heap.wf(),
        heap@.sound(*d, depth),
    ensures
        final(out)@ == old(out)@ + heap@.render(*d, depth),
    decreases depth, 2nat,
{
    match &d.data {
        DataTypes::BOOL(v) => {
            if *v {
                out.append("true");
            } else {
                out.append("false");
            }
        },
        DataTypes::UINT8(v) => push_unsigned(out, *v as u64),
        DataTypes::UINT16(v) => push_unsigned(out, *v as u64),
        DataTypes::UINT32(v) => push_unsigned(out, *v as u64),
        DataTypes::UINT64(v) => push_unsigned(out, *v),
        DataTypes::INT8(v) => push_signed(out, *v as i64),
        DataTypes::INT16(v) => push_signed(out, *v as i64),
        DataTypes::INT32(v) => push_signed(out, *v as i64),
        DataTypes::INT64(v) => push_signed(out, *v),
        DataTypes::FLOAT64(bits) => push_pattern(out, *bits),
        DataTypes::CHAR(c) => {
            out.push(*c);
            proof {
                assert(out@ =~= old(out)@ + seq![*c]);
            }
        },
        DataTypes::STRING(s) => render_text(heap, s.slot(), out),
        DataTypes::LIST(l) => render_list(heap, l.slot(), out, Ghost(depth)),
        DataTypes::MAP(t) => render_table(heap, t.slot(), out, Ghost(depth)),
        DataTypes::NULL => {
            out.append("NULL");
        },
    }
}

} // verus!
