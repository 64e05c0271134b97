//! A rendering in pieces: the text of a value with every float left as its
//! bit pattern, for a caller that writes floats in a form of its own.
use crate::data::Data;
use crate::data::DataTypes;
use crate::heap::Heap;
use crate::heap::HeapView;
use crate::map::Binding;
use crate::render::pattern;
use crate::render::render_into;
use vstd::prelude::*;
use vstd::string::StringExecFns;

verus! {

/// One piece of a rendering.
#[derive(Debug, PartialEq, Eq)]
pub enum Piece {
    /// Text that stands as it is.
    Text(std::string::String),
    /// A float, by its bit pattern, that stands where its written form is to
    /// go.
    Float(u64),
}

/// One token of a rendering: a character, or a float by its bit pattern.
pub enum Token {
    /// A character.
    Letter(char),
    /// A float, by its bit pattern.
    Float(u64),
}

/// The character `c` as a token.
pub open spec fn letter(c: char) -> Token {
    Token::Letter(c)
}

/// The characters of `text` as tokens.
pub open spec fn letters(text: Seq<char>) -> Seq<Token> {
    Seq::new(text.len(), |i: int| letter(text[i]))
}

impl Piece {
    /// The tokens of the piece: the characters of a text, or the one float.
    pub open spec fn tokens(&self) -> Seq<Token> {
        match self {
            Piece::Text(text) => letters(text@),
            Piece::Float(bits) => seq![Token::Float(*bits)],
        }
    }
}

/// The tokens of the pieces, one piece after the other. How a text is cut into
/// pieces makes no difference to it.
pub open spec fn spread(pieces: Seq<Piece>) -> Seq<Token>
    decreases pieces.len(),
{
    if pieces.len() == 0 {
        Seq::empty()
    } else {
        spread(pieces.drop_last()) + pieces.last().tokens()
    }
}

/// The text that the tokens stand for when every float is written as its bit
/// pattern.
pub open spec fn written(tokens: Seq<Token>) -> Seq<char>
    decreases tokens.len(),
{
    if tokens.len() == 0 {
        Seq::empty()
    } else {
        written(tokens.drop_last()) + match tokens.last() {
            Token::Letter(c) => seq![c],
            Token::Float(bits) => pattern(bits),
        }
    }
}

/// Writing tokens in a row is writing them part by part.
pub proof fn lemma_written_add(a: Seq<Token>, b: Seq<Token>)
    ensures
        written(a + b) == written(a) + written(b),
    decreases b.len(),
{
    if b.len() == 0 {
        assert(a + b =~= a);
        assert(written(a) + written(b) =~= written(a));
    } else {
        lemma_written_add(a, b.drop_last());
        assert((a + b).drop_last() =~= a + b.drop_last());
        assert((a + b).last() == b.last());
        let tail = match b.last() {
            Token::Letter(c) => seq![c],
            Token::Float(bits) => pattern(bits),
        };
        assert(written(a) + written(b.drop_last()) + tail =~= written(a) + (written(
            b.drop_last(),
        ) + tail));
    }
}

/// Characters are written as themselves.
pub proof fn lemma_written_letters(text: Seq<char>)
    ensures
        written(letters(text)) == text,
    decreases text.len(),
{
    assert(letters(text).len() == text.len());
    if text.len() == 0 {
        assert(written(letters(text)) =~= text);
    } else {
        lemma_written_letters(text.drop_last());
        assert(letters(text.drop_last()).len() == text.len() - 1);
        assert forall|i: int| 0 <= i < text.len() - 1 implies letters(text).drop_last()[i]
            == letters(text.drop_last())[i] by {
            assert(letters(text)[i] == Token::Letter(text[i]));
            assert(letters(text.drop_last())[i] == Token::Letter(text.drop_last()[i]));
        }
        assert(letters(text).drop_last() =~= letters(text.drop_last()));
        assert(letters(text).last() == Token::Letter(text.last()));
        assert(text.drop_last() + seq![text.last()] =~= text);
    }
}

/// Every token is written with a character at least.
pub proof fn lemma_written_len(tokens: Seq<Token>)
    ensures
        written(tokens).len() >= tokens.len(),
    decreases tokens.len(),
{
    if tokens.len() > 0 {
        lemma_written_len(tokens.drop_last());
    }
}

/// The characters of texts in a row are those of the texts joined.
pub proof fn lemma_letters_add(a: Seq<char>, b: Seq<char>)
    ensures
        letters(a + b) == letters(a) + letters(b),
{
    assert(letters(a + b) =~= letters(a) + letters(b));
}

impl HeapView {
    /// The rendering of `d`, followed at most `depth` containers deep, as
    /// tokens: the same text as `render` gives, with every float it contains
    /// as one token.
    pub open spec fn tokens(self, d: Data, depth: nat) -> Seq<Token>
        decreases depth, 0nat,
    {
        match d.data {
            DataTypes::FLOAT64(bits) => seq![Token::Float(bits)],
            DataTypes::LIST(l) => if depth == 0 {
                Seq::empty()
            } else {
                letters(seq!['[']) + self.tokens_items(
                    self.lists[l.addr()].items,
                    (depth - 1) as nat,
                ) + letters(seq![']'])
            },
            DataTypes::MAP(t) => if depth == 0 {
                Seq::empty()
            } else {
                letters(seq!['{']) + self.tokens_entries(
                    self.tables[t.addr()].entries,
                    self.tables[t.addr()].store.items,
                    (depth - 1) as nat,
                ) + letters(seq!['}'])
            },
            _ => letters(self.render(d, depth)),
        }
    }

    /// The tokens of `items`, with a comma between one and the next.
    pub open spec fn tokens_items(self, items: Seq<Data>, depth: nat) -> Seq<Token>
        decreases depth, items.len() + 1,
    {
        if items.len() == 0 {
            Seq::empty()
        } else if items.len() == 1 {
            self.tokens(items[0], depth)
        } else {
            self.tokens_items(items.drop_last(), depth) + letters(seq![',']) + self.tokens(
                items.last(),
                depth,
            )
        }
    }

    /// The tokens of the bindings of `entries` as `key: value`, with a comma
    /// and a space between one and the next. A binding whose value in `values`
    /// is null is left out.
    pub open spec fn tokens_entries(
        self,
        entries: Seq<Binding>,
        values: Seq<Data>,
        depth: nat,
    ) -> Seq<Token>
        decreases depth, entries.len() + 1,
    {
        if entries.len() == 0 {
            Seq::empty()
        } else {
            let head = self.tokens_entries(entries.drop_last(), values, depth);
            let value = values[entries.last().slot];
            if value.data is NULL {
                head
            } else if head.len() == 0 {
                letters(entries.last().key) + letters(seq![':', ' ']) + self.tokens(value, depth)
            } else {
                head + letters(seq![',', ' ']) + letters(entries.last().key) + letters(
                    seq![':', ' '],
                ) + self.tokens(value, depth)
            }
        }
    }

    /// The tokens, written with every float as its bit pattern, are the
    /// rendering.
    pub proof fn lemma_tokens_written(self, d: Data, depth: nat)
        ensures
            written(self.tokens(d, depth)) == self.render(d, depth),
        decreases depth, 0nat,
    {
        match d.data {
            DataTypes::FLOAT64(bits) => {
                let one = seq![Token::Float(bits)];
                assert(one.drop_last() =~= Seq::<Token>::empty());
                assert(one.last() == Token::Float(bits));
                assert(written(one.drop_last()) =~= Seq::<char>::empty());
                assert(written(one) =~= pattern(bits));
            },
            DataTypes::LIST(l) => {
                if depth > 0 {
                    let below = (depth - 1) as nat;
                    let items = self.lists[l.addr()].items;
                    self.lemma_tokens_items_written(items, below);
                    lemma_written_letters(seq!['[']);
                    lemma_written_letters(seq![']']);
                    lemma_written_add(letters(seq!['[']), self.tokens_items(items, below));
                    lemma_written_add(
                        letters(seq!['[']) + self.tokens_items(items, below),
                        letters(seq![']']),
                    );
                } else {
                    assert(written(Seq::<Token>::empty()) =~= Seq::<char>::empty());
                }
            },
            DataTypes::MAP(t) => {
                if depth > 0 {
                    let below = (depth - 1) as nat;
                    let table = self.tables[t.addr()];
                    self.lemma_tokens_entries_written(table.entries, table.store.items, below);
                    lemma_written_letters(seq!['{']);
                    lemma_written_letters(seq!['}']);
                    let inner = self.tokens_entries(table.entries, table.store.items, below);
                    lemma_written_add(letters(seq!['{']), inner);
                    lemma_written_add(letters(seq!['{']) + inner, letters(seq!['}']));
                } else {
                    assert(written(Seq::<Token>::empty()) =~= Seq::<char>::empty());
                }
            },
            _ => {
                lemma_written_letters(self.render(d, depth));
            },
        }
    }

    /// The tokens of elements, written, are the rendering of the elements.
    pub proof fn lemma_tokens_items_written(self, items: Seq<Data>, depth: nat)
        ensures
            written(self.tokens_items(items, depth)) == self.render_items(items, depth),
        decreases depth, items.len() + 1,
    {
        if items.len() == 0 {
            assert(written(Seq::<Token>::empty()) =~= Seq::<char>::empty());
        } else if items.len() == 1 {
            self.lemma_tokens_written(items[0], depth);
        } else {
            let head = self.tokens_items(items.drop_last(), depth);
            self.lemma_tokens_items_written(items.drop_last(), depth);
            self.lemma_tokens_written(items.last(), depth);
            lemma_written_letters(seq![',']);
            lemma_written_add(head, letters(seq![',']));
            lemma_written_add(head + letters(seq![',']), self.tokens(items.last(), depth));
        }
    }

    /// The tokens of bindings, written, are the rendering of the bindings.
    pub proof fn lemma_tokens_entries_written(
        self,
        entries: Seq<Binding>,
        values: Seq<Data>,
        depth: nat,
    )
        ensures
            written(self.tokens_entries(entries, values, depth)) == self.render_entries(
                entries,
                values,
                depth,
            ),
            self.tokens_entries(entries, values, depth).len() == 0 <==> self.render_entries(
                entries,
                values,
                depth,
            ).len() == 0,
        decreases depth, entries.len() + 1,
    {
        if entries.len() == 0 {
            assert(written(Seq::<Token>::empty()) =~= Seq::<char>::empty());
        } else {
            let head = self.tokens_entries(entries.drop_last(), values, depth);
            let value = values[entries.last().slot];
            let key = entries.last().key;
            self.lemma_tokens_entries_written(entries.drop_last(), values, depth);
            if !(value.data is NULL) {
                self.lemma_tokens_written(value, depth);
                lemma_written_letters(key);
                lemma_written_letters(seq![':', ' ']);
                lemma_written_letters(seq![',', ' ']);
                let inner = self.tokens(value, depth);
                if head.len() == 0 {
                    lemma_written_add(letters(key), letters(seq![':', ' ']));
                    lemma_written_add(letters(key) + letters(seq![':', ' ']), inner);
                } else {
                    lemma_written_add(head, letters(seq![',', ' ']));
                    lemma_written_add(head + letters(seq![',', ' ']), letters(key));
                    lemma_written_add(
                        head + letters(seq![',', ' ']) + letters(key),
                        letters(seq![':', ' ']),
                    );
                    lemma_written_add(
                        head + letters(seq![',', ' ']) + letters(key) + letters(seq![':', ' ']),
                        inner,
                    );
                }
                lemma_written_len(self.tokens_entries(entries, values, depth));
            }
        }
    }
}

/// The pieces written so far, and the text that is still being written.
pub(crate) struct Pieces {
    /// The pieces that are complete.
    done: Vec<Piece>,
    /// The text behind them.
    open: std::string::String,
}

impl Pieces {
    /// The tokens written so far.
    pub closed spec fn tokens(&self) -> Seq<Token> {
        spread(self.done@) + letters(self.open@)
    }

    /// Nothing written yet.
    pub(crate) fn new() -> (pieces: Pieces)
        ensures
            pieces.tokens() == Seq::<Token>::empty(),
    {
        let pieces = Pieces { done: Vec::new(), open: std::string::String::new() };
        proof {
            assert(letters(pieces.open@).len() == 0);
            assert(pieces.tokens() =~= Seq::<Token>::empty());
        }
        pieces
    }

    /// Writes one character.
    pub(crate) fn letter(&mut self, c: char)
        ensures
            final(self).tokens() == old(self).tokens() + letters(seq![c]),
    {
        self.open.push(c);
        proof {
            assert(self.open@ =~= old(self).open@ + seq![c]);
            lemma_letters_add(old(self).open@, seq![c]);
            assert(self.tokens() =~= old(self).tokens() + letters(seq![c]));
        }
    }

    /// Writes the characters of `text`.
    pub(crate) fn word(&mut self, text: &str)
        ensures
            final(self).tokens() == old(self).tokens() + letters(text@),
    {
        self.open.append(text);
        proof {
            lemma_letters_add(old(self).open@, text@);
            assert(self.tokens() =~= old(self).tokens() + letters(text@));
        }
    }

    /// Writes a value that holds no container: its rendering, or the one
    /// token of a float.
    pub(crate) fn plain(&mut self, heap: &Heap, d: &Data, Ghost(depth): Ghost<nat>)
        requires
            heap.wf(),
            heap@.sound(*d, depth),
            !(d.data is LIST),
            !(d.data is MAP),
        ensures
            final(self).tokens() == old(self).tokens() + heap@.tokens(*d, depth),
    {
        match &d.data {
            DataTypes::FLOAT64(bits) => {
                let mut text = std::string::String::new();
                core::mem::swap(&mut text, &mut self.open);
                self.done.push(Piece::Text(text));
                self.done.push(Piece::Float(*bits));
                proof {
                    let first = old(self).done@.push(Piece::Text(text));
                    assert(self.done@.drop_last() =~= first);
                    assert(first.drop_last() =~= old(self).done@);
                    assert(letters(self.open@).len() == 0);
                    assert(spread(first) == spread(old(self).done@) + letters(old(self).open@));
                    assert(spread(self.done@) == spread(first) + seq![Token::Float(*bits)]);
                    assert(self.tokens() =~= old(self).tokens() + seq![Token::Float(*bits)]);
                }
            },
            _ => {
                render_into(heap, d, &mut self.open, Ghost(depth));
                proof {
                    lemma_letters_add(old(self).open@, heap@.render(*d, depth));
                    assert(self.tokens() =~= old(self).tokens() + letters(
                        heap@.render(*d, depth),
                    ));
                }
            },
        }
    }

    /// The pieces, with the text that was still being written as the last.
    pub(crate) fn finish(self) -> (pieces: Vec<Piece>)
        ensures
            spread(pieces@) == self.tokens(),
    {
        let mut pieces = self.done;
        pieces.push(Piece::Text(self.open));
        proof {
            assert(pieces@.drop_last() =~= self.done@);
        }
        pieces
    }
}

/// Writes the sequence at `id` in pieces.
pub(crate) fn pieces_list(heap: &Heap, id: usize, out: &mut Pieces, Ghost(depth): Ghost<nat>)
    requires
        heap.wf(),
        depth > 0,
        heap@.list_live(id as int),
        forall|i: int|
            0 <= i < heap@.lists[id as int].items.len() ==> heap@.sound(
                #[trigger] heap@.lists[id as int].items[i],
                (depth - 1) as nat,
            ),
    ensures
        final(out).tokens() == old(out).tokens() + (letters(seq!['[']) + heap@.tokens_items(
            heap@.lists[id as int].items,
            (depth - 1) as nat,
        ) + letters(seq![']'])),
    decreases depth, 1nat,
{
    let store = heap.list(id);
    let n: usize = store.len();
    let ghost items = store@.items;
    let ghost below = (depth - 1) as nat;
    let ghost start = out.tokens() + letters(seq!['[']);
    out.letter('[');
    let mut i: usize = 0;
    proof {
        assert(items.take(0) =~= Seq::<Data>::empty());
        assert(out.tokens() =~= start + heap@.tokens_items(items.take(0), below));
    }
    while i < n
        invariant
            heap.wf(),
            store.wf(),
            store@ == heap@.lists[id as int],
            items == store@.items,
            n == items.len(),
            i <= n,
            depth > 0,
            below == depth - 1,
            forall|k: int| 0 <= k < items.len() ==> heap@.sound(#[trigger] items[k], below),
            out.tokens() == start + heap@.tokens_items(items.take(i as int), below),
        decreases n - i,
    {
        if i > 0 {
            out.letter(',');
        }
        pieces_into(heap, store.item(i), out, Ghost(below));
        proof {
            let done = items.take(i as int);
            let next = items.take(i + 1);
            assert(next.drop_last() =~= done);
            assert(next.last() == items[i as int]);
            if i == 0 {
                assert(next[0] == items[0]);
                assert(heap@.tokens_items(done, below) =~= Seq::<Token>::empty());
            }
            assert(out.tokens() =~= start + heap@.tokens_items(next, below));
        }
        i = i + 1;
    }
    out.letter(']');
    proof {
        assert(items.take(n as int) =~= items);
        assert(out.tokens() =~= old(out).tokens() + (letters(seq!['[']) + heap@.tokens_items(
            items,
            below,
        ) + letters(seq![']'])));
    }
}

/// Writes the table at `id` in pieces.
pub(crate) fn pieces_table(heap: &Heap, id: usize, out: &mut Pieces, Ghost(depth): Ghost<nat>)
    requires
        heap.wf(),
        depth > 0,
        heap@.table_live(id as int),
        forall|i: int|
            0 <= i < heap@.tables[id as int].entries.len() ==> heap@.sound(
                heap@.tables[id as int].store.items[(
                #[trigger] heap@.tables[id as int].entries[i]).slot],
                (depth - 1) as nat,
            ),
    ensures
        final(out).tokens() == old(out).tokens() + (letters(seq!['{']) + heap@.tokens_entries(
            heap@.tables[id as int].entries,
            heap@.tables[id as int].store.items,
            (depth - 1) as nat,
        ) + letters(seq!['}'])),
    decreases depth, 1nat,
{
    let store = heap.table(id);
    let n: usize = store.len();
    let ghost entries = store@.entries;
    let ghost values = store@.store.items;
    let ghost below = (depth - 1) as nat;
    let ghost start = out.tokens() + letters(seq!['{']);
    out.letter('{');
    let mut i: usize = 0;
    let mut shown: bool = false;
    proof {
        assert(entries.take(0) =~= Seq::<Binding>::empty());
        assert(out.tokens() =~= start + heap@.tokens_entries(entries.take(0), values, below));
    }
    while i < n
        invariant
            heap.wf(),
            store.wf(),
            store@ == heap@.tables[id as int],
            entries == store@.entries,
            values == store@.store.items,
            n == entries.len(),
            i <= n,
            depth > 0,
            below == depth - 1,
            forall|k: int|
                0 <= k < entries.len() ==> heap@.sound(values[(#[trigger] entries[k]).slot], below),
            shown == (heap@.tokens_entries(entries.take(i as int), values, below).len() > 0),
            out.tokens() == start + heap@.tokens_entries(entries.take(i as int), values, below),
        decreases n - i,
    {
        let value = store.value_at(i);
        let ghost head = heap@.tokens_entries(entries.take(i as int), values, below);
        proof {
            let next = entries.take(i + 1);
            assert(next.drop_last() =~= entries.take(i as int));
            assert(next.last() == entries[i as int]);
        }
        if !value.is_null() {
            if shown {
                out.letter(',');
                out.letter(' ');
            }
            out.word(store.key_at(i));
            out.letter(':');
            out.letter(' ');
            pieces_into(heap, value, out, Ghost(below));
            shown = true;
            proof {
                let key = entries[i as int].key;
                let inner = heap@.tokens(*value, below);
                lemma_letters_add(seq![','], seq![' ']);
                lemma_letters_add(seq![':'], seq![' ']);
                assert(seq![','] + seq![' '] =~= seq![',', ' ']);
                assert(seq![':'] + seq![' '] =~= seq![':', ' ']);
                assert(letters(seq![':', ' ']).len() == 2);
                if head.len() == 0 {
                    assert(out.tokens() =~= start + (letters(key) + letters(seq![':', ' '])
                        + inner));
                } else {
                    assert(out.tokens() =~= start + (head + letters(seq![',', ' ']) + letters(key)
                        + letters(seq![':', ' ']) + inner));
                }
            }
        }
        i = i + 1;
    }
    out.letter('}');
    proof {
        assert(entries.take(n as int) =~= entries);
        assert(out.tokens() =~= old(out).tokens() + (letters(seq!['{']) + heap@.tokens_entries(
            entries,
            values,
            below,
        ) + letters(seq!['}'])));
    }
}

/// Writes `d` in pieces.
pub(crate) fn pieces_into(heap: &Heap, d: &Data, out: &mut Pieces, Ghost(depth): Ghost<nat>)
    requires
        heap.wf(),
        heap@.sound(*d, depth),
    ensures
        final(out).tokens() == old(out).tokens() + heap@.tokens(*d, depth),
    decreases depth, 2nat,
{
    match &d.data {
        DataTypes::LIST(l) => pieces_list(heap, l.slot(), out, Ghost(depth)),
        DataTypes::MAP(t) => pieces_table(heap, t.slot(), out, Ghost(depth)),
        _ => out.plain(heap, d, Ghost(depth)),
    }
}

impl Data {
    /// Renders the value in pieces: the pieces, one after the other, are the
    /// text that `tostr` gives, but for the floats, each of which is a piece
    /// of its own that holds its bit pattern. A caller that writes floats in
    /// a form of its own joins the pieces and writes those in that form.
    pub fn pieces(&self, heap: &Heap) -> (pieces: Vec<Piece>)
        requires
            heap.wf(),
            heap@.finite(*self),
        ensures
            spread(pieces@) == heap@.tokens(*self, heap@.depth(*self)),
            written(spread(pieces@)) == heap@.text_of(*self),
    {
        let ghost depth = heap@.depth(*self);
        let mut out = Pieces::new();
        pieces_into(heap, self, &mut out, Ghost(depth));
        proof {
            heap@.lemma_tokens_written(*self, depth);
            assert(out.tokens() =~= heap@.tokens(*self, depth));
        }
        out.finish()
    }
}

} // verus!
