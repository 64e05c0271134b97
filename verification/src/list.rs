//! The paged sequence: a growable sequence laid out in rows of fixed width.
//!
//! Element `i` lives in row `i / cols`, column `i % cols`. Rows are allocated
//! one at a time and never moved, so growth costs one row and no copy of what
//! is already stored.
use crate::data::Data;
use crate::error::Error;
use crate::data::DataTypes;
use crate::heap::Heap;
use crate::heap::HeapView;
use crate::traits::debug::ToStr;
use crate::traits::memory::RefC;
use crate::traits::memory::RefCopy;
use crate::util::allocator::allocate;
use crate::util::allocator::deallocate;
use crate::util::allocator::reallocate;
use vstd::arithmetic::div_mod::lemma_div_multiples_vanish;
use vstd::arithmetic::div_mod::lemma_div_pos_is_pos;
use vstd::arithmetic::div_mod::lemma_fundamental_div_mod;
use vstd::arithmetic::div_mod::lemma_fundamental_div_mod_converse;
use vstd::arithmetic::div_mod::lemma_mod_pos_bound;
use vstd::arithmetic::div_mod::lemma_multiply_divide_lt;
use vstd::arithmetic::mul::lemma_mul_is_commutative;
use vstd::prelude::*;

verus! {

/// Width of the rows of a sequence made by [`List::new`].
pub const DEFAULT_COLS: usize = 32;

/// The mathematical view of one paged sequence.
pub struct ListView {
    /// The elements, in index order.
    pub items: Seq<Data>,
    /// How many rows have been allocated.
    pub rows: nat,
    /// How many slots a row has.
    pub cols: nat,
    /// The reference count shared by every handle on the sequence.
    pub refc: int,
    /// Whether the storage still exists.
    pub live: bool,
}

impl ListView {
    /// A sequence as `new` makes it: empty, no row allocated, one reference.
    pub open spec fn fresh() -> ListView {
        ListView { items: Seq::empty(), rows: 0, cols: DEFAULT_COLS as nat, refc: 1, live: true }
    }

    /// A sequence made of `items` by appending them in order to a new one: it
    /// has as many rows as the elements need, and no more.
    pub open spec fn holding(items: Seq<Data>) -> ListView {
        ListView {
            items: items,
            rows: ((items.len() + DEFAULT_COLS - 1) / (DEFAULT_COLS as int)) as nat,
            cols: DEFAULT_COLS as nat,
            refc: 1,
            live: true,
        }
    }

    /// What is left once the storage has been released.
    pub open spec fn retired(self) -> ListView {
        ListView { items: Seq::empty(), rows: 0, cols: self.cols, refc: 0, live: false }
    }

    /// The invariant of the layout: the elements fit in the allocated rows.
    pub open spec fn valid(self) -> bool {
        &&& self.cols > 0
        &&& self.refc >= 0
        &&& self.items.len() <= self.rows * self.cols
        &&& !self.live ==> self == self.retired()
    }

    /// Every allocated slot is in use, so the next write needs a new row.
    pub open spec fn full(self) -> bool {
        self.items.len() == self.rows * self.cols
    }

    /// The row count once room for one more element has been made.
    pub open spec fn grown(self) -> nat {
        if self.full() {
            self.rows + 1
        } else {
            self.rows
        }
    }

    /// The element at `index`, absent from `len` on.
    pub open spec fn get(self, index: int) -> Option<Data> {
        if 0 <= index < self.items.len() {
            Some(self.items[index])
        } else {
            None
        }
    }

    /// The sequence with `value` written behind the last element.
    pub open spec fn append(self, value: Data) -> ListView {
        ListView { items: self.items.push(value), rows: self.grown(), ..self }
    }

    /// The sequence with `value` at `index` and every later element one place
    /// further right.
    pub open spec fn insert(self, index: int, value: Data) -> ListView {
        ListView { items: self.items.insert(index, value), rows: self.grown(), ..self }
    }

    /// The sequence without the element at `index`, every later element one
    /// place further left. No row is given back.
    pub open spec fn remove(self, index: int) -> ListView {
        ListView { items: self.items.remove(index), ..self }
    }

    /// The sequence with `value` in place of the element at `index`.
    pub open spec fn set(self, index: int, value: Data) -> ListView {
        ListView { items: self.items.update(index, value), ..self }
    }

    /// The sequence with one more reference counted.
    pub open spec fn retained(self) -> ListView {
        ListView { refc: self.refc + 1, ..self }
    }

    /// The sequence with one reference fewer counted, never below zero.
    pub open spec fn lowered(self) -> ListView {
        ListView {
            refc: if self.refc > 0 {
                self.refc - 1
            } else {
                0
            },
            ..self
        }
    }

    /// The rows that a sequence of `len` elements needs when it already has
    /// `self.rows`: a row is added whenever an element finds every slot in use.
    pub open spec fn rows_for(self, len: nat) -> nat {
        let needed = (len + self.cols - 1) / (self.cols as int);
        if needed > self.rows {
            needed as nat
        } else {
            self.rows
        }
    }

    /// The sequence with the values of `more` written behind the last element,
    /// in their order.
    pub open spec fn extend(self, more: Seq<Data>) -> ListView {
        ListView {
            items: self.items + more,
            rows: self.rows_for(self.items.len() + more.len()),
            ..self
        }
    }

    /// The sequence with the values of `more` standing at `index` in their
    /// order, and what stood from `index` on behind them.
    pub open spec fn insert_all(self, index: int, more: Seq<Data>) -> ListView {
        ListView {
            items: self.items.take(index) + more + self.items.skip(index),
            rows: self.rows_for(self.items.len() + more.len()),
            ..self
        }
    }

    /// The sequence with the values of `more` appended one at a time, in their
    /// order.
    pub open spec fn append_each(self, more: Seq<Data>) -> ListView
        decreases more.len(),
    {
        if more.len() == 0 {
            self
        } else {
            self.append_each(more.drop_last()).append(more.last())
        }
    }

    /// Whether every element is a single character.
    pub open spec fn is_text(self) -> bool {
        forall|i: int| 0 <= i < self.items.len() ==> (#[trigger] self.items[i]).data is CHAR
    }

    /// The characters of a sequence that holds characters only.
    pub open spec fn text(self) -> Seq<char> {
        Seq::new(self.items.len(), |i: int| self.items[i].data->CHAR_0)
    }

    /// Writing into a valid sequence whose storage exists leaves it valid.
    pub proof fn lemma_grow_valid(self, index: int, value: Data)
        requires
            self.valid(),
            self.live,
        ensures
            self.append(value).valid(),
            0 <= index <= self.items.len() ==> self.insert(index, value).valid(),
            0 <= index < self.items.len() ==> self.set(index, value).valid(),
    {
        let cols = self.cols as int;
        let rows = self.rows as int;
        assert((rows + 1) * cols == rows * cols + cols) by (nonlinear_arith);
    }

    /// One more element needs the rows that `grown` says.
    pub proof fn lemma_rows_step(self)
        requires
            self.valid(),
        ensures
            self.rows_for(self.items.len() + 1) == self.grown(),
            self.rows_for(self.items.len()) == self.rows,
    {
        let len = self.items.len() as int;
        let cols = self.cols as int;
        let rows = self.rows as int;
        if len == rows * cols {
            lemma_div_multiples_vanish(rows + 1, cols);
            assert((rows + 1) * cols == rows * cols + cols) by (nonlinear_arith);
            assert(cols * (rows + 1) == (rows + 1) * cols) by (nonlinear_arith);
        } else {
            assert((rows + 1) * cols == rows * cols + cols) by (nonlinear_arith);
            assert(cols * (rows + 1) == (rows + 1) * cols) by (nonlinear_arith);
            lemma_multiply_divide_lt(len + cols, cols, rows + 1);
        }
        assert(cols * rows == rows * cols) by (nonlinear_arith);
        lemma_multiply_divide_lt(len + cols - 1, cols, rows + 1);
    }

    /// The rows needed never shrink as the sequence grows, and what a longer
    /// sequence needs does not depend on the rows allocated on the way.
    pub proof fn lemma_rows_mono(self, a: nat, b: nat)
        requires
            self.cols > 0,
            a <= b,
        ensures
            self.rows_for(a) <= self.rows_for(b),
            (ListView { rows: self.rows_for(a), ..self }).rows_for(b) == self.rows_for(b),
    {
        vstd::arithmetic::div_mod::lemma_div_is_ordered(
            a + self.cols - 1,
            b + self.cols - 1,
            self.cols as int,
        );
    }

    /// Appending values one at a time is extending by all of them.
    pub proof fn lemma_append_each(self, more: Seq<Data>)
        requires
            self.valid(),
            self.live,
        ensures
            self.append_each(more) == self.extend(more),
            self.extend(more).valid(),
        decreases more.len(),
    {
        self.lemma_rows_step();
        if more.len() == 0 {
            assert(self.items + more =~= self.items);
        } else {
            let head = more.drop_last();
            self.lemma_append_each(head);
            let mid = self.extend(head);
            mid.lemma_rows_step();
            self.lemma_rows_mono(
                (self.items.len() + head.len()) as nat,
                (self.items.len() + more.len()) as nat,
            );
            assert(mid.items.push(more.last()) =~= self.items + more);
            assert(self.extend(more).items.len() <= self.extend(more).rows * self.cols) by {
                let len = (self.items.len() + more.len()) as int;
                let cols = self.cols as int;
                let needed = (len + cols - 1) / cols;
                lemma_fundamental_div_mod(len + cols - 1, cols);
                lemma_mod_pos_bound(len + cols - 1, cols);
                assert(cols * needed >= len);
                assert(self.extend(more).rows >= needed);
                assert(self.extend(more).rows * cols >= needed * cols) by (nonlinear_arith)
                    requires
                        self.extend(more).rows >= needed,
                        cols > 0,
                ;
                assert(needed * cols == cols * needed) by (nonlinear_arith);
            }
        }
    }
}

/// Where a flat index falls in the rows: its row and its column.
proof fn lemma_cell(j: int, rows: int, cols: int)
    requires
        0 <= j < rows * cols,
        0 < cols,
    ensures
        0 <= j / cols < rows,
        0 <= j % cols < cols,
        (j / cols) * cols + j % cols == j,
{
    lemma_fundamental_div_mod(j, cols);
    lemma_mod_pos_bound(j, cols);
    lemma_mul_is_commutative(cols, rows);
    lemma_mul_is_commutative(cols, j / cols);
    lemma_multiply_divide_lt(j, cols, rows);
    assert(0 <= j / cols) by (nonlinear_arith)
        requires
            0 <= j,
            0 < cols,
    ;
}

/// The flat index of a row and a column, and back.
proof fn lemma_flat(r: int, c: int, rows: int, cols: int)
    requires
        0 <= r < rows,
        0 <= c < cols,
    ensures
        0 <= r * cols + c < rows * cols,
        (r * cols + c) / cols == r,
        (r * cols + c) % cols == c,
{
    lemma_fundamental_div_mod_converse(r * cols + c, cols, r, c);
    assert(0 <= r * cols + c < rows * cols) by (nonlinear_arith)
        requires
            0 <= r < rows,
            0 <= c < cols,
    ;
}

/// The row in which the slot with flat index `j` lies.
spec fn row_of(j: int, cols: int) -> int {
    j / cols
}

/// The column in which the slot with flat index `j` lies.
spec fn col_of(j: int, cols: int) -> int {
    j % cols
}

/// The flat index of the slot in row `r` and column `c`.
spec fn flat_of(r: int, c: int, cols: int) -> int {
    r * cols + c
}

/// Moving on by one row: the column stays, the row is the next one.
proof fn lemma_next_row(j: int, cols: int)
    requires
        0 <= j,
        0 < cols,
    ensures
        (j + cols) / cols == j / cols + 1,
        (j + cols) % cols == j % cols,
        0 <= j / cols,
{
    lemma_fundamental_div_mod(j, cols);
    lemma_mod_pos_bound(j, cols);
    lemma_div_pos_is_pos(j, cols);
    assert((j / cols + 1) * cols + j % cols == j + cols) by (nonlinear_arith)
        requires
            j == cols * (j / cols) + j % cols,
    ;
    lemma_fundamental_div_mod_converse(j + cols, cols, j / cols + 1, j % cols);
}

/// Hands out the first `n` slots of a row for writing, in their order.
fn row_mut<'a>(cells: &'a mut [Data], n: usize, out: &mut Vec<&'a mut Data>)
    requires
        n <= old(cells)@.len(),
    ensures
        final(out)@.len() == old(out)@.len() + n,
        forall|k: int| 0 <= k < old(out)@.len() ==> final(out)@[k] == old(out)@[k],
        forall|k: int|
            old(out)@.len() <= k < final(out)@.len() ==> *(#[trigger] final(out)@[k]) == old(
                cells,
            )@[k - old(out)@.len()],
        final(cells)@.len() == old(cells)@.len(),
        forall|k: int|
            #![trigger final(out)@[k]]
            old(out)@.len() <= k < final(out)@.len() ==> final(cells)@[k - old(out)@.len()]
                == *final(final(out)@[k]),
        forall|c: int| n <= c < old(cells)@.len() ==> #[trigger] final(cells)@[c] == old(cells)@[c],
    decreases n,
{
    let ghost base = out@.len() as int;
    let ghost before = cells@;
    if n > 0 {
        let (head, tail) = cells.split_at_mut(1);
        let ghost rest = tail@;
        match head.first_mut() {
            Some(cell) => {
                out.push(cell);
            },
            None => {},
        }
        let ghost mid = out@;
        row_mut(tail, n - 1, out);
        proof {
            assert(out@[base] == mid[base]);
            assert forall|k: int| base <= k < out@.len() implies *(#[trigger] out@[k]) == before[k
                - base] by {
                if k > base {
                    assert(rest[k - base - 1] == before[k - base]);
                }
            }
        }
    }
}

/// Moving on by `rows` rows: the column stays, the row is `rows` further.
proof fn lemma_skip_rows(j: int, rows: int, cols: int)
    requires
        0 <= j,
        0 <= rows,
        0 < cols,
    ensures
        (j + rows * cols) / cols == j / cols + rows,
        (j + rows * cols) % cols == j % cols,
        0 <= j / cols,
    decreases rows,
{
    if rows == 0 {
        assert(0 * cols == 0) by (nonlinear_arith);
        lemma_div_pos_is_pos(j, cols);
    } else {
        lemma_skip_rows(j, rows - 1, cols);
        assert(rows * cols == (rows - 1) * cols + cols) by (nonlinear_arith);
        assert(0 <= (rows - 1) * cols) by (nonlinear_arith)
            requires
                0 <= rows - 1,
                0 < cols,
        ;
        lemma_next_row(j + (rows - 1) * cols, cols);
    }
}

/// In a single row the flat index is the column.
proof fn lemma_one_row(limit: int, cols: int)
    requires
        0 <= limit <= cols,
        0 < cols,
    ensures
        forall|x: int| 0 <= x < limit ==> #[trigger] row_of(x, cols) == 0 && col_of(x, cols) == x,
        forall|c: int| #[trigger] flat_of(0, c, cols) == c,
{
    assert forall|x: int| 0 <= x < limit implies #[trigger] row_of(x, cols) == 0 && col_of(
        x,
        cols,
    ) == x by {
        lemma_fundamental_div_mod_converse(x, cols, 0, x);
    }
    assert forall|c: int| #[trigger] flat_of(0, c, cols) == c by {
        assert(0 * cols + c == c) by (nonlinear_arith);
    }
}

/// Whether `limit` slots fill the first `mid` rows: the quotient tells.
proof fn lemma_fills(limit: int, mid: int, cols: int)
    requires
        0 <= limit,
        0 <= mid,
        0 < cols,
    ensures
        limit / cols >= mid ==> mid * cols <= limit,
        limit / cols < mid ==> limit < mid * cols,
        0 <= mid * cols,
{
    lemma_fundamental_div_mod(limit, cols);
    lemma_mod_pos_bound(limit, cols);
    let q = limit / cols;
    assert(cols * q == q * cols) by (nonlinear_arith);
    if q >= mid {
        assert(mid * cols <= q * cols) by (nonlinear_arith)
            requires
                mid <= q,
                0 < cols,
        ;
    } else {
        assert((q + 1) * cols <= mid * cols) by (nonlinear_arith)
            requires
                q + 1 <= mid,
                0 < cols,
        ;
        assert((q + 1) * cols == q * cols + cols) by (nonlinear_arith);
    }
    assert(0 <= mid * cols) by (nonlinear_arith)
        requires
            0 <= mid,
            0 < cols,
    ;
}

/// Where the first `limit` flat indices of `total` rows fall when the rows are
/// split behind row `mid`: below `first` in the lower rows, from `first` on in
/// the upper rows, `mid` rows further down and in the same column.
proof fn lemma_split_rows(limit: int, first: int, mid: int, total: int, cols: int)
    requires
        0 < cols,
        0 <= mid <= total,
        0 <= limit <= total * cols,
        0 <= first <= limit,
        first <= mid * cols,
        first < limit ==> first == mid * cols,
    ensures
        forall|x: int|
            0 <= x < limit ==> {
                &&& x < first ==> 0 <= #[trigger] row_of(x, cols) < mid
                &&& x >= first ==> {
                    &&& first == mid * cols
                    &&& row_of(x - first, cols) + mid == row_of(x, cols)
                    &&& col_of(x - first, cols) == col_of(x, cols)
                    &&& 0 <= row_of(x - first, cols) < total - mid
                    &&& 0 <= col_of(x, cols) < cols
                }
            },
{
    assert((total - mid) * cols == total * cols - mid * cols) by (nonlinear_arith);
    assert forall|x: int| 0 <= x < limit implies {
        &&& x < first ==> 0 <= #[trigger] row_of(x, cols) < mid
        &&& x >= first ==> {
            &&& first == mid * cols
            &&& row_of(x - first, cols) + mid == row_of(x, cols)
            &&& col_of(x - first, cols) == col_of(x, cols)
            &&& 0 <= row_of(x - first, cols) < total - mid
            &&& 0 <= col_of(x, cols) < cols
        }
    } by {
        if x < first {
            lemma_cell(x, mid, cols);
        } else {
            lemma_skip_rows(x - first, mid, cols);
            lemma_cell(x - first, total - mid, cols);
        }
    }
}

/// The flat index of a slot `mid` rows further down is `mid` rows' worth of
/// slots higher, and no flat index of a row and a column is negative.
proof fn lemma_flat_rows(mid: int, cols: int)
    requires
        0 < cols,
    ensures
        forall|r: int, c: int| #[trigger]
            flat_of(r, c, cols) == flat_of(r - mid, c, cols) + mid * cols,
        forall|r: int, c: int| 0 <= r && 0 <= c ==> 0 <= #[trigger] flat_of(r, c, cols),
{
    assert forall|r: int, c: int| #[trigger]
        flat_of(r, c, cols) == flat_of(r - mid, c, cols) + mid * cols by {
        assert(r * cols + c == (r - mid) * cols + c + mid * cols) by (nonlinear_arith);
    }
    assert forall|r: int, c: int| 0 <= r && 0 <= c implies 0 <= #[trigger] flat_of(r, c, cols) by {
        assert(0 <= r * cols + c) by (nonlinear_arith)
            requires
                0 <= r,
                0 <= c,
                0 < cols,
        ;
    }
}

/// Hands out the first `remaining` slots of the one row for writing.
fn last_row_mut<'a>(
    rows: &'a mut [Vec<Data>],
    cols: usize,
    remaining: usize,
    out: &mut Vec<&'a mut Data>,
)
    requires
        cols > 0,
        old(rows)@.len() == 1,
        old(rows)@[0]@.len() == cols,
        remaining <= cols,
    ensures
        final(out)@.len() == old(out)@.len() + remaining,
        forall|k: int| 0 <= k < old(out)@.len() ==> final(out)@[k] == old(out)@[k],
        forall|k: int|
            old(out)@.len() <= k < final(out)@.len() ==> *(#[trigger] final(out)@[k]) == old(
                rows,
            )@[row_of(k - old(out)@.len(), cols as int)]@[col_of(
                k - old(out)@.len(),
                cols as int,
            )],
        final(rows)@.len() == 1,
        final(rows)@[0]@.len() == cols,
        forall|k: int|
            #![trigger final(out)@[k]]
            old(out)@.len() <= k < final(out)@.len() ==> final(rows)@[row_of(
                k - old(out)@.len(),
                cols as int,
            )]@[col_of(k - old(out)@.len(), cols as int)] == *final(final(out)@[k]),
        forall|r: int, c: int|
            #![trigger final(rows)@[r]@[c]]
            0 <= r < 1 && 0 <= c < cols && flat_of(r, c, cols as int) >= remaining
                ==> final(rows)@[r]@[c] == old(rows)@[r]@[c],
{
    proof {
        lemma_one_row(remaining as int, cols as int);
    }
    match rows.first_mut() {
        Some(row) => {
            row_mut(row.as_mut_slice(), remaining, out);
        },
        None => {},
    }
}

/// Hands out the first `remaining` slots of the rows for writing, row by row.
/// The rows are halved until one is left, so that the depth of the calls grows
/// with the logarithm of their number.
#[verifier::spinoff_prover]
#[verifier::rlimit(40)]
fn rows_mut<'a>(
    rows: &'a mut [Vec<Data>],
    cols: usize,
    remaining: usize,
    out: &mut Vec<&'a mut Data>,
)
    requires
        cols > 0,
        forall|r: int| 0 <= r < old(rows)@.len() ==> (#[trigger] old(rows)@[r])@.len() == cols,
        remaining <= old(rows)@.len() * cols,
    ensures
        final(out)@.len() == old(out)@.len() + remaining,
        forall|k: int| 0 <= k < old(out)@.len() ==> final(out)@[k] == old(out)@[k],
        forall|k: int|
            old(out)@.len() <= k < final(out)@.len() ==> *(#[trigger] final(out)@[k]) == old(
                rows,
            )@[row_of(k - old(out)@.len(), cols as int)]@[col_of(
                k - old(out)@.len(),
                cols as int,
            )],
        final(rows)@.len() == old(rows)@.len(),
        forall|r: int| 0 <= r < old(rows)@.len() ==> (#[trigger] final(rows)@[r])@.len() == cols,
        forall|k: int|
            #![trigger final(out)@[k]]
            old(out)@.len() <= k < final(out)@.len() ==> final(rows)@[row_of(
                k - old(out)@.len(),
                cols as int,
            )]@[col_of(k - old(out)@.len(), cols as int)] == *final(final(out)@[k]),
        forall|r: int, c: int|
            #![trigger final(rows)@[r]@[c]]
            0 <= r < old(rows)@.len() && 0 <= c < cols && flat_of(r, c, cols as int) >= remaining
                ==> final(rows)@[r]@[c] == old(rows)@[r]@[c],
    decreases old(rows)@.len(),
{
    let ghost base = out@.len() as int;
    let ghost before = rows@;
    let ghost width = cols as int;
    let count: usize = rows.len();
    if remaining == 0 {
        return ;
    }
    proof {
        if count == 0 {
            assert(before.len() * cols == 0) by (nonlinear_arith)
                requires
                    before.len() == 0,
            ;
        }
    }
    if count == 1 {
        proof {
            assert(before.len() * cols == cols) by (nonlinear_arith)
                requires
                    before.len() == 1,
            ;
        }
        last_row_mut(rows, cols, remaining, out);
    } else {
        let mid: usize = count / 2;
        let whole: bool = remaining / cols >= mid;
        proof {
            lemma_fills(remaining as int, mid as int, width);
        }
        let first: usize = if whole {
            mid * cols
        } else {
            remaining
        };
        proof {
            lemma_split_rows(remaining as int, first as int, mid as int, before.len() as int, width);
            lemma_flat_rows(mid as int, width);
            assert((before.len() - mid) * width == before.len() * width - mid * width)
                by (nonlinear_arith);
        }
        let (left, right) = rows.split_at_mut(mid);
        let ghost lower = left@;
        let ghost upper = right@;
        proof {
            assert forall|r: int| 0 <= r < lower.len() implies (#[trigger] lower[r])@.len()
                == cols by {
                assert(lower[r] == before[r]);
            }
            assert forall|r: int| 0 <= r < upper.len() implies (#[trigger] upper[r])@.len()
                == cols by {
                assert(upper[r] == before[r + mid]);
            }
        }
        rows_mut(left, cols, first, out);
        let ghost half = out@;
        rows_mut(right, cols, remaining - first, out);
        proof {
            assert forall|k: int| base <= k < out@.len() implies *(#[trigger] out@[k])
                == before[row_of(k - base, width)]@[col_of(k - base, width)] by {
                let x = k - base;
                assert(row_of(x, width) >= 0);
                if x < first {
                    assert(out@[k] == half[k]);
                    assert(lower[row_of(x, width)] == before[row_of(x, width)]);
                } else {
                    assert(upper[row_of(x - first, width)] == before[row_of(x - first, width)
                        + mid]);
                }
            }
        }
    }
}

/// The storage of one paged sequence: the row table, the rows it points to, and
/// the counters that every handle on the sequence shares.
pub(crate) struct Paged {
    /// The row table: one entry for every allocated row.
    rows: Vec<Vec<Data>>,
    /// How many elements the sequence holds.
    len: usize,
    /// How many slots a row has.
    cols: usize,
    /// The reference count.
    refc: i64,
    /// Whether the storage exists.
    live: bool,
}

impl Paged {
    /// How many slots the allocated rows hold.
    pub closed spec fn capacity(&self) -> int {
        self.rows.len() * self.cols
    }

    /// Every row has exactly `cols` slots.
    pub closed spec fn shaped(&self) -> bool {
        &&& self.cols > 0
        &&& forall|r: int| 0 <= r < self.rows.len() ==> (#[trigger] self.rows[r]).len() == self.cols
    }

    /// The slots of all rows, one row after the other.
    pub closed spec fn flat(&self) -> Seq<Data> {
        Seq::new(
            self.capacity() as nat,
            |j: int| self.rows[j / (self.cols as int)][j % (self.cols as int)],
        )
    }

    /// The representation invariant: the rows are well shaped, the elements fit
    /// in them, the slots behind the last element hold null, and released
    /// storage holds nothing.
    pub closed spec fn wf(&self) -> bool {
        &&& self.shaped()
        &&& self.refc >= 0
        &&& self.len <= self.capacity()
        &&& forall|j: int| self.len <= j < self.capacity() ==> (#[trigger] self.flat()[j]) == Data::nil()
        &&& !self.live ==> self.len == 0 && self.rows.len() == 0 && self.refc == 0
    }

    /// The view: the elements in index order, the row table's length, the
    /// width of a row, the counter, and whether the storage exists.
    pub closed spec fn view(&self) -> ListView {
        ListView {
            items: self.flat().take(self.len as int),
            rows: self.rows.len() as nat,
            cols: self.cols as nat,
            refc: self.refc as int,
            live: self.live,
        }
    }

    /// A well-formed storage has a valid view.
    pub proof fn lemma_valid(&self)
        requires
            self.wf(),
        ensures
            self@.valid(),
    {
        if !self.live {
            assert(self@.items =~= Seq::<Data>::empty());
        }
    }

    /// Storage for an empty sequence with rows of `cols` slots.
    pub(crate) fn with_cols(cols: usize) -> (p: Paged)
        requires
            cols > 0,
        ensures
            p.wf(),
            p@ == (ListView { cols: cols as nat, ..ListView::fresh() }),
    {
        let p = Paged { rows: Vec::new(), len: 0, cols, refc: 1, live: true };
        assert(p.capacity() == 0) by (nonlinear_arith)
            requires
                p.capacity() == 0 * p.cols,
        ;
        assert(p@.items =~= Seq::<Data>::empty());
        p
    }

    /// The slot with flat index `j`.
    fn slot(&self, j: usize) -> (d: &Data)
        requires
            self.shaped(),
            j < self.capacity(),
        ensures
            *d == self.flat()[j as int],
    {
        proof {
            lemma_cell(j as int, self.rows.len() as int, self.cols as int);
        }
        let r: usize = j / self.cols;
        let c: usize = j % self.cols;
        &self.rows[r][c]
    }

    /// Writes `value` to the slot with flat index `j`.
    fn put(&mut self, j: usize, value: Data)
        requires
            old(self).shaped(),
            j < old(self).capacity(),
        ensures
            final(self).shaped(),
            final(self).capacity() == old(self).capacity(),
            final(self).flat() == old(self).flat().update(j as int, value),
            final(self).len == old(self).len,
            final(self).cols == old(self).cols,
            final(self).refc == old(self).refc,
            final(self).live == old(self).live,
            final(self).rows.len() == old(self).rows.len(),
    {
        proof {
            lemma_cell(j as int, self.rows.len() as int, self.cols as int);
        }
        let r: usize = j / self.cols;
        let c: usize = j % self.cols;
        self.rows[r][c] = value;
        proof {
            let cols = self.cols as int;
            let rows = self.rows.len() as int;
            assert forall|k: int| 0 <= k < self.capacity() implies self.flat()[k] == old(
                self,
            ).flat().update(j as int, value)[k] by {
                lemma_cell(k, rows, cols);
                if k != j {
                    assert(k / cols != r || k % cols != c);
                }
            }
            assert(self.flat() =~= old(self).flat().update(j as int, value));
        }
    }

    /// Makes room for one more element: when every slot is in use, the row
    /// table grows by one entry and a row of fresh slots is allocated.
    fn reserve(&mut self)
        requires
            old(self).wf(),
            old(self).live,
            old(self).len < usize::MAX,
        ensures
            final(self).wf(),
            final(self).len < final(self).capacity(),
            final(self)@ == (ListView { rows: old(self)@.grown(), ..old(self)@ }),
            final(self).flat().take(old(self).len as int) == old(self).flat().take(
                old(self).len as int,
            ),
            final(self).len == old(self).len,
    {
        let ghost cols = self.cols as int;
        let ghost rows = self.rows.len() as int;
        let n: usize = self.rows.len();
        if self.len / self.cols >= n {
            proof {
                if (self.len as int) < rows * cols {
                    lemma_cell(self.len as int, rows, cols);
                }
                assert(self@.full());
                assert((rows + 1) * cols == rows * cols + cols) by (nonlinear_arith);
            }
            reallocate(&mut self.rows, n + 1);
            let row = allocate(self.cols);
            self.rows[n] = row;
            proof {
                assert(self.shaped());
                assert forall|k: int| 0 <= k < self.capacity() implies self.flat()[k] == (if k
                    < rows * cols {
                    old(self).flat()[k]
                } else {
                    Data::nil()
                }) by {
                    lemma_cell(k, rows + 1, cols);
                    if k < rows * cols {
                        lemma_cell(k, rows, cols);
                    } else {
                        if k / cols < rows {
                            lemma_flat(k / cols, k % cols, rows, cols);
                        }
                        assert(k / cols == rows);
                    }
                }
                assert(self.flat().take(self.len as int) =~= old(self).flat().take(
                    self.len as int,
                ));
            }
        } else {
            proof {
                if self.len as int >= rows * cols {
                    assert(self.len as int == rows * cols);
                    lemma_fundamental_div_mod_converse(self.len as int, cols, rows, 0);
                }
                assert(!self@.full());
            }
        }
    }

    /// How many elements the sequence holds.
    pub fn len(&self) -> (n: usize)
        requires
            self.wf(),
        ensures
            n == self@.items.len(),
    {
        self.len
    }

    /// Writes `value` behind the last element, in a new row when the allocated
    /// ones are full.
    pub fn append(&mut self, value: Data)
        requires
            old(self).wf(),
            old(self)@.live,
            old(self)@.items.len() < usize::MAX,
        ensures
            final(self).wf(),
            final(self)@ == old(self)@.append(value),
    {
        self.reserve();
        let at: usize = self.len;
        self.put(at, value);
        self.len = at + 1;
        proof {
            assert(self@.items =~= old(self)@.items.push(value));
        }
    }

    /// Writes the values of `more` behind the last element, in their order.
    pub fn append_all(&mut self, more: Vec<Data>)
        requires
            old(self).wf(),
            old(self)@.live,
            old(self)@.items.len() + more@.len() <= usize::MAX,
        ensures
            final(self).wf(),
            final(self)@ == old(self)@.extend(more@),
    {
        let ghost all = more@;
        let ghost start = self@;
        proof {
            self.lemma_valid();
            start.lemma_rows_step();
            assert(all.take(0) =~= Seq::<Data>::empty());
            assert(start.items + all.take(0) =~= start.items);
        }
        for item in it: more.into_iter()
            invariant
                it.seq() == all,
                start == old(self)@,
                start.valid(),
                start.live,
                start.items.len() + all.len() <= usize::MAX,
                self.wf(),
                self@ == start.extend(all.take(it.index() as int)),
        {
            let ghost n = it.index() as int;
            proof {
                self.lemma_valid();
                self@.lemma_rows_step();
                start.lemma_rows_mono((start.items.len() + n) as nat, (start.items.len() + n + 1) as nat);
                assert(all.take(n + 1) =~= all.take(n).push(item));
                assert(start.items + all.take(n + 1) =~= (start.items + all.take(n)).push(item));
            }
            self.append(item);
        }
        proof {
            assert(all.take(all.len() as int) =~= all);
        }
    }

    /// Puts the values of `more` at `index`, in their order: the first at
    /// `index`, each further one behind the one before it.
    pub fn insert_all(&mut self, index: usize, more: Vec<Data>)
        requires
            old(self).wf(),
            old(self)@.live,
            index <= old(self)@.items.len(),
            old(self)@.items.len() + more@.len() <= usize::MAX,
        ensures
            final(self).wf(),
            final(self)@ == old(self)@.insert_all(index as int, more@),
    {
        let ghost all = more@;
        let ghost start = self@;
        let ghost head = start.items.take(index as int);
        let ghost tail = start.items.skip(index as int);
        let mut at: usize = index;
        proof {
            self.lemma_valid();
            start.lemma_rows_step();
            assert(head + all.take(0) + tail =~= start.items);
        }
        for item in it: more.into_iter()
            invariant
                it.seq() == all,
                start == old(self)@,
                start.valid(),
                start.live,
                index <= start.items.len(),
                start.items.len() + all.len() <= usize::MAX,
                head == start.items.take(index as int),
                tail == start.items.skip(index as int),
                at == index + it.index(),
                self.wf(),
                self@ == start.insert_all(index as int, all.take(it.index() as int)),
        {
            let ghost n = it.index() as int;
            proof {
                self.lemma_valid();
                self@.lemma_rows_step();
                start.lemma_rows_mono(
                    (start.items.len() + n) as nat,
                    (start.items.len() + n + 1) as nat,
                );
                assert(all.take(n + 1) =~= all.take(n).push(item));
                assert((head + all.take(n) + tail).insert(index + n, item) =~= head + all.take(
                    n + 1,
                ) + tail);
            }
            self.insert(at, item);
            at = at + 1;
        }
        proof {
            assert(all.take(all.len() as int) =~= all);
        }
    }

    /// The element at `index`, which lies below the length.
    pub(crate) fn item(&self, index: usize) -> (d: &Data)
        requires
            self.wf(),
            index < self@.items.len(),
        ensures
            *d == self@.items[index as int],
    {
        self.slot(index)
    }

    /// The element at `index`, or nothing from `len` on.
    pub fn get(&self, index: usize) -> (found: Option<&Data>)
        requires
            self.wf(),
        ensures
            match found {
                Some(d) => self@.get(index as int) == Some(*d),
                None => self@.get(index as int) is None,
            },
    {
        if index >= self.len {
            return None;
        }
        Some(self.slot(index))
    }

    /// Puts `value` at `index`: every element from `index` on moves one slot to
    /// the right, the last one first, and keeps the storage it refers to.
    pub fn insert(&mut self, index: usize, value: Data)
        requires
            old(self).wf(),
            old(self)@.live,
            index <= old(self)@.items.len(),
            old(self)@.items.len() < usize::MAX,
        ensures
            final(self).wf(),
            final(self)@ == old(self)@.insert(index as int, value),
    {
        self.reserve();
        let ghost before = self.flat();
        let n: usize = self.len;
        let mut i: usize = n;
        assert(forall|k: int| n <= k < before.len() ==> before[k] == Data::nil());
        while i > index
            invariant
                self.shaped(),
                self.refc >= 0,
                self.live,
                index <= i <= n,
                n == self.len,
                n < self.capacity(),
                self.capacity() == before.len(),
                self.flat().len() == before.len(),
                self.cols == old(self).cols,
                self.refc == old(self).refc,
                self@.rows == old(self)@.grown(),
                forall|k: int| 0 <= k <= i ==> self.flat()[k] == before[k],
                forall|k: int| i < k <= n ==> self.flat()[k] == before[k - 1],
                forall|k: int| n < k < before.len() ==> self.flat()[k] == before[k],
            decreases i,
        {
            let moved = self.slot(i - 1).dup();
            self.put(i, moved);
            i = i - 1;
        }
        self.put(index, value);
        self.len = n + 1;
        proof {
            assert forall|j: int| self.len <= j < self.capacity() implies self.flat()[j]
                == Data::nil() by {
                assert(before[j] == Data::nil());
            }
            assert(before.take(n as int) == old(self).flat().take(n as int));
            assert(self@.items =~= old(self)@.items.insert(index as int, value)) by {
                assert forall|k: int| 0 <= k < n + 1 implies self.flat().take(n + 1)[k] == old(
                    self,
                )@.items.insert(index as int, value)[k] by {
                    if k < index {
                        assert(before.take(n as int)[k] == before[k]);
                    } else if k > index {
                        assert(before.take(n as int)[k - 1] == before[k - 1]);
                    }
                }
            }
        }
    }

    /// Takes the element at `index` out: every later element moves one slot to
    /// the left and keeps the storage it refers to, and the slot that the last
    /// one leaves is cleared.
    pub fn remove(&mut self, index: usize) -> (removed: Data)
        requires
            old(self).wf(),
            index < old(self)@.items.len(),
        ensures
            final(self).wf(),
            removed == old(self)@.items[index as int],
            final(self)@ == old(self)@.remove(index as int),
    {
        let ghost before = self.flat();
        let removed = self.slot(index).dup();
        let n: usize = self.len;
        let mut i: usize = index;
        assert(forall|k: int| n <= k < before.len() ==> before[k] == Data::nil());
        while i < n - 1
            invariant
                self.shaped(),
                self.refc >= 0,
                self.live == old(self).live,
                self.live,
                index <= i <= n - 1,
                n == self.len,
                n <= self.capacity(),
                self.capacity() == before.len(),
                self.flat().len() == before.len(),
                self.cols == old(self).cols,
                self.refc == old(self).refc,
                self.rows.len() == old(self).rows.len(),
                forall|k: int| 0 <= k < index ==> self.flat()[k] == before[k],
                forall|k: int| index <= k < i ==> self.flat()[k] == before[k + 1],
                forall|k: int| i <= k < before.len() ==> self.flat()[k] == before[k],
            decreases n - i,
        {
            let moved = self.slot(i + 1).dup();
            self.put(i, moved);
            i = i + 1;
        }
        self.put(n - 1, Data::null());
        self.len = n - 1;
        proof {
            assert forall|j: int| self.len <= j < self.capacity() implies self.flat()[j]
                == Data::nil() by {
                if j >= n {
                    assert(before[j] == Data::nil());
                }
            }
            assert(self@.items =~= old(self)@.items.remove(index as int));
        }
        removed
    }

    /// Moves the element at `index` out and leaves null in its slot; nothing
    /// from `len` on.
    pub fn take(&mut self, index: usize) -> (taken: Option<Data>)
        requires
            old(self).wf(),
        ensures
            final(self).wf(),
            taken == old(self)@.get(index as int),
            final(self)@ == (if index < old(self)@.items.len() {
                old(self)@.set(index as int, Data::nil())
            } else {
                old(self)@
            }),
    {
        if index >= self.len {
            return None;
        }
        let taken = self.slot(index).dup();
        self.put(index, Data::null());
        proof {
            assert(self@.items =~= old(self)@.items.update(index as int, Data::nil()));
        }
        Some(taken)
    }

    /// Whether storage `after` is this storage with slot `j` overwritten and
    /// nothing else changed.
    pub closed spec fn rewritten(&self, after: &Paged, j: int) -> bool {
        let r = j / (self.cols as int);
        let c = j % (self.cols as int);
        &&& after.len == self.len
        &&& after.cols == self.cols
        &&& after.refc == self.refc
        &&& after.live == self.live
        &&& after.rows@.len() == self.rows@.len()
        &&& forall|q: int| 0 <= q < self.rows@.len() && q != r ==> after.rows@[q] == self.rows@[q]
        &&& after.rows@[r]@ == self.rows@[r]@.update(c, after.rows@[r]@[c])
    }

    /// Overwriting an element keeps the storage well formed, whatever is
    /// written.
    proof fn lemma_rewritten(&self, after: &Paged, j: int)
        requires
            self.wf(),
            0 <= j < self.len,
            self.rewritten(after, j),
        ensures
            after.wf(),
            after.flat() == self.flat().update(j, after.flat()[j]),
            after@ == self@.set(j, after@.items[j]),
    {
        let cols = self.cols as int;
        let rows = self.rows.len() as int;
        lemma_cell(j, rows, cols);
        assert(after.shaped()) by {
            assert forall|q: int| 0 <= q < after.rows.len() implies (#[trigger] after.rows[q]).len()
                == after.cols by {
                assert(self.rows[q].len() == self.cols);
            }
        }
        assert forall|k: int| 0 <= k < self.capacity() implies after.flat()[k] == self.flat().update(
            j,
            after.flat()[j],
        )[k] by {
            lemma_cell(k, rows, cols);
            if k != j {
                assert(k / cols != j / cols || k % cols != j % cols);
            }
        }
        assert(after.flat() =~= self.flat().update(j, after.flat()[j]));
        assert forall|k: int| after.len <= k < after.capacity() implies after.flat()[k]
            == Data::nil() by {
            assert(self.flat()[k] == Data::nil());
        }
        assert(after@.items =~= self@.items.update(j, after@.items[j]));
    }

    /// The slot with flat index `j`, for writing.
    fn slot_mut(&mut self, j: usize) -> (d: &mut Data)
        requires
            old(self).shaped(),
            j < old(self).capacity(),
        ensures
            *d == old(self).flat()[j as int],
            old(self).rewritten(final(self), j as int),
            *final(d) == final(self).rows[j as int / (old(self).cols as int)][j as int % (old(
                self,
            ).cols as int)],
    {
        proof {
            lemma_cell(j as int, self.rows.len() as int, self.cols as int);
        }
        let r: usize = j / self.cols;
        let c: usize = j % self.cols;
        &mut self.rows[r][c]
    }

    /// The element at `index` for writing, or nothing from `len` on. What the
    /// caller writes through the reference is the element afterwards.
    pub fn get_mut(&mut self, index: usize) -> (found: Option<&mut Data>)
        requires
            old(self).wf(),
        ensures
            final(self).wf(),
            match found {
                Some(d) => {
                    &&& old(self)@.get(index as int) == Some(*d)
                    &&& final(self)@ == old(self)@.set(index as int, *final(d))
                },
                None => {
                    &&& old(self)@.get(index as int) is None
                    &&& final(self)@ == old(self)@
                },
            },
    {
        if index >= self.len {
            return None;
        }
        proof {
            lemma_cell(index as int, self.rows.len() as int, self.cols as int);
            assert forall|after: Paged| #[trigger] self.rewritten(&after, index as int) implies {
                &&& after.wf()
                &&& after@ == self@.set(index as int, after@.items[index as int])
                &&& after@.items[index as int] == after.rows[index as int / (self.cols as int)][index as int % (self.cols as int)]
            } by {
                self.lemma_rewritten(&after, index as int);
            }
        }
        Some(self.slot_mut(index))
    }

    /// Replaces the element at `index` and hands back the one that was there.
    pub fn set(&mut self, index: usize, value: Data) -> (displaced: Data)
        requires
            old(self).wf(),
            index < old(self)@.items.len(),
        ensures
            final(self).wf(),
            displaced == old(self)@.items[index as int],
            final(self)@ == old(self)@.set(index as int, value),
    {
        let displaced = self.slot(index).dup();
        self.put(index, value);
        proof {
            assert(self@.items =~= old(self)@.items.update(index as int, value));
        }
        displaced
    }

    /// References to all elements, in index order.
    pub fn as_vec(&self) -> (all: Vec<&Data>)
        requires
            self.wf(),
        ensures
            all@.len() == self@.items.len(),
            forall|i: int| 0 <= i < all@.len() ==> *all@[i] == self@.items[i],
    {
        let mut all: Vec<&Data> = Vec::new();
        let mut i: usize = 0;
        while i < self.len
            invariant
                self.wf(),
                i <= self.len,
                all@.len() == i,
                forall|k: int| 0 <= k < i ==> *all@[k] == self@.items[k],
            decreases self.len - i,
        {
            all.push(self.slot(i));
            i = i + 1;
        }
        all
    }

    /// Whether storage `after` is this storage with elements overwritten and
    /// nothing else changed.
    pub closed spec fn reshaped(&self, after: &Paged) -> bool {
        &&& after.len == self.len
        &&& after.cols == self.cols
        &&& after.refc == self.refc
        &&& after.live == self.live
        &&& after.rows@.len() == self.rows@.len()
        &&& forall|r: int|
            0 <= r < self.rows@.len() ==> (#[trigger] after.rows@[r])@.len() == self.cols
        &&& forall|r: int, c: int|
            #![trigger after.rows@[r]@[c]]
            0 <= r < self.rows@.len() && 0 <= c < self.cols && flat_of(r, c, self.cols as int)
                >= self.len ==> after.rows@[r]@[c] == self.rows@[r]@[c]
    }

    /// Overwriting elements keeps the storage well formed, whatever is
    /// written.
    proof fn lemma_reshaped(&self, after: &Paged)
        requires
            self.wf(),
            self.reshaped(after),
        ensures
            after.wf(),
            after@ == (ListView { items: after@.items, ..self@ }),
            after@.items.len() == self@.items.len(),
            forall|k: int|
                0 <= k < self.len ==> #[trigger] after@.items[k] == after.rows@[row_of(
                    k,
                    self.cols as int,
                )]@[col_of(k, self.cols as int)],
    {
        let cols = self.cols as int;
        let rows = self.rows.len() as int;
        assert forall|j: int| after.len <= j < after.capacity() implies #[trigger] after.flat()[j]
            == Data::nil() by {
            lemma_cell(j, rows, cols);
            assert(flat_of(j / cols, j % cols, cols) == j);
            assert(after.rows@[j / cols]@[j % cols] == self.rows@[j / cols]@[j % cols]);
            assert(self.flat()[j] == Data::nil());
        }
    }

    /// References to the slots of all elements for writing, in index order.
    fn slots_mut(&mut self) -> (all: Vec<&mut Data>)
        requires
            old(self).shaped(),
            old(self).len <= old(self).capacity(),
        ensures
            all@.len() == old(self).len,
            forall|k: int|
                0 <= k < all@.len() ==> *(#[trigger] all@[k]) == old(self).rows@[row_of(
                    k,
                    old(self).cols as int,
                )]@[col_of(k, old(self).cols as int)],
            old(self).reshaped(final(self)),
            forall|k: int|
                #![trigger all@[k]]
                0 <= k < all@.len() ==> final(self).rows@[row_of(k, old(self).cols as int)]@[col_of(
                    k,
                    old(self).cols as int,
                )] == *final(all@[k]),
    {
        let mut all: Vec<&mut Data> = Vec::new();
        let cols: usize = self.cols;
        let len: usize = self.len;
        rows_mut(self.rows.as_mut_slice(), cols, len, &mut all);
        all
    }

    /// References to all elements for writing, in index order. What the
    /// caller writes through reference `k` is element `k` afterwards.
    pub fn as_vec_mut(&mut self) -> (all: Vec<&mut Data>)
        requires
            old(self).wf(),
        ensures
            all@.len() == old(self)@.items.len(),
            forall|k: int| 0 <= k < all@.len() ==> *(#[trigger] all@[k]) == old(self)@.items[k],
            final(self).wf(),
            final(self)@ == (ListView { items: final(self)@.items, ..old(self)@ }),
            final(self)@.items.len() == old(self)@.items.len(),
            forall|k: int|
                #![trigger all@[k]]
                0 <= k < all@.len() ==> final(self)@.items[k] == *final(all@[k]),
    {
        proof {
            assert forall|after: Paged| #[trigger] self.reshaped(&after) implies {
                &&& after.wf()
                &&& after@ == (ListView { items: after@.items, ..self@ })
                &&& after@.items.len() == self@.items.len()
                &&& forall|k: int|
                    0 <= k < self.len ==> #[trigger] after@.items[k] == after.rows@[row_of(
                        k,
                        self.cols as int,
                    )]@[col_of(k, self.cols as int)]
            } by {
                self.lemma_reshaped(&after);
            }
            assert forall|k: int| 0 <= k < self.len implies #[trigger] self@.items[k]
                == self.rows@[row_of(k, self.cols as int)]@[col_of(k, self.cols as int)] by {
                lemma_cell(k, self.rows.len() as int, self.cols as int);
            }
        }
        self.slots_mut()
    }

    /// The elements, in index order, as values of their own.
    pub(crate) fn snapshot(&self) -> (items: Vec<Data>)
        requires
            self.wf(),
        ensures
            items@ == self@.items,
    {
        let mut items: Vec<Data> = Vec::new();
        let mut i: usize = 0;
        while i < self.len
            invariant
                self.wf(),
                i <= self.len,
                items@ == self@.items.take(i as int),
            decreases self.len - i,
        {
            items.push(self.slot(i).dup());
            i = i + 1;
            proof {
                assert(items@ =~= self@.items.take(i as int));
            }
        }
        proof {
            assert(items@ =~= self@.items);
        }
        items
    }

    /// Counts one more reference.
    pub fn incrc(&mut self)
        requires
            old(self).wf(),
            old(self)@.live,
            old(self)@.refc < i64::MAX,
        ensures
            final(self).wf(),
            final(self)@ == old(self)@.retained(),
    {
        self.refc = self.refc + 1;
    }

    /// Counts one reference fewer. The count stops at zero; nothing is
    /// released by this.
    pub fn decrc(&mut self)
        requires
            old(self).wf(),
        ensures
            final(self).wf(),
            final(self)@ == old(self)@.lowered(),
    {
        if self.refc > 0 {
            self.refc = self.refc - 1;
        }
    }

    /// The reference count.
    pub fn getrc(&self) -> (n: i64)
        requires
            self.wf(),
        ensures
            n == self@.refc,
    {
        self.refc
    }

    /// How many rows have been allocated.
    pub fn rows(&self) -> (n: usize)
        ensures
            n == self@.rows,
    {
        self.rows.len()
    }

    /// Whether the storage still exists.
    pub fn is_live(&self) -> (b: bool)
        ensures
            b == self@.live,
    {
        self.live
    }

    /// Releases the storage: hands the elements out, gives every row and the
    /// row table back to the allocator, and leaves the sequence retired.
    pub fn retire(&mut self) -> (items: Vec<Data>)
        requires
            old(self).wf(),
        ensures
            final(self).wf(),
            items@ == old(self)@.items,
            final(self)@ == old(self)@.retired(),
    {
        let mut items: Vec<Data> = Vec::new();
        let mut i: usize = 0;
        while i < self.len
            invariant
                self.wf(),
                *self == *old(self),
                i <= self.len,
                items@ == self@.items.take(i as int),
            decreases self.len - i,
        {
            items.push(self.slot(i).dup());
            i = i + 1;
            proof {
                assert(items@ =~= self@.items.take(i as int));
            }
        }
        proof {
            assert(items@ =~= old(self)@.items);
        }
        while self.rows.len() > 0
            invariant
                self.shaped(),
                self.cols == old(self).cols,
            decreases self.rows.len(),
        {
            let row = self.rows.pop().unwrap();
            deallocate(row, self.cols);
        }
        self.len = 0;
        self.refc = 0;
        self.live = false;
        proof {
            assert(self.capacity() == 0) by (nonlinear_arith)
                requires
                    self.capacity() == 0 * self.cols,
            ;
            assert(self@.items =~= Seq::<Data>::empty());
        }
        items
    }
}

/// A handle on a paged sequence.
#[derive(Debug, PartialEq, Eq, Structural)]
pub struct List {
    id: usize,
}

impl List {
    /// The place of the sequence's storage in the heap.
    pub closed spec fn addr(&self) -> int {
        self.id as int
    }

    /// The place of the storage in the heap, as a number to index with.
    pub(crate) fn slot(&self) -> (id: usize)
        ensures
            id == self.addr(),
    {
        self.id
    }

    /// The handle on the place `id`.
    pub closed spec fn handle(id: int) -> List {
        List { id: id as usize }
    }

    /// The handle on a place names that place.
    pub proof fn lemma_handle(id: int)
        requires
            0 <= id <= usize::MAX,
        ensures
            List::handle(id).addr() == id,
    {
    }

    /// A place is a natural number that a machine word holds.
    pub proof fn lemma_addr(&self)
        ensures
            0 <= self.addr() <= usize::MAX,
    {
    }

    /// A handle on the storage at `id`.
    pub(crate) fn at(id: usize) -> (h: List)
        ensures
            h.addr() == id,
            h == List::handle(id as int),
    {
        List { id }
    }

    /// A second handle on the same place; no count changes.
    pub(crate) fn dup(&self) -> (l: List)
        ensures
            l == *self,
    {
        List { id: self.id }
    }

    /// Whether the storage that the handle names still exists.
    pub fn is_live(&self, heap: &Heap) -> (yes: bool)
        requires
            heap.wf(),
        ensures
            yes == heap@.list_live(self.addr()),
    {
        self.id < heap.lists_len() && heap.list(self.id).is_live()
    }

    /// Whether the sequence exists and everything that it reaches exists and
    /// lies at most `depth` containers deep, the sequence itself counted. A
    /// sequence that holds of this for some depth can be rendered and copied.
    pub fn within(&self, heap: &Heap, depth: usize) -> (yes: bool)
        requires
            heap.wf(),
        ensures
            yes == heap@.sound(self.as_data(), depth as nat),
            yes ==> heap@.finite(self.as_data()),
    {
        depth > 0 && self.id < heap.lists_len() && heap.list(self.id).is_live()
            && crate::render::walk_list(heap, self.id, depth - 1)
    }

    /// Makes a deep copy: a new sequence with a deep copy of every element,
    /// one reference counted, sharing nothing with this one.
    pub fn clone(&self, heap: &mut Heap) -> (copied: List)
        requires
            old(heap).wf(),
            old(heap)@.finite(self.as_data()),
        ensures
            final(heap).wf(),
            copied.addr() == old(heap)@.lists.len(),
            (final(heap)@, copied.as_data()) == old(heap)@.copy(
                self.as_data(),
                old(heap)@.depth(self.as_data()),
            ),
            old(heap)@.kept_by(final(heap)@),
            final(heap)@.finite(copied.as_data()),
            final(heap)@.text_of(copied.as_data()) == old(heap)@.text_of(self.as_data()),
            final(heap)@.apart(
                copied.as_data(),
                old(heap)@.lists.len() as int,
                old(heap)@.tables.len() as int,
                old(heap)@.depth(self.as_data()),
            ),
            final(heap)@.count(copied.as_data()) == 1,
    {
        let ghost depth = heap@.depth(self.as_data());
        proof {
            heap.lemma_valid();
        }
        let copied = List::at(crate::copying::copy_list(heap, self.id, Ghost(depth)));
        proof {
            heap.lemma_sized();
            old(heap)@.lemma_copy_alike(self.as_data(), depth);
            old(heap)@.lemma_text_of(self.as_data(), depth);
            heap@.lemma_text_of(copied.as_data(), depth);
        }
        copied
    }

    /// Creates an empty sequence: no element, no row, one reference.
    pub fn new(heap: &mut Heap) -> (list: List)
        requires
            old(heap).wf(),
        ensures
            final(heap).wf(),
            list.addr() == old(heap)@.lists.len(),
            final(heap)@ == old(heap)@.alloc_list(ListView::fresh()),
    {
        let id = heap.alloc_list(Paged::with_cols(DEFAULT_COLS));
        List { id }
    }

    /// Creates a sequence that holds the values of `vec` in their order, each
    /// appended in turn: it has one row for every `DEFAULT_COLS` values begun.
    pub fn from(heap: &mut Heap, vec: Vec<Data>) -> (list: List)
        requires
            old(heap).wf(),
        ensures
            final(heap).wf(),
            list.addr() == old(heap)@.lists.len(),
            final(heap)@ == old(heap)@.alloc_list(ListView::holding(vec@)),
    {
        let mut store = Paged::with_cols(DEFAULT_COLS);
        proof {
            assert(vec.len() <= usize::MAX);
            assert(Seq::<Data>::empty() + vec@ =~= vec@);
        }
        store.append_all(vec);
        let id = heap.alloc_list(store);
        List { id }
    }

    /// Appends `data` to the sequence. A new row is allocated exactly when
    /// every slot of the allocated rows is in use.
    pub fn append(&mut self, heap: &mut Heap, data: Data)
        requires
            old(heap).wf(),
            old(heap)@.list_live(old(self).addr()),
            old(heap)@.lists[old(self).addr()].items.len() < usize::MAX,
        ensures
            final(heap).wf(),
            *final(self) == *old(self),
            final(heap)@ == old(heap)@.list_append(old(self).addr(), data),
    {
        heap.list_mut(self.id).append(data);
    }

    /// The element at `index`, or nothing from `len` on.
    pub fn get<'a>(&self, heap: &'a Heap, index: usize) -> (found: Option<&'a Data>)
        requires
            heap.wf(),
            heap@.list_live(self.addr()),
        ensures
            match found {
                Some(d) => heap@.lists[self.addr()].get(index as int) == Some(*d),
                None => heap@.lists[self.addr()].get(index as int) is None,
            },
    {
        heap.list(self.id).get(index)
    }

    /// The element at `index` for writing, or nothing from `len` on. What the
    /// caller writes through the reference is the element afterwards; the
    /// element that it overwrites is not given up, as `set` does.
    pub fn get_mut<'a>(&mut self, heap: &'a mut Heap, index: usize) -> (found: Option<&'a mut Data>)
        requires
            old(heap).wf(),
            old(heap)@.list_live(old(self).addr()),
        ensures
            final(heap).wf(),
            *final(self) == *old(self),
            match found {
                Some(d) => {
                    &&& old(heap)@.lists[old(self).addr()].get(index as int) == Some(*d)
                    &&& final(heap)@ == old(heap)@.list_set(old(self).addr(), index as int, *final(d))
                },
                None => {
                    &&& old(heap)@.lists[old(self).addr()].get(index as int) is None
                    &&& final(heap)@ == old(heap)@
                },
            },
    {
        heap.list_mut(self.id).get_mut(index)
    }

    /// Moves the element at `index` out and leaves null in its slot; nothing
    /// from `len` on. No count changes: the reference moves to the caller.
    pub fn take(&self, heap: &mut Heap, index: usize) -> (taken: Option<Data>)
        requires
            old(heap).wf(),
            old(heap)@.list_live(self.addr()),
        ensures
            final(heap).wf(),
            taken == old(heap)@.lists[self.addr()].get(index as int),
            final(heap)@ == (if index < old(heap)@.lists[self.addr()].items.len() {
                old(heap)@.list_set(self.addr(), index as int, Data::nil())
            } else {
                old(heap)@
            }),
    {
        heap.list_mut(self.id).take(index)
    }

    /// How many elements the sequence holds.
    pub fn len(&self, heap: &Heap) -> (n: usize)
        requires
            heap.wf(),
            heap@.list_live(self.addr()),
        ensures
            n == heap@.lists[self.addr()].items.len(),
    {
        heap.list(self.id).len()
    }

    /// How many rows have been allocated for the sequence.
    pub fn rows(&self, heap: &Heap) -> (n: usize)
        requires
            heap.wf(),
            heap@.list_live(self.addr()),
        ensures
            n == heap@.lists[self.addr()].rows,
    {
        heap.list(self.id).rows()
    }

    /// References to all elements, in index order.
    pub fn as_vec<'a>(&self, heap: &'a Heap) -> (all: Vec<&'a Data>)
        requires
            heap.wf(),
            heap@.list_live(self.addr()),
        ensures
            all@.len() == heap@.lists[self.addr()].items.len(),
            forall|i: int| 0 <= i < all@.len() ==> *all@[i] == heap@.lists[self.addr()].items[i],
    {
        heap.list(self.id).as_vec()
    }

    /// References to all elements for writing, in index order. What the
    /// caller writes through reference `k` is element `k` afterwards; nothing
    /// else changes.
    pub fn as_vec_mut<'a>(&mut self, heap: &'a mut Heap) -> (all: Vec<&'a mut Data>)
        requires
            old(heap).wf(),
            old(heap)@.list_live(old(self).addr()),
        ensures
            final(heap).wf(),
            *final(self) == *old(self),
            all@.len() == old(heap)@.lists[old(self).addr()].items.len(),
            forall|k: int|
                0 <= k < all@.len() ==> *(#[trigger] all@[k]) == old(heap)@.lists[old(
                    self,
                ).addr()].items[k],
            final(heap)@ == old(heap)@.with_list(
                old(self).addr(),
                ListView {
                    items: final(heap)@.lists[old(self).addr()].items,
                    ..old(heap)@.lists[old(self).addr()]
                },
            ),
            final(heap)@.lists[old(self).addr()].items.len() == all@.len(),
            forall|k: int|
                #![trigger all@[k]]
                0 <= k < all@.len() ==> final(heap)@.lists[old(self).addr()].items[k] == *final(
                    all@[k]),
    {
        heap.list_mut(self.id).as_vec_mut()
    }

    /// Puts `data` at `index` and moves every element from `index` on one
    /// place to the right; each stays the handle that it was. An index beyond
    /// the length is refused.
    pub fn insert(&mut self, heap: &mut Heap, index: usize, data: Data) -> (done: Result<(), Error>)
        requires
            old(heap).wf(),
            old(heap)@.list_live(old(self).addr()),
            old(heap)@.lists[old(self).addr()].items.len() < usize::MAX,
        ensures
            final(heap).wf(),
            *final(self) == *old(self),
            match done {
                Ok(_) => {
                    &&& index <= old(heap)@.lists[old(self).addr()].items.len()
                    &&& final(heap)@ == old(heap)@.list_insert(old(self).addr(), index as int, data)
                },
                Err(e) => {
                    &&& index > old(heap)@.lists[old(self).addr()].items.len()
                    &&& e == Error::OutOfBounds(index)
                    &&& final(heap)@ == old(heap)@
                },
            },
    {
        if index > heap.list(self.id).len() {
            return Err(Error::OutOfBounds(index));
        }
        heap.list_mut(self.id).insert(index, data);
        Ok(())
    }

    /// Takes the element at `index` out and hands it to the caller; every
    /// later element moves one place to the left. No count changes: the
    /// reference that the sequence held is the caller's now. An index from
    /// the length on is refused.
    pub fn remove(&mut self, heap: &mut Heap, index: usize) -> (removed: Result<Data, Error>)
        requires
            old(heap).wf(),
            old(heap)@.list_live(old(self).addr()),
        ensures
            final(heap).wf(),
            *final(self) == *old(self),
            match removed {
                Ok(d) => {
                    &&& index < old(heap)@.lists[old(self).addr()].items.len()
                    &&& d == old(heap)@.lists[old(self).addr()].items[index as int]
                    &&& final(heap)@ == old(heap)@.list_remove(old(self).addr(), index as int)
                },
                Err(e) => {
                    &&& index >= old(heap)@.lists[old(self).addr()].items.len()
                    &&& e == Error::OutOfBounds(index)
                    &&& final(heap)@ == old(heap)@
                },
            },
    {
        if index >= heap.list(self.id).len() {
            return Err(Error::OutOfBounds(index));
        }
        Ok(heap.list_mut(self.id).remove(index))
    }

    /// Writes `data` over the element at `index` and gives the element that
    /// was there up, as `refdrop` gives up a value. An index from the length
    /// on is refused.
    pub fn set(&mut self, heap: &mut Heap, index: usize, data: Data) -> (done: Result<(), Error>)
        requires
            old(heap).wf(),
            old(heap)@.list_live(old(self).addr()),
        ensures
            final(heap).wf(),
            *final(self) == *old(self),
            match done {
                Ok(_) => {
                    &&& index < old(heap)@.lists[old(self).addr()].items.len()
                    &&& final(heap)@ == old(heap)@.list_set(
                        old(self).addr(),
                        index as int,
                        data,
                    ).release(old(heap)@.lists[old(self).addr()].items[index as int])
                    &&& !old(heap)@.holds(old(heap)@.lists[old(self).addr()].items[index as int])
                        ==> final(heap)@ == old(heap)@.list_set(
                        old(self).addr(),
                        index as int,
                        data,
                    )
                },
                Err(e) => {
                    &&& index >= old(heap)@.lists[old(self).addr()].items.len()
                    &&& e == Error::OutOfBounds(index)
                    &&& final(heap)@ == old(heap)@
                },
            },
    {
        if index >= heap.list(self.id).len() {
            return Err(Error::OutOfBounds(index));
        }
        let displaced = heap.list_mut(self.id).set(index, data);
        proof {
            if !old(heap)@.holds(displaced) {
                assert(!heap@.holds(displaced));
                heap@.lemma_release_nothing(displaced);
            }
        }
        heap.release(displaced);
        Ok(())
    }

    /// The element at `index`. An index from the length on is refused.
    pub fn index<'a>(&self, heap: &'a Heap, index: usize) -> (found: Result<&'a Data, Error>)
        requires
            heap.wf(),
            heap@.list_live(self.addr()),
        ensures
            match found {
                Ok(d) => heap@.lists[self.addr()].get(index as int) == Some(*d),
                Err(e) => {
                    &&& heap@.lists[self.addr()].get(index as int) is None
                    &&& e == Error::OutOfBounds(index)
                },
            },
    {
        match heap.list(self.id).get(index) {
            Some(d) => Ok(d),
            None => Err(Error::OutOfBounds(index)),
        }
    }

    /// The element at `index` for writing. An index from the length on is
    /// refused.
    pub fn index_mut<'a>(&mut self, heap: &'a mut Heap, index: usize) -> (found: Result<
        &'a mut Data,
        Error,
    >)
        requires
            old(heap).wf(),
            old(heap)@.list_live(old(self).addr()),
        ensures
            final(heap).wf(),
            *final(self) == *old(self),
            match found {
                Ok(d) => {
                    &&& old(heap)@.lists[old(self).addr()].get(index as int) == Some(*d)
                    &&& final(heap)@ == old(heap)@.list_set(old(self).addr(), index as int, *final(d))
                },
                Err(e) => {
                    &&& old(heap)@.lists[old(self).addr()].get(index as int) is None
                    &&& e == Error::OutOfBounds(index)
                    &&& final(heap)@ == old(heap)@
                },
            },
    {
        match heap.list_mut(self.id).get_mut(index) {
            Some(d) => Ok(d),
            None => Err(Error::OutOfBounds(index)),
        }
    }
}

impl RefC for List {
    open spec fn as_data(&self) -> Data {
        Data { data: DataTypes::LIST(*self) }
    }

    fn incrc(&mut self, heap: &mut Heap) {
        if self.id < heap.lists_len() && heap.list(self.id).is_live() {
            heap.list_mut(self.id).incrc();
        }
    }

    fn decrc(&mut self, heap: &mut Heap) {
        if self.id < heap.lists_len() && heap.list(self.id).is_live() {
            heap.list_mut(self.id).decrc();
        }
    }

    fn getrc(&self, heap: &Heap) -> (n: i64) {
        if self.id < heap.lists_len() && heap.list(self.id).is_live() {
            heap.list(self.id).getrc()
        } else {
            0
        }
    }
}

impl RefCopy for List {
    fn refcopy(&mut self, heap: &mut Heap) -> (alias: Self) {
        self.incrc(heap);
        List { id: self.id }
    }

    fn refdrop(self, heap: &mut Heap) {
        heap.release(Data { data: DataTypes::LIST(self) });
    }
}

impl ToStr for List {
    open spec fn renderable(&self, heap: HeapView) -> bool {
        heap.finite(self.as_data())
    }

    open spec fn rendering(&self, heap: HeapView) -> Seq<char> {
        heap.text_of(self.as_data())
    }

    /// The elements between square brackets, with a comma between one and the
    /// next.
    fn tostr(&self, heap: &Heap) -> (text: std::string::String) {
        let ghost depth = heap@.depth(self.as_data());
        let mut text = std::string::String::new();
        crate::render::render_list(heap, self.id, &mut text, Ghost(depth));
        proof {
            assert(text@ =~= heap@.render(self.as_data(), depth));
        }
        text
    }
}

} // verus!
