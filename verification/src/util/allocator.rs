//! The allocator of the paged sequence: rows of slots, and the row table.
use crate::data::Data;
use vstd::prelude::*;

verus! {

/// Allocates a row of `size` slots. A fresh slot holds null.
pub fn allocate(size: usize) -> (row: Vec<Data>)
    ensures
        row@ == Seq::new(size as nat, |i: int| Data::nil()),
{
    let mut row: Vec<Data> = Vec::new();
    let mut i: usize = 0;
    while i < size
        invariant
            i <= size,
            row@ == Seq::new(i as nat, |k: int| Data::nil()),
        decreases size - i,
    {
        row.push(Data::null());
        i = i + 1;
        assert(row@ =~= Seq::new(i as nat, |k: int| Data::nil()));
    }
    row
}

/// Resizes a row table to `newsz` entries. The rows that it keeps stay where
/// they are, untouched; an entry that it adds is a row without slots, for the
/// caller to replace by an allocated one.
pub fn reallocate(table: &mut Vec<Vec<Data>>, newsz: usize)
    ensures
        final(table)@.len() == newsz,
        forall|r: int| 0 <= r < newsz && r < old(table)@.len() ==> final(table)@[r] == old(table)@[r],
        forall|r: int| old(table)@.len() <= r < newsz ==> final(table)@[r]@ == Seq::<Data>::empty(),
{
    table.truncate(newsz);
    while table.len() < newsz
        invariant
            table@.len() <= newsz,
            table@.len() >= old(table)@.len() || table@.len() == newsz,
            forall|r: int| 0 <= r < table@.len() && r < old(table)@.len() ==> table@[r] == old(table)@[r],
            forall|r: int| old(table)@.len() <= r < table@.len() ==> table@[r]@ == Seq::<Data>::empty(),
        decreases newsz - table.len(),
    {
        table.push(Vec::new());
    }
}

/// Gives a row of `size` slots back. The row is gone afterwards, with whatever
/// its slots held.
pub fn deallocate(row: Vec<Data>, size: usize)
    requires
        row@.len() == size,
{
}

} // verus!
