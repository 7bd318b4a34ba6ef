//! Sets of Sudoku digits, and the digits still available to each row, column and block.

use vstd::prelude::*;
use crate::grid::{empty_board, Cell};
use crate::rules::{block_index, block_of, column_of, row_of};

verus! {

/// A set of digits between 1 and 9; `slots[d - 1]` says whether `d` is a member.
#[derive(Clone, Copy, Debug)]
pub struct DigitSet {
    pub slots: [bool; 9],
}

/// The set of all Sudoku digits, 1 to 9.
pub open spec fn all_digits() -> Set<u8> {
    Set::new(|d: u8| 1 <= d <= 9)
}

/// The members of `s` among the digits 1 to `n`, in increasing order.
pub open spec fn ascending_upto(s: Set<u8>, n: nat) -> Seq<u8>
    decreases n,
{
    if n == 0 {
        Seq::empty()
    } else {
        let rest = ascending_upto(s, (n - 1) as nat);
        if s.contains(n as u8) {
            rest.push(n as u8)
        } else {
            rest
        }
    }
}

/// The digits of `s` in increasing order.
pub open spec fn ascending(s: Set<u8>) -> Seq<u8> {
    ascending_upto(s, 9)
}

/// Every entry of `ascending_upto(s, n)` is a member of `s` between 1 and `n`,
/// and there are at most `n` entries.
pub proof fn lemma_ascending_members(s: Set<u8>, n: nat)
    requires
        n <= 9,
    ensures
        ascending_upto(s, n).len() <= n,
        forall|i: int|
            0 <= i < ascending_upto(s, n).len() ==> s.contains(#[trigger] ascending_upto(s, n)[i])
                && 1 <= ascending_upto(s, n)[i] <= n,
    decreases n,
{
    if n > 0 {
        lemma_ascending_members(s, (n - 1) as nat);
    }
}

/// Every member of `s` between 1 and `n` is an entry of `ascending_upto(s, n)`.
pub proof fn lemma_ascending_covers(s: Set<u8>, n: nat, d: u8)
    requires
        n <= 9,
        1 <= d <= n,
        s.contains(d),
    ensures
        ascending_upto(s, n).contains(d),
    decreases n,
{
    let whole = ascending_upto(s, n);
    if d == n {
        assert(whole[whole.len() - 1] == d);
    } else {
        lemma_ascending_covers(s, (n - 1) as nat, d);
        let rest = ascending_upto(s, (n - 1) as nat);
        let i = choose|i: int| 0 <= i < rest.len() && rest[i] == d;
        assert(whole[i] == d);
    }
}

/// The entries of `ascending_upto(s, n)` increase from each one to the next.
pub proof fn lemma_ascending_increases(s: Set<u8>, n: nat)
    requires
        n <= 9,
    ensures
        forall|i: int, j: int|
            0 <= i < j < ascending_upto(s, n).len() ==> ascending_upto(s, n)[i] < ascending_upto(
                s,
                n,
            )[j],
    decreases n,
{
    if n > 0 {
        lemma_ascending_increases(s, (n - 1) as nat);
        lemma_ascending_members(s, (n - 1) as nat);
    }
}

impl View for DigitSet {
    type V = Set<u8>;

    open spec fn view(&self) -> Set<u8> {
        Set::new(|d: u8| 1 <= d <= 9 && self.slots[d - 1])
    }
}

impl DigitSet {
    /// The set of all nine digits.
    pub fn full() -> (s: DigitSet)
        ensures
            s@ == all_digits(),
    {
        let s = DigitSet { slots: [true; 9] };
        assert(s@ =~= all_digits());
        s
    }

    /// Whether `d` is a member.
    pub fn contains(&self, d: u8) -> (b: bool)
        ensures
            b == self@.contains(d),
    {
        1 <= d && d <= 9 && self.slots[(d - 1) as usize]
    }

    /// Takes `d` out of the set; a `d` that is no member changes nothing.
    pub fn remove(&mut self, d: u8)
        ensures
            final(self)@ == old(self)@.remove(d),
    {
        if 1 <= d && d <= 9 {
            self.slots[(d - 1) as usize] = false;
        }
        assert(self@ =~= old(self)@.remove(d));
    }
}

/// The digits that each row, column and block can still take.
#[derive(Clone, Copy, Debug)]
pub struct Availability {
    pub rows: [DigitSet; 9],
    pub cols: [DigitSet; 9],
    pub blocks: [DigitSet; 9],
}

/// The digit `d` may be placed at (`row`, `col`) of `b`: no cell of that row,
/// column or block holds it.
pub open spec fn allowed(b: Seq<Seq<Cell>>, row: int, col: int, d: u8) -> bool {
    &&& 1 <= d <= 9
    &&& !row_of(b, row).contains(Cell::Digit(d))
    &&& !column_of(b, col).contains(Cell::Digit(d))
    &&& !block_of(b, block_index(row, col)).contains(Cell::Digit(d))
}

/// The candidate digits for (`row`, `col`) of `b`, in increasing order.
pub open spec fn candidates(b: Seq<Seq<Cell>>, row: int, col: int) -> Seq<u8> {
    ascending(Set::new(|d: u8| allowed(b, row, col, d)))
}

/// The candidates for a cell are exactly the digits allowed there, each of
/// them once, the smaller before the larger.
pub proof fn lemma_candidates_are_the_allowed(b: Seq<Seq<Cell>>, row: int, col: int)
    ensures
        forall|d: u8| candidates(b, row, col).contains(d) <==> allowed(b, row, col, d),
        forall|i: int, j: int|
            0 <= i < j < candidates(b, row, col).len() ==> candidates(b, row, col)[i] < candidates(
                b,
                row,
                col,
            )[j],
{
    let s = Set::new(|d: u8| allowed(b, row, col, d));
    lemma_ascending_members(s, 9);
    lemma_ascending_increases(s, 9);
    assert forall|d: u8| candidates(b, row, col).contains(d) <==> allowed(b, row, col, d) by {
        if allowed(b, row, col, d) {
            lemma_ascending_covers(s, 9, d);
        }
    }
}

impl Availability {
    /// The digits available to row `k`.
    pub open spec fn row_set(&self, k: int) -> Set<u8> {
        self.rows[k]@
    }

    /// The digits available to column `k`.
    pub open spec fn col_set(&self, k: int) -> Set<u8> {
        self.cols[k]@
    }

    /// The digits available to block `k`.
    pub open spec fn block_set(&self, k: int) -> Set<u8> {
        self.blocks[k]@
    }

    /// The digits available to the cell at (`row`, `col`): those that its row,
    /// its column and its block can all still take.
    pub open spec fn cell_set(&self, row: int, col: int) -> Set<u8> {
        self.row_set(row).intersect(self.col_set(col)).intersect(
            self.block_set(block_index(row, col)),
        )
    }

    /// A digit is available to a row, column or block exactly when no cell of
    /// that row, column or block of `b` holds it.
    pub open spec fn tracks(&self, b: Seq<Seq<Cell>>) -> bool {
        &&& forall|k: int, d: u8|
            0 <= k < 9 ==> (#[trigger] self.row_set(k).contains(d) <==> 1 <= d <= 9 && !row_of(
                b,
                k,
            ).contains(Cell::Digit(d)))
        &&& forall|k: int, d: u8|
            0 <= k < 9 ==> (#[trigger] self.col_set(k).contains(d) <==> 1 <= d <= 9 && !column_of(
                b,
                k,
            ).contains(Cell::Digit(d)))
        &&& forall|k: int, d: u8|
            0 <= k < 9 ==> (#[trigger] self.block_set(k).contains(d) <==> 1 <= d <= 9 && !block_of(
                b,
                k,
            ).contains(Cell::Digit(d)))
    }

    /// `self` is `before` with `d` taken out of the sets of row `row`, of column
    /// `col` and of the block of (`row`, `col`), and nothing else changed.
    pub open spec fn took(&self, before: Availability, row: int, col: int, d: u8) -> bool {
        &&& forall|k: int|
            0 <= k < 9 ==> #[trigger] self.row_set(k) == (if k == row {
                before.row_set(k).remove(d)
            } else {
                before.row_set(k)
            })
        &&& forall|k: int|
            0 <= k < 9 ==> #[trigger] self.col_set(k) == (if k == col {
                before.col_set(k).remove(d)
            } else {
                before.col_set(k)
            })
        &&& forall|k: int|
            0 <= k < 9 ==> #[trigger] self.block_set(k) == (if k == block_index(row, col) {
                before.block_set(k).remove(d)
            } else {
                before.block_set(k)
            })
    }

    /// Everything is available everywhere.
    pub fn new() -> (a: Availability)
        ensures
            forall|k: int| 0 <= k < 9 ==> #[trigger] a.row_set(k) == all_digits(),
            forall|k: int| 0 <= k < 9 ==> #[trigger] a.col_set(k) == all_digits(),
            forall|k: int| 0 <= k < 9 ==> #[trigger] a.block_set(k) == all_digits(),
            a.tracks(empty_board()),
    {
        let full = DigitSet::full();
        Availability { rows: [full; 9], cols: [full; 9], blocks: [full; 9] }
    }

    /// The candidates for the cell at (`row`, `col`), in increasing order.
    pub fn candidates(&self, row: usize, col: usize) -> (options: Vec<u8>)
        requires
            row < 9,
            col < 9,
        ensures
            options@ == ascending(self.cell_set(row as int, col as int)),
    {
        let block: usize = (row / 3) * 3 + col / 3;
        let mut options: Vec<u8> = Vec::new();
        let mut d: u8 = 1;
        while d <= 9
            invariant
                1 <= d <= 10,
                row < 9,
                col < 9,
                block == block_index(row as int, col as int),
                options@ == ascending_upto(self.cell_set(row as int, col as int), (d - 1) as nat),
            decreases 10 - d,
        {
            if self.rows[row].contains(d) && self.cols[col].contains(d) && self.blocks[block].contains(
                d,
            ) {
                options.push(d);
            }
            d += 1;
        }
        options
    }

    /// Records that `d` was placed at (`row`, `col`): it is no longer available
    /// to that row, that column and that block.
    pub fn take(&mut self, row: usize, col: usize, d: u8)
        requires
            row < 9,
            col < 9,
        ensures
            final(self).took(*old(self), row as int, col as int, d),
    {
        let block: usize = (row / 3) * 3 + col / 3;
        self.rows[row].remove(d);
        self.cols[col].remove(d);
        self.blocks[block].remove(d);
    }
}

} // verus!
