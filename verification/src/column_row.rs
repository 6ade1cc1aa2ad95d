//! The cells of a grid, column by column.
use vstd::prelude::*;
use core::ops::Range;
use crate::Itertools;
use crate::size_hint::SizeHint;

verus! {

/// The cells `(column, row)` from column `c` and row `r` on, row by row within each column,
/// for columns below `ce` and rows from `rs` to below `re`.
pub open spec fn cells(c: int, r: int, ce: int, rs: int, re: int) -> Seq<(usize, usize)>
    decreases ce - c, re - r,
{
    if c >= ce {
        Seq::empty()
    } else if r < re {
        seq![(c as usize, r as usize)] + cells(c, r + 1, ce, rs, re)
    } else {
        cells(c + 1, rs, ce, rs, re)
    }
}

/// An iterator over the cells of a grid: for each column of a range, each row of a range.
pub struct ColumnRowIter {
    range_row: Range<usize>,
    row_pos: usize,
    range_column: Range<usize>,
    col_pos: usize,
}

/// Iterating over columns and rows.
pub trait RangeExt {
    /// The cells with a column in `self` and a row in `r`.
    fn rows(self, r: Range<usize>) -> (it: ColumnRowIter)
        ensures
            it.wf(),
    ;
}

impl RangeExt for Range<usize> {
    fn rows(self, rows: Range<usize>) -> (it: ColumnRowIter)
        ensures
            it.rest() == cells(self.start as int, rows.start as int, self.end as int, rows.start as int, rows.end as int),
    {
        ColumnRowIter {
            range_column: self.start..self.end,
            col_pos: self.start,
            range_row: rows.start..rows.end,
            row_pos: rows.start,
        }
    }
}

impl Itertools for ColumnRowIter {
    type Item = (usize, usize);

    closed spec fn rest(&self) -> Seq<(usize, usize)> {
        cells(
            self.col_pos as int,
            self.row_pos as int,
            self.range_column.end as int,
            self.range_row.start as int,
            self.range_row.end as int,
        )
    }

    closed spec fn wf(&self) -> bool {
        &&& self.range_column.start <= self.col_pos
        &&& self.range_row.start <= self.row_pos
    }

    fn next(&mut self) -> (r: Option<(usize, usize)>) {
        while self.range_column.start <= self.col_pos && self.col_pos < self.range_column.end
            invariant
                self.wf(),
                self.rest() == old(self).rest(),
                self.range_row == old(self).range_row,
                self.range_column == old(self).range_column,
            decreases self.range_column.end - self.col_pos, self.range_row.end - self.row_pos,
        {
            if self.range_row.start <= self.row_pos && self.row_pos < self.range_row.end {
                let row_pos = self.row_pos;
                self.row_pos = self.row_pos + 1;
                return Some((self.col_pos, row_pos));
            }
            self.col_pos = self.col_pos + 1;
            self.row_pos = self.range_row.start;
        }
        None
    }

    /// No information, as for any iterator.
    closed spec fn spec_size_hint(&self) -> (usize, Option<usize>) {
        (0, None)
    }

    fn size_hint(&self) -> (r: SizeHint) {
        let r = (0, None);
        assert(r == self.spec_size_hint());
        r
    }
}

} // verus!
