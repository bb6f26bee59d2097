//! Chiton risk grid: a rectangular map of single-digit risk levels with
//! bounds-checked cell access.

use crate::bytes;
use vstd::pervasive::VecAdditionalExecFns;
use vstd::prelude::*;

verus! {

/// Largest accepted row or column count.
pub const MAX_DIM: usize = 32767;

pub struct Field {
    pub numbers: Vec<u8>,
    pub rows: usize,
    pub cols: usize,
}

pub open spec fn in_grid(rows: int, cols: int, x: int, y: int) -> bool {
    0 <= x < cols && 0 <= y < rows
}

impl Field {
    /// A non-empty rectangle of bounded size, one digit per cell.
    pub open spec fn wf(self) -> bool {
        &&& 1 <= self.rows <= MAX_DIM
        &&& 1 <= self.cols <= MAX_DIM
        &&& self.numbers@.len() == self.rows * self.cols
    }

    /// Reads a risk grid from a rectangular block of digit lines. Fails
    /// exactly when the lines are not a digit rectangle or a side exceeds
    /// `MAX_DIM`.
    pub fn from_str(s: &[u8]) -> (r: Option<Field>)
        ensures
            match r {
                Some(f) => {
                    &&& f.wf()
                    &&& bytes::good_grid(bytes::lines_spec(s@))
                    &&& f.rows == bytes::lines_spec(s@).len()
                    &&& f.cols == bytes::lines_spec(s@)[0].len()
                    &&& forall|k: int|
                        0 <= k < f.numbers@.len() ==> #[trigger] f.numbers@[k] == bytes::grid_cell(
                            bytes::lines_spec(s@),
                            f.cols as int,
                            k,
                        )
                },
                None => !(bytes::good_grid(bytes::lines_spec(s@)) && bytes::lines_spec(s@).len()
                    <= MAX_DIM && bytes::lines_spec(s@)[0].len() <= MAX_DIM),
            },
    {
        match bytes::parse_digit_grid(s, MAX_DIM) {
            Some((numbers, rows, cols)) => Some(Field { numbers, rows, cols }),
            None => None,
        }
    }

    /// The risk level at `(x, y)`, or nothing when outside the grid.
    pub fn get(&self, x: isize, y: isize) -> (r: Option<u8>)
        requires
            self.wf(),
        ensures
            match r {
                Some(v) => in_grid(self.rows as int, self.cols as int, x as int, y as int) && v
                    == self.numbers@[y as int * self.cols as int + x as int],
                None => !in_grid(self.rows as int, self.cols as int, x as int, y as int),
            },
    {
        if x < self.cols as isize && 0 <= x && y < self.rows as isize && 0 <= y {
            let _len = self.numbers.len();
            proof {
                assert(0 <= (y as int) * (self.cols as int) + (x as int) && (y as int) * (
                self.cols as int) + (x as int) < (self.rows as int) * (self.cols as int) && (
                self.cols as int) * (y as int) == (y as int) * (self.cols as int)) by (
                nonlinear_arith)
                    requires
                        0 <= (x as int) && (x as int) < (self.cols as int),
                        0 <= (y as int) && (y as int) < (self.rows as int),
                ;
            }
            Some(self.numbers[self.cols * (y as usize) + (x as usize)])
        } else {
            None
        }
    }

    /// Overwrites the risk level at `(x, y)`; cells outside the grid are
    /// left alone.
    pub fn set(&mut self, x: isize, y: isize, v: u8)
        requires
            old(self).wf(),
        ensures
            final(self).wf(),
            final(self).rows == old(self).rows,
            final(self).cols == old(self).cols,
            final(self).numbers@ == (if in_grid(
                old(self).rows as int,
                old(self).cols as int,
                x as int,
                y as int,
            ) {
                old(self).numbers@.update(y as int * old(self).cols as int + x as int, v)
            } else {
                old(self).numbers@
            }),
    {
        if x < self.cols as isize && 0 <= x && y < self.rows as isize && 0 <= y {
            let _len = self.numbers.len();
            proof {
                assert(0 <= (y as int) * (self.cols as int) + (x as int) && (y as int) * (
                self.cols as int) + (x as int) < (self.rows as int) * (self.cols as int) && (
                self.cols as int) * (y as int) == (y as int) * (self.cols as int)) by (
                nonlinear_arith)
                    requires
                        0 <= (x as int) && (x as int) < (self.cols as int),
                        0 <= (y as int) && (y as int) < (self.rows as int),
                ;
            }
            self.numbers.set(self.cols * (y as usize) + (x as usize), v);
        }
    }

    /// Cell coordinates of a flat index.
    pub fn get_coord(&self, index: usize) -> (r: (isize, isize))
        requires
            self.wf(),
            index < self.numbers@.len(),
        ensures
            r.0 as int == index as int % self.cols as int,
            r.1 as int == index as int / self.cols as int,
    {
        proof {
            assert((self.rows as int) * (self.cols as int) <= 32767 * 32767) by (nonlinear_arith)
                requires
                    1 <= (self.rows as int) <= 32767,
                    1 <= (self.cols as int) <= 32767,
            ;
            assert((index as int) / (self.cols as int) <= index as int) by (nonlinear_arith)
                requires
                    (self.cols as int) >= 1,
                    (index as int) >= 0,
            ;
        }
        ((index % self.cols) as isize, (index / self.cols) as isize)
    }
}

} // verus!
