//! Bingo: boards of numbers are filled as draws are called. A board wins
//! when a whole row or column is filled; its score is the sum of its
//! unfilled numbers times the winning draw.

use crate::bytes;
use vstd::pervasive::VecAdditionalExecFns;
use vstd::prelude::*;

verus! {

pub struct BingoTable {
    pub numbers: Vec<u32>,
    pub filled: Vec<bool>,
    pub row_filled: Vec<u32>,
    pub col_filled: Vec<u32>,
    pub rows: usize,
    pub cols: usize,
}

/// Filled cells among the first `j` of row `r`.
pub open spec fn row_count(filled: Seq<bool>, cols: int, r: int, j: int) -> int
    decreases j,
{
    if j <= 0 {
        0
    } else {
        row_count(filled, cols, r, j - 1) + if filled[r * cols + (j - 1)] {
            1int
        } else {
            0int
        }
    }
}

/// Filled cells among the first `i` of column `c`.
pub open spec fn col_count(filled: Seq<bool>, cols: int, c: int, i: int) -> int
    decreases i,
{
    if i <= 0 {
        0
    } else {
        col_count(filled, cols, c, i - 1) + if filled[(i - 1) * cols + c] {
            1int
        } else {
            0int
        }
    }
}

/// Sum of the numbers on unfilled cells among the first `n`.
pub open spec fn unfilled_sum(numbers: Seq<u32>, filled: Seq<bool>, n: int) -> int
    decreases n,
{
    if n <= 0 {
        0
    } else {
        unfilled_sum(numbers, filled, n - 1) + if !filled[n - 1] {
            numbers[n - 1] as int
        } else {
            0int
        }
    }
}

/// Index of the first cell holding `num`, or the cell count if absent.
pub open spec fn first_eq(numbers: Seq<u32>, num: u32) -> int
    decreases numbers.len(),
{
    if numbers.len() == 0 {
        0
    } else if numbers[0] == num {
        0
    } else {
        1 + first_eq(numbers.skip(1), num)
    }
}

proof fn lemma_first_eq(numbers: Seq<u32>, num: u32)
    ensures
        0 <= first_eq(numbers, num) <= numbers.len(),
        first_eq(numbers, num) < numbers.len() ==> numbers[first_eq(numbers, num)] == num,
        forall|j: int| 0 <= j < first_eq(numbers, num) ==> numbers[j] != num,
    decreases numbers.len(),
{
    if numbers.len() != 0 && numbers[0] != num {
        lemma_first_eq(numbers.skip(1), num);
        assert forall|j: int| 0 <= j < first_eq(numbers, num) implies numbers[j] != num by {
            if j > 0 {
                assert(numbers.skip(1)[j - 1] == numbers[j]);
            }
        }
    }
}

proof fn lemma_first_eq_is(numbers: Seq<u32>, num: u32, k: int)
    requires
        0 <= k < numbers.len(),
        numbers[k] == num,
        forall|j: int| 0 <= j < k ==> numbers[j] != num,
    ensures
        first_eq(numbers, num) == k,
{
    lemma_first_eq(numbers, num);
    if first_eq(numbers, num) < k {
        assert(numbers[first_eq(numbers, num)] == num);
    }
}

impl BingoTable {
    /// Shape and bookkeeping invariant: one cell and one mark per position,
    /// and the per-row and per-column counters agree with the marks.
    pub open spec fn wf(self) -> bool {
        &&& 1 <= self.rows <= 0x7fff
        &&& 1 <= self.cols <= 0x7fff
        &&& self.numbers@.len() == self.rows * self.cols
        &&& self.filled@.len() == self.rows * self.cols
        &&& self.row_filled@.len() == self.rows
        &&& self.col_filled@.len() == self.cols
        &&& forall|r: int|
            0 <= r < self.rows ==> (#[trigger] self.row_filled@[r]) as int == row_count(
                self.filled@,
                self.cols as int,
                r,
                self.cols as int,
            )
        &&& forall|c: int|
            0 <= c < self.cols ==> (#[trigger] self.col_filled@[c]) as int == col_count(
                self.filled@,
                self.cols as int,
                c,
                self.rows as int,
            )
    }

    /// Row and column of the cell at flat position `index`.
    pub fn get_pos(&self, index: usize) -> (r: (usize, usize))
        requires
            self.wf(),
            index < self.numbers@.len(),
        ensures
            r.0 == index as int / self.cols as int,
            r.1 == index as int % self.cols as int,
            r.0 < self.rows,
            r.1 < self.cols,
    {
        proof {
            assert((index as int) / (self.cols as int) < self.rows as int) by (nonlinear_arith)
                requires
                    0 <= (index as int) && (index as int) < (self.rows as int) * (self.cols as int),
                    1 <= self.cols as int,
                    1 <= self.rows as int,
            ;
        }
        (index / self.cols, index % self.cols)
    }

    /// The number at `(row, col)`.
    pub fn get(&self, row: usize, col: usize) -> (r: u32)
        requires
            self.wf(),
            row < self.rows,
            col < self.cols,
        ensures
            r == self.numbers@[row * self.cols + col],
    {
        let _len = self.numbers.len();
        proof {
            assert(0 <= (row as int) * (self.cols as int) + (col as int) && (row as int) * (self.cols as int) + (col as int) < (self.rows as int) * (self.cols as int) && (self.cols as int) * (row as int) == (row as int) * (self.cols as int)) by (nonlinear_arith)
                requires
                    0 <= (row as int) < (self.rows as int),
                    0 <= (col as int) < (self.cols as int),
                ;
        }
        self.numbers[self.cols * row + col]
    }

    /// Marks the first cell holding `num`, if there is an unmarked one.
    /// When that mark completes its row or column the board wins, and the
    /// sum of the still-unfilled numbers times `num` is returned; in every
    /// other case nothing is. The cell vector and dimensions never change.
    pub fn fill(&mut self, num: u32) -> (r: Option<u32>)
        requires
            old(self).wf(),
            unfilled_sum(old(self).numbers@, old(self).filled@, old(self).numbers@.len() as int)
                <= u32::MAX,
            unfilled_sum(
                old(self).numbers@,
                old(self).filled@,
                old(self).numbers@.len() as int,
            ) * num <= u32::MAX,
        ensures
            final(self).wf(),
            final(self).numbers@ == old(self).numbers@,
            final(self).rows == old(self).rows,
            final(self).cols == old(self).cols,
            ({
                let n = old(self).numbers@.len() as int;
                let idx = first_eq(old(self).numbers@, num);
                let cols = old(self).cols as int;
                if idx == n || old(self).filled@[idx] {
                    final(self).filled@ == old(self).filled@ && r == None::<u32>
                } else {
                    {
                        let f2 = old(self).filled@.update(idx, true);
                        let row = idx / cols;
                        let col = idx % cols;
                        &&& final(self).filled@ == f2
                        &&& if row_count(f2, cols, row, cols) == cols || col_count(
                            f2,
                            cols,
                            col,
                            old(self).rows as int,
                        ) == old(self).rows as int {
                            r == Some((unfilled_sum(old(self).numbers@, f2, n) * num) as u32)
                        } else {
                            r == None::<u32>
                        }
                    }
                }
            }),
    {
        let n = self.numbers.len();
        let ghost pre = *self;
        // Find the first cell holding the draw.
        let mut index: usize = 0;
        let mut found = false;
        while index < n && !found
            invariant
                *self == pre,
                n == self.numbers@.len(),
                index <= n,
                !found ==> forall|j: int| 0 <= j < index ==> self.numbers@[j] != num,
                found ==> index < n && self.numbers@[index as int] == num && (forall|j: int|
                    0 <= j < index ==> self.numbers@[j] != num),
            decreases n - index + (if found {
                0int
            } else {
                1int
            }),
        {
            if self.numbers[index] == num {
                found = true;
            } else {
                index = index + 1;
            }
        }
        if !found {
            proof {
                lemma_first_eq(self.numbers@, num);
                if first_eq(self.numbers@, num) < n {
                    assert(self.numbers@[first_eq(self.numbers@, num)] == num);
                }
            }
            return None;
        }
        proof {
            lemma_first_eq_is(self.numbers@, num, index as int);
        }
        let (row, col) = self.get_pos(index);
        if self.filled[index] {
            return None;
        }
        self.filled.set(index, true);
        let ghost f2 = self.filled@;
        proof {
            lemma_row_count_update(
                pre.filled@,
                f2,
                self.cols as int,
                self.rows as int,
                row as int,
                self.cols as int,
                index as int,
            );
            lemma_col_count_update(
                pre.filled@,
                f2,
                self.cols as int,
                self.rows as int,
                col as int,
                self.rows as int,
                index as int,
            );
            lemma_row_count_bound(pre.filled@, self.cols as int, row as int, self.cols as int);
            lemma_col_count_bound(pre.filled@, self.cols as int, col as int, self.rows as int);
        }
        let rf = self.row_filled[row];
        self.row_filled.set(row, rf + 1);
        let cf = self.col_filled[col];
        self.col_filled.set(col, cf + 1);
        proof {
            assert forall|rr: int|
                0 <= rr < self.rows implies (#[trigger] self.row_filled@[rr]) as int == row_count(
                f2,
                self.cols as int,
                rr,
                self.cols as int,
            ) by {
                lemma_row_count_update(
                    pre.filled@,
                    f2,
                    self.cols as int,
                    self.rows as int,
                    rr,
                    self.cols as int,
                    index as int,
                );
            }
            assert forall|cc: int|
                0 <= cc < self.cols implies (#[trigger] self.col_filled@[cc]) as int == col_count(
                f2,
                self.cols as int,
                cc,
                self.rows as int,
            ) by {
                lemma_col_count_update(
                    pre.filled@,
                    f2,
                    self.cols as int,
                    self.rows as int,
                    cc,
                    self.rows as int,
                    index as int,
                );
            }
        }
        if self.row_filled[row] == self.cols as u32 || self.col_filled[col] == self.rows as u32 {
            // The board wins: sum the unfilled numbers.
            proof {
                lemma_unfilled_sum_mono(self.numbers@, f2, n as int);
                lemma_unfilled_update(pre.numbers@, pre.filled@, index as int, n as int);
                assert(unfilled_sum(self.numbers@, f2, n as int) * num <= unfilled_sum(
                    pre.numbers@,
                    pre.filled@,
                    n as int,
                ) * num) by (nonlinear_arith)
                    requires
                        unfilled_sum(self.numbers@, f2, n as int) <= unfilled_sum(
                            pre.numbers@,
                            pre.filled@,
                            n as int,
                        ),
                        0 <= unfilled_sum(self.numbers@, f2, n as int),
                        num >= 0,
                ;
            }
            let mut sum: u32 = 0;
            let mut k: usize = 0;
            while k < n
                invariant
                    self.numbers@.len() == n,
                    self.filled@ == f2,
                    f2.len() == n,
                    k <= n,
                    sum == unfilled_sum(self.numbers@, f2, k as int),
                    unfilled_sum(self.numbers@, f2, n as int) <= u32::MAX,
                    unfilled_sum(self.numbers@, f2, n as int) * num <= u32::MAX,
                    sum <= unfilled_sum(self.numbers@, f2, n as int),
                decreases n - k,
            {
                proof {
                    lemma_unfilled_prefix_mono(self.numbers@, f2, k + 1, n as int);
                }
                if !self.filled[k] {
                    sum = sum + self.numbers[k];
                }
                k = k + 1;
            }
            proof {
                assert(sum * num == unfilled_sum(self.numbers@, f2, n as int) * num);
                assert(sum * num <= u32::MAX);
            }
            return Some(sum * num);
        }
        None
    }
}

proof fn lemma_row_count_bound(filled: Seq<bool>, cols: int, r: int, j: int)
    ensures
        0 <= row_count(filled, cols, r, j) <= (if j >= 0 {
            j
        } else {
            0
        }),
    decreases j,
{
    if j > 0 {
        lemma_row_count_bound(filled, cols, r, j - 1);
    }
}

proof fn lemma_col_count_bound(filled: Seq<bool>, cols: int, c: int, i: int)
    ensures
        0 <= col_count(filled, cols, c, i) <= (if i >= 0 {
            i
        } else {
            0
        }),
    decreases i,
{
    if i > 0 {
        lemma_col_count_bound(filled, cols, c, i - 1);
    }
}

/// Marking the cell at `idx` raises its own row's count by one and leaves
/// every other row's count alone.
proof fn lemma_row_count_update(
    f1: Seq<bool>,
    f2: Seq<bool>,
    cols: int,
    rows: int,
    r: int,
    j: int,
    idx: int,
)
    requires
        cols >= 1,
        0 <= r < rows,
        0 <= j <= cols,
        f1.len() == rows * cols,
        0 <= idx < f1.len(),
        f2 == f1.update(idx, true),
        !f1[idx],
    ensures
        row_count(f2, cols, r, j) == row_count(f1, cols, r, j) + (if r == idx / cols && idx % cols
            < j {
            1int
        } else {
            0int
        }),
    decreases j,
{
    vstd::arithmetic::div_mod::lemma_fundamental_div_mod(idx, cols);
    if j > 0 {
        lemma_row_count_update(f1, f2, cols, rows, r, j - 1, idx);
        let p = r * cols + (j - 1);
        assert(0 <= r * cols + (j - 1) && r * cols + (j - 1) < rows * cols) by (nonlinear_arith)
            requires
                0 <= r < rows,
                0 <= j - 1 < cols,
                cols >= 1,
        ;
        if p == idx {
            assert(r == idx / cols && idx % cols == j - 1) by (nonlinear_arith)
                requires
                    r * cols + (j - 1) == idx,
                    idx == cols * (idx / cols) + idx % cols,
                    0 <= j - 1 < cols,
                    0 <= idx % cols < cols,
                    cols >= 1,
            ;
            assert(f2[p]);
        } else {
            assert(f2[p] == f1[p]);
            if r == idx / cols && idx % cols == j - 1 {
                assert(r * cols + (j - 1) == idx) by (nonlinear_arith)
                    requires
                        r == idx / cols,
                        idx % cols == j - 1,
                        idx == cols * (idx / cols) + idx % cols,
                ;
                assert(false);
            }
        }
    }
}

/// Marking the cell at `idx` raises its own column's count by one and
/// leaves every other column's count alone.
proof fn lemma_col_count_update(
    f1: Seq<bool>,
    f2: Seq<bool>,
    cols: int,
    rows: int,
    c: int,
    i: int,
    idx: int,
)
    requires
        cols >= 1,
        0 <= c < cols,
        0 <= i <= rows,
        f1.len() == rows * cols,
        0 <= idx < f1.len(),
        f2 == f1.update(idx, true),
        !f1[idx],
    ensures
        col_count(f2, cols, c, i) == col_count(f1, cols, c, i) + (if c == idx % cols && idx / cols
            < i {
            1int
        } else {
            0int
        }),
    decreases i,
{
    vstd::arithmetic::div_mod::lemma_fundamental_div_mod(idx, cols);
    if i > 0 {
        lemma_col_count_update(f1, f2, cols, rows, c, i - 1, idx);
        let p = (i - 1) * cols + c;
        assert(0 <= (i - 1) * cols + c && (i - 1) * cols + c < rows * cols) by (nonlinear_arith)
            requires
                0 <= i - 1 < rows,
                0 <= c < cols,
                cols >= 1,
        ;
        if p == idx {
            assert(i - 1 == idx / cols && c == idx % cols) by (nonlinear_arith)
                requires
                    (i - 1) * cols + c == idx,
                    idx == cols * (idx / cols) + idx % cols,
                    0 <= c < cols,
                    0 <= idx % cols < cols,
                    cols >= 1,
            ;
            assert(f2[p]);
        } else {
            assert(f2[p] == f1[p]);
            if c == idx % cols && idx / cols == i - 1 {
                assert((i - 1) * cols + c == idx) by (nonlinear_arith)
                    requires
                        i - 1 == idx / cols,
                        c == idx % cols,
                        idx == cols * (idx / cols) + idx % cols,
                ;
                assert(false);
            }
        }
    }
}

/// Values of one board line: its non-empty space-separated numerals.
pub open spec fn row_vals(toks: Seq<Seq<u8>>, j: int) -> Seq<int>
    decreases j,
{
    if j <= 0 {
        Seq::empty()
    } else {
        row_vals(toks, j - 1) + if toks[j - 1].len() > 0 {
            seq![bytes::digits_val(toks[j - 1])]
        } else {
            Seq::empty()
        }
    }
}

/// The numbers on one board line.
pub open spec fn line_vals(line: Seq<u8>) -> Seq<int> {
    let toks = bytes::split_spec(line, 32);
    row_vals(toks, toks.len() as int)
}

/// Every non-empty token of the line is a numeral that fits in a `u32`.
pub open spec fn line_ok(line: Seq<u8>) -> bool {
    let toks = bytes::split_spec(line, 32);
    forall|j: int|
        0 <= j < toks.len() && (#[trigger] toks[j]).len() > 0 ==> bytes::is_digits(toks[j])
            && bytes::digits_val(toks[j]) <= u32::MAX
}

/// The lines form a rectangular board of machine numbers of tolerable size.
pub open spec fn good_board(ls: Seq<Seq<u8>>) -> bool {
    &&& 1 <= ls.len() <= 0x7fff
    &&& 1 <= line_vals(ls[0]).len() <= 0x7fff
    &&& forall|l: int| 0 <= l < ls.len() ==> line_ok(#[trigger] ls[l])
    &&& forall|l: int| 0 <= l < ls.len() ==> line_vals(#[trigger] ls[l]).len() == line_vals(ls[0]).len()
}

proof fn lemma_row_vals_bound(toks: Seq<Seq<u8>>, j: int)
    ensures
        row_vals(toks, j).len() <= (if j >= 0 {
            j
        } else {
            0
        }),
    decreases j,
{
    if j > 0 {
        lemma_row_vals_bound(toks, j - 1);
    }
}

/// An all-false mark vector has empty row counts.
proof fn lemma_row_count_false(filled: Seq<bool>, cols: int, r: int, j: int)
    requires
        forall|k: int| 0 <= k < filled.len() ==> !filled[k],
        cols >= 1,
        r >= 0,
        j <= cols,
        (r + 1) * cols <= filled.len(),
    ensures
        row_count(filled, cols, r, j) == 0,
    decreases j,
{
    if j > 0 {
        lemma_row_count_false(filled, cols, r, j - 1);
        assert(0 <= r * cols + (j - 1) && r * cols + (j - 1) < filled.len()) by (nonlinear_arith)
            requires
                r >= 0,
                0 <= j - 1 < cols,
                (r + 1) * cols <= filled.len(),
        ;
    }
}

/// An all-false mark vector has empty column counts.
proof fn lemma_col_count_false(filled: Seq<bool>, cols: int, c: int, i: int)
    requires
        forall|k: int| 0 <= k < filled.len() ==> !filled[k],
        cols >= 1,
        0 <= c < cols,
        i * cols <= filled.len(),
    ensures
        col_count(filled, cols, c, i) == 0,
    decreases i,
{
    if i > 0 {
        assert((i - 1) * cols <= filled.len() && 0 <= (i - 1) * cols + c && (i - 1) * cols + c
            < filled.len()) by (nonlinear_arith)
            requires
                0 <= c < cols,
                1 <= i,
                i * cols <= filled.len(),
                cols >= 1,
        ;
        lemma_col_count_false(filled, cols, c, i - 1);
    }
}

impl BingoTable {
    /// Reads a board from lines of space-separated numbers, all marks
    /// clear. Fails exactly when the lines are not a rectangle of machine
    /// numbers of tolerable size.
    pub fn from_str(mat: &[u8]) -> (r: Option<BingoTable>)
        ensures
            ({
                let ls = bytes::lines_spec(mat@);
                match r {
                    Some(t) => {
                        &&& good_board(ls)
                        &&& t.wf()
                        &&& t.rows == ls.len()
                        &&& t.cols == line_vals(ls[0]).len()
                        &&& forall|k: int|
                            0 <= k < t.numbers@.len() ==> (#[trigger] t.numbers@[k]) as int
                                == line_vals(ls[k / t.cols as int])[k % t.cols as int]
                        &&& forall|k: int| 0 <= k < t.filled@.len() ==> !(#[trigger] t.filled@[k])
                    },
                    None => !good_board(ls),
                }
            }),
    {
        let mut lines = bytes::split_bytes(mat, 10);
        proof {
            assert(lines.deep_view().last() == lines@[lines@.len() - 1]@);
        }
        if lines[lines.len() - 1].len() == 0 {
            lines.pop();
            proof {
                assert(lines.deep_view() =~~= bytes::lines_spec(mat@));
            }
        } else {
            proof {
                assert(lines.deep_view() =~~= bytes::lines_spec(mat@));
            }
        }
        let ghost ls = bytes::lines_spec(mat@);
        let rows = lines.len();
        if rows == 0 || rows > 0x7fff {
            return None;
        }
        let mut numbers: Vec<u32> = Vec::new();
        let mut cols: usize = 0;
        let mut l: usize = 0;
        while l < rows
            invariant
                ls == bytes::lines_spec(mat@),
                lines.deep_view() == ls,
                lines@.len() == rows,
                1 <= rows <= 0x7fff,
                l <= rows,
                l > 0 ==> 1 <= cols <= 0x7fff && cols == line_vals(ls[0]).len(),
                forall|t: int| 0 <= t < l ==> line_ok(#[trigger] ls[t]),
                forall|t: int|
                    0 <= t < l ==> line_vals(#[trigger] ls[t]).len() == line_vals(ls[0]).len(),
                numbers@.len() == l * cols,
                l > 0 ==> forall|k: int|
                    0 <= k < numbers@.len() ==> (#[trigger] numbers@[k]) as int == line_vals(
                        ls[k / cols as int],
                    )[k % cols as int],
            decreases rows - l,
        {
            proof {
                assert(lines.deep_view()[l as int] == lines@[l as int]@);
            }
            let line = &lines[l];
            let toks = bytes::split_bytes(line.as_slice(), 32);
            let ghost tks = bytes::split_spec(ls[l as int], 32);
            let ntoks = toks.len();
            let ghost pre_numbers = numbers@;
            let mut c: usize = 0;
            let mut t: usize = 0;
            while t < ntoks
                invariant
                    ls == bytes::lines_spec(mat@),
                    tks == bytes::split_spec(ls[l as int], 32),
                    0 <= l < ls.len(),
                    toks.deep_view() == tks,
                    tks.len() == ntoks,
                    toks@.len() == ntoks,
                    t <= ntoks,
                    c <= t,
                    forall|j: int|
                        0 <= j < t && (#[trigger] tks[j]).len() > 0 ==> bytes::is_digits(tks[j])
                            && bytes::digits_val(tks[j]) <= u32::MAX,
                    row_vals(tks, t as int).len() == c,
                    numbers@.len() == pre_numbers.len() + c,
                    forall|k: int| 0 <= k < pre_numbers.len() ==> numbers@[k] == pre_numbers[k],
                    forall|cc: int|
                        0 <= cc < c ==> (#[trigger] numbers@[pre_numbers.len() + cc]) as int
                            == row_vals(tks, t as int)[cc],
                decreases ntoks - t,
            {
                proof {
                    assert(toks.deep_view()[t as int] == toks@[t as int]@);
                }
                let tok = &toks[t];
                if tok.len() > 0 {
                    let v = match bytes::parse_u32(tok.as_slice()) {
                        Some(v) => v,
                        None => {
                            proof {
                                assert(tok@ == tks[t as int]);
                                if line_ok(ls[l as int]) {
                                    assert(bytes::is_digits(tks[t as int]) && bytes::digits_val(
                                        tks[t as int],
                                    ) <= u32::MAX);
                                    assert(false);
                                }
                            }
                            return None;
                        },
                    };
                    numbers.push(v);
                    c = c + 1;
                }
                t = t + 1;
            }
            proof {
                assert(tks.take(tks.len() as int) =~= tks);
                assert(tks.len() == ntoks);
                assert(line_vals(ls[l as int]) == row_vals(tks, ntoks as int));
                assert(line_vals(ls[l as int]).len() == c);
            }
            if l == 0 {
                if c == 0 || c > 0x7fff {
                    return None;
                }
                cols = c;
            } else if c != cols {
                proof {
                    if good_board(ls) {
                        assert(line_vals(ls[l as int]).len() == line_vals(ls[0]).len());
                        assert(false);
                    }
                }
                return None;
            }
            proof {
                assert((l + 1) * cols == l * cols + cols) by (nonlinear_arith);
                if l == 0 {
                    assert((l as int) * (cols as int) == 0) by (nonlinear_arith)
                        requires
                            l as int == 0,
                    ;
                }
                assert(pre_numbers.len() == l * cols);
                assert forall|k: int|
                    0 <= k < numbers@.len() implies (#[trigger] numbers@[k]) as int == line_vals(
                    ls[k / cols as int],
                )[k % cols as int] by {
                    if k < pre_numbers.len() {
                        assert(numbers@[k] == pre_numbers[k]);
                        assert(pre_numbers[k] as int == line_vals(ls[k / cols as int])[k
                            % cols as int]);
                    } else {
                        let cc = k - l * cols;
                        assert(numbers@[pre_numbers.len() + cc] as int == row_vals(
                            tks,
                            ntoks as int,
                        )[cc]);
                        vstd::arithmetic::div_mod::lemma_fundamental_div_mod_converse(
                            k,
                            cols as int,
                            l as int,
                            cc,
                        );
                    }
                }
            }
            l = l + 1;
        }
        let total = numbers.len();
        let mut filled: Vec<bool> = Vec::new();
        let mut k: usize = 0;
        while k < total
            invariant
                k <= total,
                filled@.len() == k,
                forall|j: int| 0 <= j < k ==> !(#[trigger] filled@[j]),
            decreases total - k,
        {
            filled.push(false);
            k = k + 1;
        }
        let mut row_filled: Vec<u32> = Vec::new();
        let mut k: usize = 0;
        while k < rows
            invariant
                k <= rows,
                row_filled@.len() == k,
                forall|j: int| 0 <= j < k ==> (#[trigger] row_filled@[j]) == 0,
            decreases rows - k,
        {
            row_filled.push(0);
            k = k + 1;
        }
        let mut col_filled: Vec<u32> = Vec::new();
        let mut k: usize = 0;
        while k < cols
            invariant
                k <= cols,
                col_filled@.len() == k,
                forall|j: int| 0 <= j < k ==> (#[trigger] col_filled@[j]) == 0,
            decreases cols - k,
        {
            col_filled.push(0);
            k = k + 1;
        }
        let table = BingoTable { numbers, filled, row_filled, col_filled, rows, cols };
        proof {
            assert forall|r2: int|
                0 <= r2 < rows implies (#[trigger] table.row_filled@[r2]) as int == row_count(
                table.filled@,
                cols as int,
                r2,
                cols as int,
            ) by {
                assert((r2 + 1) * cols <= rows * cols) by (nonlinear_arith)
                    requires
                        0 <= r2 < rows,
                        cols >= 1,
                ;
                lemma_row_count_false(table.filled@, cols as int, r2, cols as int);
            }
            assert forall|c2: int|
                0 <= c2 < cols implies (#[trigger] table.col_filled@[c2]) as int == col_count(
                table.filled@,
                cols as int,
                c2,
                rows as int,
            ) by {
                lemma_col_count_false(table.filled@, cols as int, c2, rows as int);
            }
        }
        Some(table)
    }
}

impl BingoTable {
    /// A fresh board in the same state.
    pub fn duplicate(&self) -> (r: BingoTable)
        ensures
            r.numbers@ == self.numbers@,
            r.filled@ == self.filled@,
            r.row_filled@ == self.row_filled@,
            r.col_filled@ == self.col_filled@,
            r.rows == self.rows,
            r.cols == self.cols,
    {
        BingoTable {
            numbers: bytes::copy_vec(&self.numbers),
            filled: bytes::copy_vec(&self.filled),
            row_filled: bytes::copy_vec(&self.row_filled),
            col_filled: bytes::copy_vec(&self.col_filled),
            rows: self.rows,
            cols: self.cols,
        }
    }
}

/// The marks after the draw `num` hits the board: its first unmarked cell
/// holding `num` is marked; with no such cell nothing changes.
pub open spec fn fill_filled(numbers: Seq<u32>, filled: Seq<bool>, num: u32) -> Seq<bool> {
    let idx = first_eq(numbers, num);
    if idx == numbers.len() || filled[idx] {
        filled
    } else {
        filled.update(idx, true)
    }
}

/// What one draw returns on the board: the winning score when the new mark
/// completes a row or column, nothing otherwise.
pub open spec fn fill_result(
    numbers: Seq<u32>,
    filled: Seq<bool>,
    rows: int,
    cols: int,
    num: u32,
) -> Option<int> {
    let idx = first_eq(numbers, num);
    if idx == numbers.len() || filled[idx] {
        None
    } else {
        let f2 = filled.update(idx, true);
        if row_count(f2, cols, idx / cols, cols) == cols || col_count(f2, cols, idx % cols, rows)
            == rows {
            Some(unfilled_sum(numbers, f2, numbers.len() as int) * num)
        } else {
            None
        }
    }
}

/// The board's marks after the first `d` draws.
pub open spec fn board_state(
    numbers: Seq<u32>,
    filled0: Seq<bool>,
    nums: Seq<u32>,
    d: int,
) -> Seq<bool>
    decreases d,
{
    if d <= 0 {
        filled0
    } else {
        fill_filled(numbers, board_state(numbers, filled0, nums, d - 1), nums[d - 1])
    }
}

/// The first draw, from `d` on, that completes one of the board's rows or
/// columns, paired with its score.
pub open spec fn first_win(t: BingoTable, nums: Seq<u32>, d: int) -> Option<(int, int)>
    decreases nums.len() - d,
{
    if d >= nums.len() {
        None
    } else {
        match fill_result(
            t.numbers@,
            board_state(t.numbers@, t.filled@, nums, d),
            t.rows as int,
            t.cols as int,
            nums[d],
        ) {
            Some(x) => Some((d, x)),
            None => first_win(t, nums, d + 1),
        }
    }
}

/// The earliest win in draw-then-board order among the first `i` boards:
/// `(draw, board, score)`. Ties on the draw go to the earlier board, which
/// a play in board order reaches first.
pub open spec fn earliest_win(tables: Seq<BingoTable>, nums: Seq<u32>, i: int) -> Option<
    (int, int, int),
>
    decreases i,
{
    if i <= 0 {
        None
    } else {
        let prev = earliest_win(tables, nums, i - 1);
        match first_win(tables[i - 1], nums, 0) {
            None => prev,
            Some((d, x)) => match prev {
                None => Some((d, i - 1, x)),
                Some((d2, i2, x2)) => if d2 <= d {
                    Some((d2, i2, x2))
                } else {
                    Some((d, i - 1, x))
                },
            },
        }
    }
}

/// The score of the first board to win when the draws are played in order
/// over every board, or nothing when no board ever wins.
pub open spec fn play_first(tables: Seq<BingoTable>, nums: Seq<u32>) -> Option<int> {
    match earliest_win(tables, nums, tables.len() as int) {
        None => None,
        Some(w) => Some(w.2),
    }
}

/// Every board eventually wins.
pub open spec fn all_win(tables: Seq<BingoTable>, nums: Seq<u32>) -> bool {
    forall|i: int| 0 <= i < tables.len() ==> (#[trigger] first_win(tables[i], nums, 0)).is_some()
}

/// The latest win in draw-then-board order among the first `i` boards.
/// Ties on the draw go to the later board.
pub open spec fn latest_win(tables: Seq<BingoTable>, nums: Seq<u32>, i: int) -> Option<
    (int, int, int),
>
    decreases i,
{
    if i <= 0 {
        None
    } else {
        let prev = latest_win(tables, nums, i - 1);
        match first_win(tables[i - 1], nums, 0) {
            None => prev,
            Some((d, x)) => match prev {
                None => Some((d, i - 1, x)),
                Some((d2, i2, x2)) => if d2 > d {
                    Some((d2, i2, x2))
                } else {
                    Some((d, i - 1, x))
                },
            },
        }
    }
}

/// The score of the last board to win, or nothing when some board never
/// does: the answer of the play that sets winners aside.
pub open spec fn play_last(tables: Seq<BingoTable>, nums: Seq<u32>) -> Option<int> {
    if !all_win(tables, nums) {
        None
    } else {
        match latest_win(tables, nums, tables.len() as int) {
            None => None,
            Some(w) => Some(w.2),
        }
    }
}

/// A freshly marked cell only lowers the unfilled sum.
proof fn lemma_fill_sum(numbers: Seq<u32>, filled: Seq<bool>, num: u32)
    requires
        filled.len() == numbers.len(),
    ensures
        unfilled_sum(numbers, fill_filled(numbers, filled, num), numbers.len() as int)
            <= unfilled_sum(numbers, filled, numbers.len() as int),
{
    lemma_first_eq(numbers, num);
    let idx = first_eq(numbers, num);
    if !(idx == numbers.len() || filled[idx]) {
        lemma_unfilled_update(numbers, filled, idx, numbers.len() as int);
    }
}

/// Plays the draws in order on a copy of one board and reports its first
/// winning draw and score, if any.
fn board_first_win(t: &BingoTable, nums: &Vec<u32>) -> (r: Option<(usize, u32)>)
    requires
        t.wf(),
        unfilled_sum(t.numbers@, t.filled@, t.numbers@.len() as int) <= 0xffff,
        forall|j: int| 0 <= j < nums@.len() ==> (#[trigger] nums@[j]) <= 0xffff,
    ensures
        match r {
            Some(w) => first_win(*t, nums@, 0) == Some((w.0 as int, w.1 as int)),
            None => first_win(*t, nums@, 0) is None,
        },
{
    let mut tb = t.duplicate();
    let ndraws = nums.len();
    let mut d: usize = 0;
    while d < ndraws
        invariant
            t.wf(),
            unfilled_sum(t.numbers@, t.filled@, t.numbers@.len() as int) <= 0xffff,
            forall|j: int| 0 <= j < nums@.len() ==> (#[trigger] nums@[j]) <= 0xffff,
            nums@.len() == ndraws,
            d <= ndraws,
            tb.wf(),
            tb.numbers@ == t.numbers@,
            tb.rows == t.rows,
            tb.cols == t.cols,
            tb.filled@ == board_state(t.numbers@, t.filled@, nums@, d as int),
            unfilled_sum(tb.numbers@, tb.filled@, tb.numbers@.len() as int) <= 0xffff,
            first_win(*t, nums@, 0) == first_win(*t, nums@, d as int),
        decreases ndraws - d,
    {
        let num = nums[d];
        let ghost pre_tb = tb;
        proof {
            lemma_unfilled_sum_mono(tb.numbers@, tb.filled@, tb.numbers@.len() as int);
            assert(unfilled_sum(tb.numbers@, tb.filled@, tb.numbers@.len() as int) * num <= 0xffff
                * 0xffff) by (nonlinear_arith)
                requires
                    0 <= unfilled_sum(tb.numbers@, tb.filled@, tb.numbers@.len() as int) <= 0xffff,
                    0 <= num <= 0xffff,
            ;
        }
        let res = tb.fill(num);
        proof {
            lemma_first_eq(pre_tb.numbers@, num);
            assert(tb.filled@ == fill_filled(pre_tb.numbers@, pre_tb.filled@, num));
            lemma_fill_sum(pre_tb.numbers@, pre_tb.filled@, num);
        }
        match res {
            Some(x) => {
                proof {
                    let fr = fill_result(
                        t.numbers@,
                        pre_tb.filled@,
                        t.rows as int,
                        t.cols as int,
                        num,
                    );
                    lemma_unfilled_sum_mono(t.numbers@, tb.filled@, t.numbers@.len() as int);
                    assert(unfilled_sum(t.numbers@, tb.filled@, t.numbers@.len() as int) * num
                        <= 0xffff * 0xffff) by (nonlinear_arith)
                        requires
                            0 <= unfilled_sum(t.numbers@, tb.filled@, t.numbers@.len() as int)
                                <= 0xffff,
                            0 <= num <= 0xffff,
                    ;
                    assert(fr == Some(x as int));
                    assert(first_win(*t, nums@, d as int) == Some((d as int, x as int)));
                }
                return Some((d, x));
            },
            None => {
                proof {
                    assert(fill_result(
                        t.numbers@,
                        pre_tb.filled@,
                        t.rows as int,
                        t.cols as int,
                        num,
                    ) is None);
                    assert(first_win(*t, nums@, d as int) == first_win(*t, nums@, d + 1));
                }
            },
        }
        d = d + 1;
    }
    None
}

/// Plays the draws in order over copies of the boards and returns the first
/// winning board's score: the win with the smallest draw, ties going to the
/// earlier board, exactly as a draw-then-board play reaches them. Nothing
/// is returned exactly when no board ever wins.
pub fn part_one(nums: &Vec<u32>, tables: &Vec<BingoTable>) -> (r: Option<u32>)
    requires
        forall|t: int|
            0 <= t < tables@.len() ==> (#[trigger] tables@[t]).wf() && unfilled_sum(
                tables@[t].numbers@,
                tables@[t].filled@,
                tables@[t].numbers@.len() as int,
            ) <= 0xffff,
        forall|j: int| 0 <= j < nums@.len() ==> (#[trigger] nums@[j]) <= 0xffff,
    ensures
        match r {
            Some(x) => play_first(tables@, nums@) == Some(x as int),
            None => play_first(tables@, nums@) is None,
        },
{
    let n = tables.len();
    let mut have = false;
    let mut best_draw: usize = 0;
    let mut best_score: u32 = 0;
    let mut i: usize = 0;
    while i < n
        invariant
            forall|t: int|
                0 <= t < tables@.len() ==> (#[trigger] tables@[t]).wf() && unfilled_sum(
                    tables@[t].numbers@,
                    tables@[t].filled@,
                    tables@[t].numbers@.len() as int,
                ) <= 0xffff,
            forall|j: int| 0 <= j < nums@.len() ==> (#[trigger] nums@[j]) <= 0xffff,
            tables@.len() == n,
            i <= n,
            match earliest_win(tables@, nums@, i as int) {
                None => !have,
                Some(w) => have && w.0 == best_draw as int && w.2 == best_score as int,
            },
        decreases n - i,
    {
        let win = board_first_win(&tables[i], nums);
        match win {
            Some((d, x)) => {
                if !have || d < best_draw {
                    have = true;
                    best_draw = d;
                    best_score = x;
                }
            },
            None => {},
        }
        i = i + 1;
    }
    if have {
        Some(best_score)
    } else {
        None
    }
}

/// Plays the draws as `part_one` does, but winning boards are set aside;
/// the score returned is the one with which the last still-playing board
/// wins: the win with the largest draw, ties going to the later board.
/// Nothing is returned exactly when some board never wins (or there is no
/// board at all).
pub fn part_two(nums: &Vec<u32>, tables: &Vec<BingoTable>) -> (r: Option<u32>)
    requires
        forall|t: int|
            0 <= t < tables@.len() ==> (#[trigger] tables@[t]).wf() && unfilled_sum(
                tables@[t].numbers@,
                tables@[t].filled@,
                tables@[t].numbers@.len() as int,
            ) <= 0xffff,
        forall|j: int| 0 <= j < nums@.len() ==> (#[trigger] nums@[j]) <= 0xffff,
    ensures
        match r {
            Some(x) => play_last(tables@, nums@) == Some(x as int),
            None => play_last(tables@, nums@) is None,
        },
{
    let n = tables.len();
    if n == 0 {
        return None;
    }
    let mut have = false;
    let mut best_draw: usize = 0;
    let mut best_score: u32 = 0;
    let mut i: usize = 0;
    while i < n
        invariant
            forall|t: int|
                0 <= t < tables@.len() ==> (#[trigger] tables@[t]).wf() && unfilled_sum(
                    tables@[t].numbers@,
                    tables@[t].filled@,
                    tables@[t].numbers@.len() as int,
                ) <= 0xffff,
            forall|j: int| 0 <= j < nums@.len() ==> (#[trigger] nums@[j]) <= 0xffff,
            tables@.len() == n,
            i <= n,
            forall|t: int|
                0 <= t < i ==> (#[trigger] first_win(tables@[t], nums@, 0)).is_some(),
            match latest_win(tables@, nums@, i as int) {
                None => !have,
                Some(w) => have && w.0 == best_draw as int && w.2 == best_score as int,
            },
        decreases n - i,
    {
        let win = board_first_win(&tables[i], nums);
        match win {
            Some((d, x)) => {
                if !have || d >= best_draw {
                    have = true;
                    best_draw = d;
                    best_score = x;
                }
            },
            None => {
                proof {
                    assert(!all_win(tables@, nums@));
                }
                return None;
            },
        }
        i = i + 1;
    }
    proof {
        assert(all_win(tables@, nums@));
    }
    if have {
        Some(best_score)
    } else {
        None
    }
}


proof fn lemma_unfilled_sum_mono(numbers: Seq<u32>, filled: Seq<bool>, n: int)
    ensures
        unfilled_sum(numbers, filled, n) >= 0,
    decreases n,
{
    if n > 0 {
        lemma_unfilled_sum_mono(numbers, filled, n - 1);
    }
}

/// Marking one unfilled cell removes exactly its number from the sum.
proof fn lemma_unfilled_update(numbers: Seq<u32>, filled: Seq<bool>, idx: int, n: int)
    requires
        0 <= idx < filled.len(),
        n <= filled.len(),
        !filled[idx],
    ensures
        unfilled_sum(numbers, filled.update(idx, true), n) == unfilled_sum(numbers, filled, n) - (
        if idx < n {
            numbers[idx] as int
        } else {
            0int
        }),
    decreases n,
{
    if n > 0 {
        lemma_unfilled_update(numbers, filled, idx, n - 1);
        if n - 1 != idx {
            assert(filled.update(idx, true)[n - 1] == filled[n - 1]);
        }
    }
}

/// Partial unfilled sums never exceed the full one.
proof fn lemma_unfilled_prefix_mono(numbers: Seq<u32>, filled: Seq<bool>, a: int, b: int)
    requires
        a <= b,
    ensures
        unfilled_sum(numbers, filled, a) <= unfilled_sum(numbers, filled, b),
    decreases b - a,
{
    if a < b {
        lemma_unfilled_prefix_mono(numbers, filled, a, b - 1);
    }
}

} // verus!
