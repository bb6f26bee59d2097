//! Octopus energy grid: every tick each cell gains one energy; a cell passing
//! nine flashes, feeding one energy to each of its eight neighbours, which can
//! cascade within the tick; flashed cells reset to zero. The cascade is
//! modelled by a recursive specification that the executable code mirrors
//! exactly, so tick results and flash counts are pinned down completely.

use crate::bytes;
use vstd::pervasive::VecAdditionalExecFns;
use vstd::prelude::*;

verus! {

/// Largest accepted row or column count; keeps every index well inside
/// `isize` on any machine.
pub const MAX_DIM: usize = 32767;

pub struct Field {
    pub numbers: Vec<u8>,
    pub rows: usize,
    pub cols: usize,
}

/// Row-major position of cell `(x, y)`.
pub open spec fn idx_at(cols: int, x: int, y: int) -> int {
    y * cols + x
}

/// Cell coordinates of row-major position `i`.
pub open spec fn coord_at(cols: int, i: int) -> (int, int) {
    (i % cols, i / cols)
}

pub open spec fn in_grid(rows: int, cols: int, x: int, y: int) -> bool {
    0 <= x < cols && 0 <= y < rows
}

/// The eight neighbours of `(x, y)`, in the order the cascade queues them.
pub open spec fn neighbor_seq(x: int, y: int) -> Seq<(int, int)> {
    seq![
        (x, y + 1),
        (x, y - 1),
        (x + 1, y),
        (x - 1, y),
        (x + 1, y + 1),
        (x + 1, y - 1),
        (x - 1, y - 1),
        (x - 1, y + 1),
    ]
}

/// Number of cells that may still flash or be raised (value at most ten).
pub open spec fn count_low(c: Seq<u8>) -> int
    decreases c.len(),
{
    if c.len() == 0 {
        0
    } else {
        count_low(c.drop_last()) + if c.last() <= 10 {
            1int
        } else {
            0int
        }
    }
}

proof fn lemma_count_low_bounds(c: Seq<u8>)
    ensures
        0 <= count_low(c) <= c.len(),
    decreases c.len(),
{
    if c.len() > 0 {
        lemma_count_low_bounds(c.drop_last());
    }
}

proof fn lemma_count_low_update(c: Seq<u8>, i: int, v: u8)
    requires
        0 <= i < c.len(),
    ensures
        count_low(c.update(i, v)) == count_low(c) - (if c[i] <= 10 {
            1int
        } else {
            0int
        }) + (if v <= 10 {
            1int
        } else {
            0int
        }),
    decreases c.len(),
{
    if i == c.len() - 1 {
        assert(c.update(i, v).drop_last() =~= c.drop_last());
    } else {
        assert(c.update(i, v).drop_last() =~= c.drop_last().update(i, v));
        lemma_count_low_update(c.drop_last(), i, v);
    }
}

/// State of the cells after the queued cascade work is drained: each queue
/// entry is taken from the back; an in-grid cell below nine is raised by one,
/// a cell at nine or ten jumps to eleven (the "has flashed" sentinel) and its
/// neighbours are queued, anything else is left alone.
pub open spec fn cascade(c: Seq<u8>, q: Seq<(int, int)>, rows: int, cols: int) -> Seq<u8>
    decreases 8 * count_low(c) + q.len(),
    via cascade_dec
{
    if q.len() == 0 {
        c
    } else {
        let (x, y) = q.last();
        let q1 = q.drop_last();
        let i = idx_at(cols, x, y);
        if in_grid(rows, cols, x, y) && 0 <= i < c.len() {
            let v = c[i];
            if v < 9 {
                cascade(c.update(i, (v + 1) as u8), q1, rows, cols)
            } else if v == 9 || v == 10 {
                cascade(c.update(i, 11u8), q1 + neighbor_seq(x, y), rows, cols)
            } else {
                cascade(c, q1, rows, cols)
            }
        } else {
            cascade(c, q1, rows, cols)
        }
    }
}

#[via_fn]
proof fn cascade_dec(c: Seq<u8>, q: Seq<(int, int)>, rows: int, cols: int) {
    lemma_count_low_bounds(c);
    if q.len() > 0 {
        let (x, y) = q.last();
        let i = idx_at(cols, x, y);
        if in_grid(rows, cols, x, y) && 0 <= i < c.len() {
            let v = c[i];
            if v < 9 {
                lemma_count_low_update(c, i, (v + 1) as u8);
            } else if v == 9 || v == 10 {
                lemma_count_low_update(c, i, 11u8);
            }
        }
    }
}

/// Every cell raised by one, as at the start of a tick.
pub open spec fn inc_all(c: Seq<u8>) -> Seq<u8> {
    Seq::new(c.len(), |i: int| (c[i] + 1) as u8)
}

/// Coordinates of the cells among the first `n` that sit exactly at ten,
/// in row-major order: the seeds of the tick's cascade.
pub open spec fn flash_seeds(c: Seq<u8>, cols: int, n: int) -> Seq<(int, int)>
    decreases n,
{
    if n <= 0 {
        Seq::empty()
    } else {
        flash_seeds(c, cols, n - 1) + if c[n - 1] == 10 {
            seq![coord_at(cols, n - 1)]
        } else {
            Seq::empty()
        }
    }
}

/// Cells at ten or above drop back to zero; the rest keep their value.
pub open spec fn reset_spec(c: Seq<u8>) -> Seq<u8> {
    Seq::new(c.len(), |i: int| if c[i] >= 10 { 0u8 } else { c[i] })
}

/// Number of cells at ten or above: the cells that flashed this tick.
pub open spec fn count_high(c: Seq<u8>) -> int
    decreases c.len(),
{
    if c.len() == 0 {
        0
    } else {
        count_high(c.drop_last()) + if c.last() >= 10 {
            1int
        } else {
            0int
        }
    }
}

proof fn lemma_count_high_bounds(c: Seq<u8>)
    ensures
        0 <= count_high(c) <= c.len(),
    decreases c.len(),
{
    if c.len() > 0 {
        lemma_count_high_bounds(c.drop_last());
    }
}

/// The grid after the full cascade of one tick, before the reset.
pub open spec fn cascaded(c: Seq<u8>, rows: int, cols: int) -> Seq<u8> {
    cascade(inc_all(c), flash_seeds(inc_all(c), cols, c.len() as int), rows, cols)
}

/// The grid after one complete tick.
pub open spec fn tick_state(c: Seq<u8>, rows: int, cols: int) -> Seq<u8> {
    reset_spec(cascaded(c, rows, cols))
}

/// Number of flashes in one complete tick.
pub open spec fn tick_flashes(c: Seq<u8>, rows: int, cols: int) -> int {
    count_high(cascaded(c, rows, cols))
}

/// The grid after `n` complete ticks.
pub open spec fn run_state(c: Seq<u8>, rows: int, cols: int, n: nat) -> Seq<u8>
    decreases n,
{
    if n == 0 {
        c
    } else {
        tick_state(run_state(c, rows, cols, (n - 1) as nat), rows, cols)
    }
}

/// Total number of flashes over `n` complete ticks.
pub open spec fn total_flashes(c: Seq<u8>, rows: int, cols: int, n: nat) -> int
    decreases n,
{
    if n == 0 {
        0
    } else {
        total_flashes(c, rows, cols, (n - 1) as nat) + tick_flashes(
            run_state(c, rows, cols, (n - 1) as nat),
            rows,
            cols,
        )
    }
}

/// Running `a` ticks and then `b` more visits exactly the states of one
/// `a + b` tick run.
pub proof fn lemma_run_state_split(c: Seq<u8>, rows: int, cols: int, a: nat, b: nat)
    ensures
        run_state(c, rows, cols, a + b) == run_state(run_state(c, rows, cols, a), rows, cols, b),
    decreases b,
{
    if b > 0 {
        lemma_run_state_split(c, rows, cols, a, (b - 1) as nat);
    }
}

/// Tick composition: the flash total of an `a + b` tick run equals the total
/// of an `a` tick run plus the total of a `b` tick run started from where the
/// first run left off.
pub proof fn lemma_total_flashes_split(c: Seq<u8>, rows: int, cols: int, a: nat, b: nat)
    ensures
        total_flashes(c, rows, cols, a + b) == total_flashes(c, rows, cols, a) + total_flashes(
            run_state(c, rows, cols, a),
            rows,
            cols,
            b,
        ),
    decreases b,
{
    if b > 0 {
        lemma_total_flashes_split(c, rows, cols, a, (b - 1) as nat);
        lemma_run_state_split(c, rows, cols, a, (b - 1) as nat);
    }
}

/// After any complete tick every cell lies between zero and nine.
pub proof fn lemma_tick_in_range(c: Seq<u8>, rows: int, cols: int)
    ensures
        forall|i: int|
            0 <= i < tick_state(c, rows, cols).len() ==> 0 <= #[trigger] tick_state(
                c,
                rows,
                cols,
            )[i] <= 9,
{
}

/// The grid synchronizes at tick `n + 1`: after `n` complete ticks, the next
/// tick flashes every cell at once.
pub open spec fn synchronized_at(c: Seq<u8>, rows: int, cols: int, n: nat) -> bool {
    tick_flashes(run_state(c, rows, cols, n), rows, cols) == rows * cols
}

impl Field {
    /// Shape invariant: a non-empty rectangle of bounded size whose cell
    /// vector has exactly one entry per cell.
    pub open spec fn wf(self) -> bool {
        &&& 1 <= self.rows <= MAX_DIM
        &&& 1 <= self.cols <= MAX_DIM
        &&& self.numbers@.len() == self.rows * self.cols
    }

    /// Every cell is at its resting value, at most nine.
    pub open spec fn at_rest(self) -> bool {
        forall|i: int| 0 <= i < self.numbers@.len() ==> self.numbers@[i] <= 9
    }

    /// Reads an energy grid from a rectangular block of digit lines. Fails
    /// exactly when the lines are not a digit rectangle or a side exceeds
    /// `MAX_DIM`.
    pub fn from_str(s: &[u8]) -> (r: Option<Field>)
        ensures
            match r {
                Some(f) => {
                    &&& f.wf()
                    &&& f.at_rest()
                    &&& bytes::good_grid(bytes::lines_spec(s@))
                    &&& f.rows == bytes::lines_spec(s@).len()
                    &&& f.cols == bytes::lines_spec(s@)[0].len()
                    &&& forall|k: int|
                        0 <= k < f.numbers@.len() ==> #[trigger] f.numbers@[k] == bytes::grid_cell(
                            bytes::lines_spec(s@),
                            f.cols as int,
                            k,
                        )
                },
                None => !(bytes::good_grid(bytes::lines_spec(s@)) && bytes::lines_spec(s@).len()
                    <= MAX_DIM && bytes::lines_spec(s@)[0].len() <= MAX_DIM),
            },
    {
        match bytes::parse_digit_grid(s, MAX_DIM) {
            Some((numbers, rows, cols)) => Some(Field { numbers, rows, cols }),
            None => None,
        }
    }

    /// The energy value at `(x, y)`, or nothing when outside the grid.
    pub fn get(&self, x: isize, y: isize) -> (r: Option<u8>)
        requires
            self.wf(),
        ensures
            match r {
                Some(v) => in_grid(self.rows as int, self.cols as int, x as int, y as int) && v
                    == self.numbers@[idx_at(self.cols as int, x as int, y as int)],
                None => !in_grid(self.rows as int, self.cols as int, x as int, y as int),
            },
    {
        if x < self.cols as isize && 0 <= x && y < self.rows as isize && 0 <= y {
            proof {
                assert(0 <= (y as int) * (self.cols as int) + (x as int) < (self.rows as int) * (
                self.cols as int) && (self.rows as int) * (self.cols as int) <= 32767 * 32767 && (
                self.cols as int) * (y as int) == (y as int) * (self.cols as int)) by (
                nonlinear_arith)
                    requires
                        0 <= (x as int) < (self.cols as int),
                        0 <= (y as int) < (self.rows as int),
                        (self.rows as int) <= 32767,
                        (self.cols as int) <= 32767,
                ;
            }
            Some(self.numbers[self.cols * (y as usize) + (x as usize)])
        } else {
            None
        }
    }

    /// Cell coordinates of row-major position `index`.
    pub fn get_coord(&self, index: usize) -> (r: (isize, isize))
        requires
            self.wf(),
            index < self.numbers@.len(),
        ensures
            (r.0 as int, r.1 as int) == coord_at(self.cols as int, index as int),
    {
        proof {
            assert((self.rows as int) * (self.cols as int) <= 32767 * 32767) by (nonlinear_arith)
                requires
                    1 <= (self.rows as int) <= 32767,
                    1 <= (self.cols as int) <= 32767,
            ;
            assert((index as int) / (self.cols as int) <= index as int) by (nonlinear_arith)
                requires
                    (self.cols as int) >= 1,
                    (index as int) >= 0,
            ;
        }
        ((index % self.cols) as isize, (index / self.cols) as isize)
    }

    /// Runs `n` ticks, returning the total number of flashes.
    pub fn n_step(&mut self, n: usize) -> (sum: usize)
        requires
            old(self).wf(),
            old(self).at_rest(),
            n * (old(self).rows * old(self).cols) <= usize::MAX,
        ensures
            final(self).wf(),
            final(self).at_rest(),
            final(self).rows == old(self).rows,
            final(self).cols == old(self).cols,
            final(self).numbers@ == run_state(
                old(self).numbers@,
                old(self).rows as int,
                old(self).cols as int,
                n as nat,
            ),
            sum == total_flashes(
                old(self).numbers@,
                old(self).rows as int,
                old(self).cols as int,
                n as nat,
            ),
    {
        let ghost c0 = self.numbers@;
        let ghost rows = self.rows as int;
        let ghost cols = self.cols as int;
        let mut sum: usize = 0;
        let mut k: usize = 0;
        while k < n
            invariant
                self.wf(),
                self.at_rest(),
                self.rows == old(self).rows,
                self.cols == old(self).cols,
                rows == self.rows as int,
                cols == self.cols as int,
                k <= n,
                n * (self.rows * self.cols) <= usize::MAX,
                self.numbers@ == run_state(c0, rows, cols, k as nat),
                sum == total_flashes(c0, rows, cols, k as nat),
                sum <= k * (self.rows * self.cols),
            decreases n - k,
        {
            let f = self.step();
            proof {
                assert(sum + f <= (k + 1) * (self.rows * self.cols) <= n * (self.rows
                    * self.cols)) by (nonlinear_arith)
                    requires
                        sum <= k * (self.rows * self.cols),
                        f <= self.rows * self.cols,
                        k + 1 <= n,
                        0 <= self.rows * self.cols,
                ;
            }
            sum = sum + f;
            k = k + 1;
        }
        sum
    }

    /// One tick: raise every cell, cascade the flashes, count and reset them.
    pub fn step(&mut self) -> (flashes: usize)
        requires
            old(self).wf(),
            old(self).at_rest(),
        ensures
            final(self).wf(),
            final(self).at_rest(),
            final(self).rows == old(self).rows,
            final(self).cols == old(self).cols,
            final(self).numbers@ == tick_state(
                old(self).numbers@,
                old(self).rows as int,
                old(self).cols as int,
            ),
            flashes == tick_flashes(
                old(self).numbers@,
                old(self).rows as int,
                old(self).cols as int,
            ),
            flashes <= old(self).rows * old(self).cols,
    {
        let ghost c0 = self.numbers@;
        let ghost rows = self.rows as int;
        let ghost cols = self.cols as int;
        let len = self.numbers.len();

        // Raise every cell by one.
        let mut idx: usize = 0;
        while idx < len
            invariant
                self.rows == old(self).rows,
                self.cols == old(self).cols,
                self.numbers@.len() == len,
                c0.len() == len,
                idx <= len,
                forall|k: int| 0 <= k < len ==> c0[k] <= 9,
                forall|k: int| 0 <= k < idx ==> self.numbers@[k] == inc_all(c0)[k],
                forall|k: int| idx <= k < len ==> self.numbers@[k] == c0[k],
            decreases len - idx,
        {
            let v = self.numbers[idx];
            proof {
                assert(self.numbers@[idx as int] == c0[idx as int]);
            }
            self.numbers.set(idx, v + 1);
            idx = idx + 1;
        }
        proof {
            assert(self.numbers@ =~= inc_all(c0));
        }
        let ghost c1 = self.numbers@;

        // Queue the cells that reached the flash threshold.
        let mut que: Vec<(isize, isize)> = Vec::new();
        let mut idx: usize = 0;
        while idx < len
            invariant
                self.wf(),
                self.rows == old(self).rows,
                self.cols == old(self).cols,
                self.numbers@ == c1,
                c1.len() == len,
                idx <= len,
                qview(que@) == flash_seeds(c1, cols, idx as int),
                rows == self.rows as int,
                cols == self.cols as int,
            decreases len - idx,
        {
            if self.numbers[idx] == 10 {
                let coord = self.get_coord(idx);
                que.push(coord);
                proof {
                    assert(qview(que@) =~= flash_seeds(c1, cols, idx + 1));
                }
            } else {
                proof {
                    assert(qview(que@) =~= flash_seeds(c1, cols, idx + 1));
                }
            }
            idx = idx + 1;
        }

        // Drain the cascade queue.
        let ghost target = cascade(c1, qview(que@), rows, cols);
        proof {
            assert(forall|k: int| 0 <= k < len ==> c1[k] <= 10);
        }
        loop
            invariant
                self.wf(),
                self.rows == old(self).rows,
                self.cols == old(self).cols,
                rows == self.rows as int,
                cols == self.cols as int,
                self.numbers@.len() == len,
                forall|k: int| 0 <= k < len ==> self.numbers@[k] <= 11,
                cascade(self.numbers@, qview(que@), rows, cols) == target,
            ensures
                self.wf(),
                self.rows == old(self).rows,
                self.cols == old(self).cols,
                self.numbers@.len() == len,
                forall|k: int| 0 <= k < len ==> self.numbers@[k] <= 11,
                que@.len() == 0,
                cascade(self.numbers@, qview(que@), rows, cols) == target,
            decreases 8 * count_low(self.numbers@) + que@.len(),
        {
            proof {
                lemma_count_low_bounds(self.numbers@);
            }
            let ghost pre_q = que@;
            let coord = match que.pop() {
                Some(p) => p,
                None => { break ; },
            };
            let ghost q_before = qview(pre_q);
            proof {
                assert(que@ =~= pre_q.drop_last());
                assert(q_before.last() == (coord.0 as int, coord.1 as int));
                assert(q_before.drop_last() =~= qview(que@));
            }
            let (x, y) = coord;
            if x < self.cols as isize && 0 <= x && y < self.rows as isize && 0 <= y {
                proof {
                    assert(0 <= (y as int) * (self.cols as int) + (x as int) < (self.rows as int)
                        * (self.cols as int) && (self.rows as int) * (self.cols as int) <= 32767
                        * 32767 && (self.cols as int) * (y as int) == (y as int) * (
                    self.cols as int)) by (nonlinear_arith)
                        requires
                            0 <= (x as int) < (self.cols as int),
                            0 <= (y as int) < (self.rows as int),
                            (self.rows as int) <= 32767,
                            (self.cols as int) <= 32767,
                    ;
                }
                let i = self.cols * (y as usize) + (x as usize);
                let v = self.numbers[i];
                proof {
                    assert(i as int == idx_at(cols, x as int, y as int));
                    assert(self.numbers@[i as int] <= 11);
                }
                if v < 9 {
                    proof {
                        lemma_count_low_update(self.numbers@, i as int, (v + 1) as u8);
                    }
                    self.numbers.set(i, v + 1);
                } else if v == 9 || v == 10 {
                    proof {
                        lemma_count_low_update(self.numbers@, i as int, 11u8);
                    }
                    self.numbers.set(i, 11);
                    que.push((x, y + 1));
                    que.push((x, y - 1));
                    que.push((x + 1, y));
                    que.push((x - 1, y));
                    que.push((x + 1, y + 1));
                    que.push((x + 1, y - 1));
                    que.push((x - 1, y - 1));
                    que.push((x - 1, y + 1));
                    proof {
                        assert(qview(que@) =~= q_before.drop_last() + neighbor_seq(
                            x as int,
                            y as int,
                        ));
                    }
                }
            }
        }
        proof {
            assert(self.numbers@ == target);
            assert(target == cascaded(c0, rows, cols));
        }
        let ghost c2 = self.numbers@;

        // Count and reset the flashed cells.
        let mut flashes: usize = 0;
        let mut idx: usize = 0;
        while idx < len
            invariant
                self.rows == old(self).rows,
                self.cols == old(self).cols,
                self.numbers@.len() == len,
                c2.len() == len,
                idx <= len,
                flashes <= idx,
                forall|k: int| 0 <= k < len ==> c2[k] <= 11,
                forall|k: int| 0 <= k < idx ==> self.numbers@[k] == reset_spec(c2)[k],
                forall|k: int| idx <= k < len ==> self.numbers@[k] == c2[k],
                flashes == count_high(c2.take(idx as int)),
            decreases len - idx,
        {
            proof {
                assert(c2.take(idx + 1).drop_last() =~= c2.take(idx as int));
                assert(c2.take(idx + 1).last() == c2[idx as int]);
            }
            if self.numbers[idx] >= 10 {
                self.numbers.set(idx, 0);
                flashes = flashes + 1;
            }
            idx = idx + 1;
        }
        proof {
            assert(c2.take(len as int) =~= c2);
            assert(self.numbers@ =~= reset_spec(c2));
        }
        flashes
    }
}


/// One hundred ticks of the grid: the total number of flashes.
pub fn part_one(field: &Field) -> (r: usize)
    requires
        field.wf(),
        field.at_rest(),
        100 * (field.rows * field.cols) <= usize::MAX,
    ensures
        r == total_flashes(field.numbers@, field.rows as int, field.cols as int, 100),
{
    let mut priv_field = Field {
        numbers: bytes::copy_bytes(&field.numbers),
        rows: field.rows,
        cols: field.cols,
    };
    priv_field.n_step(100)
}

/// The first tick (counting from one) in which every cell flashes.
pub fn part_two(field: &Field) -> (t: usize)
    requires
        field.wf(),
        field.at_rest(),
        exists|n: nat|
            n < usize::MAX && synchronized_at(
                field.numbers@,
                field.rows as int,
                field.cols as int,
                n,
            ),
    ensures
        t >= 1,
        synchronized_at(field.numbers@, field.rows as int, field.cols as int, (t - 1) as nat),
        forall|k: nat|
            k < t - 1 ==> !synchronized_at(field.numbers@, field.rows as int, field.cols as int, k),
{
    let ghost c0 = field.numbers@;
    let ghost rows = field.rows as int;
    let ghost cols = field.cols as int;
    let ghost n0 = choose|n: nat|
        n < usize::MAX && synchronized_at(c0, rows, cols, n);
    let mut priv_field = Field {
        numbers: bytes::copy_bytes(&field.numbers),
        rows: field.rows,
        cols: field.cols,
    };
    let len = priv_field.numbers.len();
    let mut steps: usize = 1;
    loop
        invariant_except_break
            priv_field.numbers@ == run_state(c0, rows, cols, (steps - 1) as nat),
        invariant
            priv_field.wf(),
            priv_field.at_rest(),
            priv_field.rows == field.rows,
            priv_field.cols == field.cols,
            rows == field.rows as int,
            cols == field.cols as int,
            c0 == field.numbers@,
            len == rows * cols,
            1 <= steps,
            steps - 1 <= n0,
            n0 < usize::MAX,
            synchronized_at(c0, rows, cols, n0),
            forall|k: nat| k < steps - 1 ==> !synchronized_at(c0, rows, cols, k),
        ensures
            1 <= steps,
            synchronized_at(c0, rows, cols, (steps - 1) as nat),
            forall|k: nat| k < steps - 1 ==> !synchronized_at(c0, rows, cols, k),
        decreases n0 + 1 - steps,
    {
        let flashes = priv_field.step();
        if flashes >= len {
            break ;
        }
        proof {
            assert(!synchronized_at(c0, rows, cols, (steps - 1) as nat));
            if n0 < steps {
                assert(n0 == steps - 1 || n0 < steps - 1);
                assert(false);
            }
        }
        steps = steps + 1;
    }
    steps
}

/// The queue of cell coordinates, seen as a mathematical sequence.
pub open spec fn qview(q: Seq<(isize, isize)>) -> Seq<(int, int)> {
    q.map_values(|p: (isize, isize)| (p.0 as int, p.1 as int))
}

} // verus!
