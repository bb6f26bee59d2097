//! Smoke basins: a height map of digits. Low points sit strictly below all
//! their four neighbours; a basin is the flood-filled region of heights
//! below nine around a low point. The answers are the summed risk levels of
//! the low points and the product of the three largest basins.

use crate::bytes;
use vstd::pervasive::VecAdditionalExecFns;
use vstd::prelude::*;

verus! {

/// Largest accepted row or column count.
pub const MAX_DIM: usize = 32767;

pub struct Field {
    pub numbers: Vec<u8>,
    pub rows: usize,
    pub cols: usize,
}

pub open spec fn in_grid(rows: int, cols: int, x: int, y: int) -> bool {
    0 <= x < cols && 0 <= y < rows
}

/// Height at `(x, y)` of the row-major map.
pub open spec fn height(c: Seq<u8>, cols: int, x: int, y: int) -> int {
    c[y * cols + x] as int
}

/// `(x, y)` is a low point: inside the grid, and every in-grid neighbour is
/// strictly higher.
pub open spec fn is_low(c: Seq<u8>, rows: int, cols: int, x: int, y: int) -> bool {
    &&& in_grid(rows, cols, x, y)
    &&& (in_grid(rows, cols, x, y + 1) ==> height(c, cols, x, y + 1) > height(c, cols, x, y))
    &&& (in_grid(rows, cols, x, y - 1) ==> height(c, cols, x, y - 1) > height(c, cols, x, y))
    &&& (in_grid(rows, cols, x + 1, y) ==> height(c, cols, x + 1, y) > height(c, cols, x, y))
    &&& (in_grid(rows, cols, x - 1, y) ==> height(c, cols, x - 1, y) > height(c, cols, x, y))
}

/// The low points among the first `t` cells in column-major scan order
/// (`x` outer, `y` inner, `t` counting `x * rows + y`).
pub open spec fn low_points_spec(c: Seq<u8>, rows: int, cols: int, t: int) -> Seq<(int, int)>
    decreases t,
{
    if t <= 0 {
        Seq::empty()
    } else {
        low_points_spec(c, rows, cols, t - 1) + if is_low(
            c,
            rows,
            cols,
            (t - 1) / rows,
            (t - 1) % rows,
        ) {
            seq![((t - 1) / rows, (t - 1) % rows)]
        } else {
            Seq::empty()
        }
    }
}

impl Field {
    /// A non-empty rectangle of bounded size, one digit per cell.
    pub open spec fn wf(self) -> bool {
        &&& 1 <= self.rows <= MAX_DIM
        &&& 1 <= self.cols <= MAX_DIM
        &&& self.numbers@.len() == self.rows * self.cols
    }

    /// Reads a height map from a rectangular block of digit lines. Fails
    /// exactly when the lines are not a digit rectangle or a side exceeds
    /// `MAX_DIM`.
    pub fn from_str(s: &[u8]) -> (r: Option<Field>)
        ensures
            match r {
                Some(f) => {
                    &&& f.wf()
                    &&& bytes::good_grid(bytes::lines_spec(s@))
                    &&& f.rows == bytes::lines_spec(s@).len()
                    &&& f.cols == bytes::lines_spec(s@)[0].len()
                    &&& forall|k: int|
                        0 <= k < f.numbers@.len() ==> #[trigger] f.numbers@[k] == bytes::grid_cell(
                            bytes::lines_spec(s@),
                            f.cols as int,
                            k,
                        )
                },
                None => !(bytes::good_grid(bytes::lines_spec(s@)) && bytes::lines_spec(s@).len()
                    <= MAX_DIM && bytes::lines_spec(s@)[0].len() <= MAX_DIM),
            },
    {
        match bytes::parse_digit_grid(s, MAX_DIM) {
            Some((numbers, rows, cols)) => Some(Field { numbers, rows, cols }),
            None => None,
        }
    }

    /// The height at `(x, y)`, or nothing when outside the grid.
    pub fn get(&self, x: isize, y: isize) -> (r: Option<u8>)
        requires
            self.wf(),
        ensures
            match r {
                Some(v) => in_grid(self.rows as int, self.cols as int, x as int, y as int) && v
                    as int == height(self.numbers@, self.cols as int, x as int, y as int),
                None => !in_grid(self.rows as int, self.cols as int, x as int, y as int),
            },
    {
        if x < self.cols as isize && 0 <= x && y < self.rows as isize && 0 <= y {
            let _len = self.numbers.len();
            proof {
                assert(0 <= (y as int) * (self.cols as int) + (x as int) && (y as int) * (
                self.cols as int) + (x as int) < (self.rows as int) * (self.cols as int) && (
                self.cols as int) * (y as int) == (y as int) * (self.cols as int)) by (
                nonlinear_arith)
                    requires
                        0 <= (x as int) && (x as int) < (self.cols as int),
                        0 <= (y as int) && (y as int) < (self.rows as int),
                ;
            }
            Some(self.numbers[self.cols * (y as usize) + (x as usize)])
        } else {
            None
        }
    }

    /// All low points, in scan order (left to right, top to bottom within a
    /// column).
    pub fn get_low_points(&self) -> (r: Vec<(isize, isize)>)
        requires
            self.wf(),
        ensures
            qview(r@) == low_points_spec(
                self.numbers@,
                self.rows as int,
                self.cols as int,
                self.cols as int * self.rows as int,
            ),
    {
        let ghost c = self.numbers@;
        let ghost rows = self.rows as int;
        let ghost cols = self.cols as int;
        let mut low_points: Vec<(isize, isize)> = Vec::new();
        let mut x: usize = 0;
        while x < self.cols
            invariant
                self.wf(),
                rows == self.rows as int,
                cols == self.cols as int,
                c == self.numbers@,
                x <= self.cols,
                qview(low_points@) == low_points_spec(c, rows, cols, x as int * rows),
            decreases self.cols - x,
        {
            let mut y: usize = 0;
            proof {
                assert((x as int) * rows + 0 == x as int * rows) by (nonlinear_arith);
            }
            while y < self.rows
                invariant
                    self.wf(),
                    rows == self.rows as int,
                    cols == self.cols as int,
                    c == self.numbers@,
                    x < self.cols,
                    y <= self.rows,
                    qview(low_points@) == low_points_spec(c, rows, cols, x as int * rows + y),
                decreases self.rows - y,
            {
                let here = match self.get(x as isize, y as isize) {
                    Some(v) => v,
                    None => { return low_points },
                };
                let mut low = true;
                match self.get(x as isize, y as isize + 1) {
                    Some(n) => if n <= here {
                        low = false;
                    },
                    None => {},
                }
                match self.get(x as isize, y as isize - 1) {
                    Some(n) => if n <= here {
                        low = false;
                    },
                    None => {},
                }
                match self.get(x as isize + 1, y as isize) {
                    Some(n) => if n <= here {
                        low = false;
                    },
                    None => {},
                }
                match self.get(x as isize - 1, y as isize) {
                    Some(n) => if n <= here {
                        low = false;
                    },
                    None => {},
                }
                proof {
                    let t = x as int * rows + y + 1;
                    vstd::arithmetic::div_mod::lemma_fundamental_div_mod_converse(
                        t - 1,
                        rows,
                        x as int,
                        y as int,
                    );
                    assert(low == is_low(c, rows, cols, x as int, y as int));
                }
                if low {
                    low_points.push((x as isize, y as isize));
                    proof {
                        assert(qview(low_points@) =~= low_points_spec(
                            c,
                            rows,
                            cols,
                            x as int * rows + y + 1,
                        ));
                    }
                } else {
                    proof {
                        assert(qview(low_points@) =~= low_points_spec(
                            c,
                            rows,
                            cols,
                            x as int * rows + y + 1,
                        ));
                    }
                }
                y = y + 1;
            }
            proof {
                assert((x as int + 1) * rows == x as int * rows + rows) by (nonlinear_arith);
            }
            x = x + 1;
        }
        proof {
            assert(cols * rows == self.cols as int * self.rows as int);
        }
        low_points
    }
}

/// Coordinate pairs as mathematical integers.
pub open spec fn qview(q: Seq<(isize, isize)>) -> Seq<(int, int)> {
    q.map_values(|p: (isize, isize)| (p.0 as int, p.1 as int))
}

/// Risk sum of the points: each contributes its height plus one.
pub open spec fn risk_sum(c: Seq<u8>, cols: int, pts: Seq<(int, int)>) -> int
    decreases pts.len(),
{
    if pts.len() == 0 {
        0
    } else {
        risk_sum(c, cols, pts.drop_last()) + height(c, cols, pts.last().0, pts.last().1) + 1
    }
}

/// Sum of the low points' risk levels (their height plus one each).
pub fn part_one(field: &Field) -> (r: usize)
    requires
        field.wf(),
        256 * (field.cols as int * field.rows as int + 1) <= usize::MAX,
    ensures
        r == risk_sum(
            field.numbers@,
            field.cols as int,
            low_points_spec(
                field.numbers@,
                field.rows as int,
                field.cols as int,
                field.cols as int * field.rows as int,
            ),
        ),
{
    let pts = field.get_low_points();
    let ghost all = low_points_spec(
        field.numbers@,
        field.rows as int,
        field.cols as int,
        field.cols as int * field.rows as int,
    );
    proof {
        lemma_low_points_in_grid(
            field.numbers@,
            field.rows as int,
            field.cols as int,
            field.cols as int * field.rows as int,
        );
        lemma_low_points_count(
            field.numbers@,
            field.rows as int,
            field.cols as int,
            field.cols as int * field.rows as int,
        );
    }
    let n = pts.len();
    let mut sum: usize = 0;
    let mut k: usize = 0;
    while k < n
        invariant
            field.wf(),
            qview(pts@) == all,
            pts@.len() == n,
            all.len() <= field.cols as int * field.rows as int,
            256 * (field.cols as int * field.rows as int + 1) <= usize::MAX,
            forall|t: int|
                0 <= t < all.len() ==> in_grid(
                    field.rows as int,
                    field.cols as int,
                    (#[trigger] all[t]).0,
                    all[t].1,
                ),
            k <= n,
            sum == risk_sum(field.numbers@, field.cols as int, all.take(k as int)),
            sum <= 256 * k,
        decreases n - k,
    {
        let (x, y) = pts[k];
        let v = match field.get(x, y) {
            Some(v) => v,
            None => {
                proof {
                    assert(in_grid(field.rows as int, field.cols as int, all[k as int].0, all[
                        k as int
                    ].1));
                    assert(false);
                }
                return 0;
            },
        };
        proof {
            assert(all.take(k + 1).drop_last() =~= all.take(k as int));
            assert(all.take(k + 1).last() == all[k as int]);
            assert(256 * (k + 1) <= 256 * (field.cols as int * field.rows as int + 1));
        }
        sum = sum + v as usize + 1;
        k = k + 1;
    }
    proof {
        assert(all.take(n as int) =~= all);
    }
    sum
}

proof fn lemma_low_points_in_grid(c: Seq<u8>, rows: int, cols: int, t: int)
    ensures
        forall|k: int|
            0 <= k < low_points_spec(c, rows, cols, t).len() ==> in_grid(
                rows,
                cols,
                (#[trigger] low_points_spec(c, rows, cols, t)[k]).0,
                low_points_spec(c, rows, cols, t)[k].1,
            ),
    decreases t,
{
    if t > 0 {
        lemma_low_points_in_grid(c, rows, cols, t - 1);
        let prev = low_points_spec(c, rows, cols, t - 1);
        let cur = low_points_spec(c, rows, cols, t);
        assert forall|k: int| 0 <= k < cur.len() implies in_grid(
            rows,
            cols,
            (#[trigger] cur[k]).0,
            cur[k].1,
        ) by {
            if k < prev.len() {
                assert(cur[k] == prev[k]);
            }
        }
    }
}

proof fn lemma_low_points_count(c: Seq<u8>, rows: int, cols: int, t: int)
    ensures
        low_points_spec(c, rows, cols, t).len() <= (if t >= 0 {
            t
        } else {
            0
        }),
    decreases t,
{
    if t > 0 {
        lemma_low_points_count(c, rows, cols, t - 1);
    }
}

/// Window cell of a coordinate for the visited map: the window pads the
/// grid by one ring so the fill may queue out-of-grid neighbours.
pub open spec fn widx(cols: int, x: int, y: int) -> int {
    (y + 1) * (cols + 2) + (x + 1)
}

/// Unvisited window cells among the first `n`.
pub open spec fn count_unvisited(vis: Seq<bool>, n: int) -> int
    decreases n,
{
    if n <= 0 {
        0
    } else {
        count_unvisited(vis, n - 1) + if !vis[n - 1] {
            1int
        } else {
            0int
        }
    }
}

proof fn lemma_count_unvisited_bounds(vis: Seq<bool>, n: int)
    ensures
        0 <= count_unvisited(vis, n) <= (if n >= 0 {
            n
        } else {
            0
        }),
    decreases n,
{
    if n > 0 {
        lemma_count_unvisited_bounds(vis, n - 1);
    }
}

proof fn lemma_count_unvisited_update(vis: Seq<bool>, n: int, i: int)
    requires
        0 <= i < vis.len(),
        n <= vis.len(),
        !vis[i],
    ensures
        count_unvisited(vis.update(i, true), n) == count_unvisited(vis, n) - (if i < n {
            1int
        } else {
            0int
        }),
    decreases n,
{
    if n > 0 {
        lemma_count_unvisited_update(vis, n - 1, i);
        if n - 1 != i && 0 <= n - 1 < vis.len() {
            assert(vis.update(i, true)[n - 1] == vis[n - 1]);
        }
    }
}

/// Size of the basin flood from the queued cells: each popped cell is
/// visited once; an in-grid cell below nine counts and spreads to its four
/// neighbours.
pub open spec fn flood(c: Seq<u8>, rows: int, cols: int, vis: Seq<bool>, q: Seq<(int, int)>) -> int
    decreases 5 * count_unvisited(vis, vis.len() as int) + q.len(),
    via flood_dec
{
    if q.len() == 0 {
        0
    } else {
        let (x, y) = q.last();
        let q1 = q.drop_last();
        let w = widx(cols, x, y);
        if 0 <= w < vis.len() {
            if vis[w] {
                flood(c, rows, cols, vis, q1)
            } else {
                let vis2 = vis.update(w, true);
                if in_grid(rows, cols, x, y) && height(c, cols, x, y) < 9 {
                    1 + flood(
                        c,
                        rows,
                        cols,
                        vis2,
                        q1 + seq![(x, y + 1), (x, y - 1), (x + 1, y), (x - 1, y)],
                    )
                } else {
                    flood(c, rows, cols, vis2, q1)
                }
            }
        } else {
            flood(c, rows, cols, vis, q1)
        }
    }
}

#[via_fn]
proof fn flood_dec(c: Seq<u8>, rows: int, cols: int, vis: Seq<bool>, q: Seq<(int, int)>) {
    lemma_count_unvisited_bounds(vis, vis.len() as int);
    if q.len() > 0 {
        let (x, y) = q.last();
        let w = widx(cols, x, y);
        if 0 <= w < vis.len() && !vis[w] {
            let vis2 = vis.update(w, true);
            assert(vis2.len() == vis.len());
            lemma_count_unvisited_update(vis, vis.len() as int, w);
            lemma_count_unvisited_bounds(vis2, vis2.len() as int);
            assert(count_unvisited(vis2, vis2.len() as int) == count_unvisited(
                vis,
                vis.len() as int,
            ) - 1);
        }
    }
}

/// All-false visited window for a grid.
pub open spec fn fresh_window(rows: int, cols: int) -> Seq<bool> {
    Seq::new((((rows + 2) * (cols + 2))) as nat, |i: int| false)
}

/// A flood never counts a cell twice: its size is at most the number of
/// still-unvisited window cells.
proof fn lemma_flood_bounds(c: Seq<u8>, rows: int, cols: int, vis: Seq<bool>, q: Seq<(int, int)>)
    ensures
        0 <= flood(c, rows, cols, vis, q) <= count_unvisited(vis, vis.len() as int),
    decreases 5 * count_unvisited(vis, vis.len() as int) + q.len(),
{
    lemma_count_unvisited_bounds(vis, vis.len() as int);
    if q.len() > 0 {
        let (x, y) = q.last();
        let q1 = q.drop_last();
        let w = widx(cols, x, y);
        if 0 <= w < vis.len() {
            if vis[w] {
                lemma_flood_bounds(c, rows, cols, vis, q1);
            } else {
                let vis2 = vis.update(w, true);
                assert(vis2.len() == vis.len());
                lemma_count_unvisited_update(vis, vis.len() as int, w);
                lemma_count_unvisited_bounds(vis2, vis2.len() as int);
                if in_grid(rows, cols, x, y) && height(c, cols, x, y) < 9 {
                    lemma_flood_bounds(
                        c,
                        rows,
                        cols,
                        vis2,
                        q1 + seq![(x, y + 1), (x, y - 1), (x + 1, y), (x - 1, y)],
                    );
                } else {
                    lemma_flood_bounds(c, rows, cols, vis2, q1);
                }
            }
        } else {
            lemma_flood_bounds(c, rows, cols, vis, q1);
        }
    }
}

/// Basin sizes of the given low points, in order.
pub open spec fn basin_sizes(c: Seq<u8>, rows: int, cols: int, pts: Seq<(int, int)>) -> Seq<usize>
    decreases pts.len(),
{
    if pts.len() == 0 {
        Seq::empty()
    } else {
        basin_sizes(c, rows, cols, pts.drop_last()) + seq![
            flood(c, rows, cols, fresh_window(rows, cols), seq![pts.last()]) as usize,
        ]
    }
}

/// Flood-fills the basin spreading from `start`, mirroring `flood` from a
/// fresh visited window.
fn basin_of(field: &Field, start: (isize, isize)) -> (r: usize)
    requires
        field.wf(),
        in_grid(field.rows as int, field.cols as int, start.0 as int, start.1 as int),
    ensures
        r == flood(
            field.numbers@,
            field.rows as int,
            field.cols as int,
            fresh_window(field.rows as int, field.cols as int),
            seq![(start.0 as int, start.1 as int)],
        ),
{
    let ghost c = field.numbers@;
    let ghost rows = field.rows as int;
    let ghost cols = field.cols as int;
    proof {
        assert((rows + 2) * (cols + 2) <= 32769 * 32769) by (nonlinear_arith)
            requires
                1 <= rows <= 32767,
                1 <= cols <= 32767,
        ;
    }
    let window = (field.rows + 2) * (field.cols + 2);
    let mut vis: Vec<bool> = Vec::new();
    let mut k: usize = 0;
    while k < window
        invariant
            k <= window,
            vis@.len() == k,
            forall|j: int| 0 <= j < k ==> !(#[trigger] vis@[j]),
        decreases window - k,
    {
        vis.push(false);
        k = k + 1;
    }
    proof {
        assert(vis@ =~= fresh_window(rows, cols));
    }
    let mut que: Vec<(isize, isize)> = Vec::new();
    que.push(start);
    let ghost target = flood(c, rows, cols, vis@, qview(que@));
    proof {
        assert(qview(que@) =~= seq![(start.0 as int, start.1 as int)]);
        lemma_flood_bounds(c, rows, cols, vis@, qview(que@));
        lemma_count_unvisited_bounds(vis@, vis@.len() as int);
    }
    let mut size: usize = 0;
    loop
        invariant
            field.wf(),
            c == field.numbers@,
            rows == field.rows as int,
            cols == field.cols as int,
            vis@.len() == window,
            window == (rows + 2) * (cols + 2),
            window <= 32769 * 32769,
            forall|j: int|
                0 <= j < que@.len() ==> -1 <= (#[trigger] que@[j]).0 <= cols && -1 <= que@[j].1
                    <= rows,
            size + flood(c, rows, cols, vis@, qview(que@)) == target,
            target <= window,
            size <= target,
        ensures
            que@.len() == 0,
            size + flood(c, rows, cols, vis@, qview(que@)) == target,
        decreases 5 * count_unvisited(vis@, vis@.len() as int) + que@.len(),
    {
        proof {
            lemma_count_unvisited_bounds(vis@, vis@.len() as int);
            lemma_flood_bounds(c, rows, cols, vis@, qview(que@));
        }
        let ghost pre_q = que@;
        let coord = match que.pop() {
            Some(p) => p,
            None => { break ; },
        };
        let (x, y) = coord;
        proof {
            assert(que@ =~= pre_q.drop_last());
            assert(qview(pre_q).last() == (x as int, y as int));
            assert(qview(pre_q).drop_last() =~= qview(que@));
        }
        proof {
            assert(0 <= (y as int + 1) * (cols + 2) + (x as int + 1) && (y as int + 1) * (cols + 2)
                + (x as int + 1) < (rows + 2) * (cols + 2) && ((field.cols + 2) as int) * (y
                as int + 1) == (y as int + 1) * (cols + 2)) by (nonlinear_arith)
                requires
                    -1 <= (x as int) <= cols,
                    -1 <= (y as int) <= rows,
                    cols == field.cols as int,
            ;
        }
        let wi: usize = ((y + 1) as usize) * (field.cols + 2) + ((x + 1) as usize);
        proof {
            assert(wi as int == widx(cols, x as int, y as int));
        }
        if vis[wi] {
        } else {
            let ghost pre_vis = vis@;
            vis.set(wi, true);
            proof {
                lemma_count_unvisited_update(pre_vis, pre_vis.len() as int, wi as int);
            }
            if 0 <= x && x < field.cols as isize && 0 <= y && y < field.rows as isize {
                let v = match field.get(x, y) {
                    Some(v) => v,
                    None => {
                        proof {
                            assert(false);
                        }
                        break ;
                    },
                };
                if v < 9 {
                    size = size + 1;
                    que.push((x, y + 1));
                    que.push((x, y - 1));
                    que.push((x + 1, y));
                    que.push((x - 1, y));
                    proof {
                        assert(qview(que@) =~= qview(pre_q).drop_last() + seq![
                            (x as int, y as int + 1),
                            (x as int, y as int - 1),
                            (x as int + 1, y as int),
                            (x as int - 1, y as int),
                        ]);
                    }
                }
            }
        }
        proof {
            lemma_flood_bounds(c, rows, cols, vis@, qview(que@));
        }
    }
    size
}

/// Product of the three largest basin sizes, each basin grown from one low
/// point of the height map.
pub fn part_two(field: &Field) -> (r: usize)
    requires
        field.wf(),
        ({
            let sizes = basin_sizes(
                field.numbers@,
                field.rows as int,
                field.cols as int,
                low_points_spec(
                    field.numbers@,
                    field.rows as int,
                    field.cols as int,
                    field.cols as int * field.rows as int,
                ),
            );
            let sorted = sizes.sort_by(|a: usize, b: usize| a <= b);
            &&& sizes.len() >= 3
            &&& sorted[sizes.len() - 1] * sorted[sizes.len() - 2] <= usize::MAX
            &&& sorted[sizes.len() - 1] * sorted[sizes.len() - 2] * sorted[sizes.len() - 3]
                <= usize::MAX
        }),
    ensures
        ({
            let sizes = basin_sizes(
                field.numbers@,
                field.rows as int,
                field.cols as int,
                low_points_spec(
                    field.numbers@,
                    field.rows as int,
                    field.cols as int,
                    field.cols as int * field.rows as int,
                ),
            );
            let sorted = sizes.sort_by(|a: usize, b: usize| a <= b);
            r == sorted[sizes.len() - 1] * sorted[sizes.len() - 2] * sorted[sizes.len() - 3]
        }),
{
    let ghost c = field.numbers@;
    let ghost rows = field.rows as int;
    let ghost cols = field.cols as int;
    let ghost all = low_points_spec(c, rows, cols, cols * rows);
    let pts = field.get_low_points();
    proof {
        lemma_low_points_in_grid(c, rows, cols, cols * rows);
    }
    let n = pts.len();
    let mut clusters: Vec<usize> = Vec::new();
    let mut k: usize = 0;
    while k < n
        invariant
            field.wf(),
            c == field.numbers@,
            rows == field.rows as int,
            cols == field.cols as int,
            all == low_points_spec(c, rows, cols, cols * rows),
            qview(pts@) == all,
            pts@.len() == n,
            forall|t: int|
                0 <= t < all.len() ==> in_grid(rows, cols, (#[trigger] all[t]).0, all[t].1),
            k <= n,
            clusters@ == basin_sizes(c, rows, cols, all.take(k as int)),
        decreases n - k,
    {
        let p = pts[k];
        proof {
            assert(all[k as int] == (p.0 as int, p.1 as int));
        }
        let s = basin_of(field, p);
        clusters.push(s);
        proof {
            assert(all.take(k + 1).drop_last() =~= all.take(k as int));
            assert(all.take(k + 1).last() == all[k as int]);
            assert(clusters@ =~= basin_sizes(c, rows, cols, all.take(k + 1)));
        }
        k = k + 1;
    }
    proof {
        assert(all.take(n as int) =~= all);
    }
    let ghost sizes = basin_sizes(c, rows, cols, all);
    let sorted = bytes::sort_values(clusters);
    proof {
        let le = |a: usize, b: usize| a <= b;
        assert(vstd::relations::total_ordering(le)) by {
            assert forall|a: usize, b: usize, cc: usize| #[trigger]
                le(a, b) && #[trigger] le(b, cc) implies le(a, cc) by {}
        }
        sizes.lemma_sort_by_ensures(le);
        vstd::seq_lib::lemma_sorted_unique(sorted@, sizes.sort_by(le), le);
    }
    let m = sorted.len();
    sorted[m - 1] * sorted[m - 2] * sorted[m - 3]
}

} // verus!
