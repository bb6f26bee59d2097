//! Hydrothermal vents: line segments on a grid. Each segment marks every
//! cell it covers; the answer is the number of cells covered at least
//! twice. Horizontal and vertical segments always count; diagonals only
//! when asked for.

use crate::bytes;
use vstd::pervasive::VecAdditionalExecFns;
use vstd::prelude::*;

verus! {

pub struct Point {
    pub x: i32,
    pub y: i32,
}

pub struct Line {
    pub p1: Point,
    pub p2: Point,
}

pub struct Field {
    pub numbers: Vec<u32>,
    pub rows: usize,
    pub cols: usize,
    pub min_x: i32,
    pub min_y: i32,
}

/// The `t`-th coordinate walking from `p1` towards `p2`.
pub open spec fn walk_at(p1: int, p2: int, t: int) -> int {
    if p2 >= p1 {
        p1 + t
    } else {
        p1 - t
    }
}

/// Steps a walk from `p1` to `p2` takes.
pub open spec fn walk_len(p1: int, p2: int) -> int {
    if p2 >= p1 {
        p2 - p1 + 1
    } else {
        p1 - p2 + 1
    }
}

/// The cells a segment covers, in walking order: a vertical or horizontal
/// run, a lock-stepped diagonal when allowed, or nothing.
pub open spec fn seg_cell(l: Line, t: int) -> (int, int) {
    if l.p1.x == l.p2.x {
        (l.p1.x as int, walk_at(l.p1.y as int, l.p2.y as int, t))
    } else if l.p1.y == l.p2.y {
        (walk_at(l.p1.x as int, l.p2.x as int, t), l.p1.y as int)
    } else {
        (walk_at(l.p1.x as int, l.p2.x as int, t), walk_at(l.p1.y as int, l.p2.y as int, t))
    }
}

/// How many cells the segment covers under the diagonal rule.
pub open spec fn seg_len(l: Line, diagonal: bool) -> int {
    if l.p1.x == l.p2.x {
        walk_len(l.p1.y as int, l.p2.y as int)
    } else if l.p1.y == l.p2.y {
        walk_len(l.p1.x as int, l.p2.x as int)
    } else if diagonal {
        let lx = walk_len(l.p1.x as int, l.p2.x as int);
        let ly = walk_len(l.p1.y as int, l.p2.y as int);
        if lx <= ly {
            lx
        } else {
            ly
        }
    } else {
        0
    }
}

/// Row-major flat cell index of `(x, y)` on a grid whose top-left cell is
/// `(min_x, min_y)`.
pub open spec fn cell_index(cols: int, min_x: int, min_y: int, x: int, y: int) -> int {
    (y - min_y) * cols + (x - min_x)
}

/// The grid counters after marking the first `t` cells of a segment: each
/// in-range cell is raised once (full counters stay put, off-grid cells are
/// ignored).
pub open spec fn mark_cells(
    nums: Seq<u32>,
    rows: int,
    cols: int,
    min_x: int,
    min_y: int,
    l: Line,
    t: int,
) -> Seq<u32>
    decreases t,
{
    if t <= 0 {
        nums
    } else {
        let prev = mark_cells(nums, rows, cols, min_x, min_y, l, t - 1);
        let p = seg_cell(l, t - 1);
        let idx = cell_index(cols, min_x, min_y, p.0, p.1);
        if min_x <= p.0 < min_x + cols && min_y <= p.1 < min_y + rows && idx < prev.len()
            && prev[idx] < u32::MAX {
            prev.update(idx, (prev[idx] + 1) as u32)
        } else {
            prev
        }
    }
}

/// Marking never changes the grid's size.
pub proof fn lemma_mark_cells_len(
    nums: Seq<u32>,
    rows: int,
    cols: int,
    min_x: int,
    min_y: int,
    l: Line,
    t: int,
)
    ensures
        mark_cells(nums, rows, cols, min_x, min_y, l, t).len() == nums.len(),
    decreases t,
{
    if t > 0 {
        lemma_mark_cells_len(nums, rows, cols, min_x, min_y, l, t - 1);
    }
}

/// Marking a segment is local: an in-grid cell the segment's first `t`
/// steps never visit keeps its counter.
pub proof fn lemma_mark_cells_frame(
    nums: Seq<u32>,
    rows: int,
    cols: int,
    min_x: int,
    min_y: int,
    l: Line,
    t: int,
    x: int,
    y: int,
)
    requires
        cols >= 1,
        nums.len() == rows * cols,
        min_x <= x < min_x + cols,
        min_y <= y < min_y + rows,
        forall|u: int| 0 <= u < t ==> #[trigger] seg_cell(l, u) != (x, y),
    ensures
        mark_cells(nums, rows, cols, min_x, min_y, l, t)[cell_index(cols, min_x, min_y, x, y)]
            == nums[cell_index(cols, min_x, min_y, x, y)],
    decreases t,
{
    let idx = cell_index(cols, min_x, min_y, x, y);
    assert(0 <= idx && idx < rows * cols) by (nonlinear_arith)
        requires
            idx == (y - min_y) * cols + (x - min_x),
            0 <= x - min_x < cols,
            0 <= y - min_y < rows,
    ;
    if t > 0 {
        lemma_mark_cells_frame(nums, rows, cols, min_x, min_y, l, t - 1, x, y);
        lemma_mark_cells_len(nums, rows, cols, min_x, min_y, l, t - 1);
        let p = seg_cell(l, t - 1);
        if min_x <= p.0 < min_x + cols && min_y <= p.1 < min_y + rows {
            let pidx = cell_index(cols, min_x, min_y, p.0, p.1);
            if pidx == idx {
                assert(p.0 == x && p.1 == y) by (nonlinear_arith)
                    requires
                        pidx == (p.1 - min_y) * cols + (p.0 - min_x),
                        idx == (y - min_y) * cols + (x - min_x),
                        pidx == idx,
                        0 <= p.0 - min_x < cols,
                        0 <= x - min_x < cols,
                        cols >= 1,
                ;
                assert(seg_cell(l, t - 1) != (x, y));
                assert(false);
            }
        }
    }
}

/// The grid counters after adding the first `n` segments.
pub open spec fn mark_lines(
    nums: Seq<u32>,
    rows: int,
    cols: int,
    min_x: int,
    min_y: int,
    ls: Seq<Line>,
    diagonal: bool,
    n: int,
) -> Seq<u32>
    decreases n,
{
    if n <= 0 {
        nums
    } else {
        let prev = mark_lines(nums, rows, cols, min_x, min_y, ls, diagonal, n - 1);
        mark_cells(prev, rows, cols, min_x, min_y, ls[n - 1], seg_len(ls[n - 1], diagonal))
    }
}

impl Line {
    /// Reads one `x1,y1 -> x2,y2` segment line; fails exactly when the
    /// arrow or a coordinate is missing or out of range.
    pub fn from_str(s: &[u8]) -> (r: Option<Line>)
        ensures
            match r {
                Some(l) => line_ok(s@) && (l.p1.x as int, l.p1.y as int, l.p2.x as int, l.p2.y
                    as int) == line_coords(s@),
                None => !line_ok(s@),
            },
    {
        let g = match find_gt(s) {
            Some(g) => g,
            None => { return None },
        };
        if g < 2 || s.len() - g < 2 {
            return None;
        }
        if s[g - 1] != 45 || s[g - 2] != 32 || s[g + 1] != 32 {
            return None;
        }
        let left = &s[0..g - 2];
        let right = &s[g + 2..s.len()];
        proof {
            assert(left@ =~= s@.take(g as int - 2));
            assert(right@ =~= s@.skip(g as int + 2));
        }
        let p1 = match parse_point(left) {
            Some(p) => p,
            None => { return None },
        };
        let p2 = match parse_point(right) {
            Some(p) => p,
            None => { return None },
        };
        Some(Line { p1, p2 })
    }
}

/// Position of the line's first `>`, if any.
fn find_gt(line: &[u8]) -> (r: Option<usize>)
    ensures
        match r {
            Some(i) => i == bytes::find_sep(line@, 62) && i < line@.len(),
            None => bytes::find_sep(line@, 62) == line@.len(),
        },
{
    let mut i: usize = 0;
    while i < line.len()
        invariant
            i <= line@.len(),
            forall|j: int| 0 <= j < i ==> line@[j] != 62,
        decreases line@.len() - i,
    {
        if line[i] == 62 {
            proof {
                bytes::lemma_find_sep_is(line@, 62, i as int);
            }
            return Some(i);
        }
        i = i + 1;
    }
    proof {
        bytes::lemma_find_sep(line@, 62);
        if bytes::find_sep(line@, 62) < line@.len() {
            assert(line@[bytes::find_sep(line@, 62) as int] == 62);
        }
    }
    None
}

/// An `x,y` pair of numbers that fit in an `i32`.
pub open spec fn point_ok(s: Seq<u8>) -> bool {
    let toks = bytes::split_spec(s, 44);
    &&& toks.len() >= 2
    &&& bytes::is_signed_digits(toks[0])
    &&& i32::MIN <= bytes::signed_val(toks[0]) <= i32::MAX
    &&& bytes::is_signed_digits(toks[1])
    &&& i32::MIN <= bytes::signed_val(toks[1]) <= i32::MAX
}

/// The coordinates an `x,y` pair encodes.
pub open spec fn point_coords(s: Seq<u8>) -> (int, int) {
    let toks = bytes::split_spec(s, 44);
    (bytes::signed_val(toks[0]), bytes::signed_val(toks[1]))
}

/// The line is two `x,y` pairs around an ` -> ` arrow.
pub open spec fn line_ok(s: Seq<u8>) -> bool {
    let g = bytes::find_sep(s, 62) as int;
    &&& g < s.len()
    &&& g >= 2
    &&& s.len() - g >= 2
    &&& s[g - 1] == 45
    &&& s[g - 2] == 32
    &&& s[g + 1] == 32
    &&& point_ok(s.take(g - 2))
    &&& point_ok(s.skip(g + 2))
}

/// The two endpoints the line encodes.
pub open spec fn line_coords(s: Seq<u8>) -> (int, int, int, int) {
    let g = bytes::find_sep(s, 62) as int;
    let a = point_coords(s.take(g - 2));
    let b = point_coords(s.skip(g + 2));
    (a.0, a.1, b.0, b.1)
}

/// Reads an `x,y` pair.
fn parse_point(s: &[u8]) -> (r: Option<Point>)
    ensures
        match r {
            Some(p) => point_ok(s@) && (p.x as int, p.y as int) == point_coords(s@),
            None => !point_ok(s@),
        },
{
    let toks = bytes::split_bytes(s, 44);
    if toks.len() < 2 {
        return None;
    }
    proof {
        assert(toks.deep_view()[0] == toks@[0]@);
        assert(toks.deep_view()[1] == toks@[1]@);
    }
    let x = match bytes::parse_i32(toks[0].as_slice()) {
        Some(v) => v,
        None => { return None },
    };
    let y = match bytes::parse_i32(toks[1].as_slice()) {
        Some(v) => v,
        None => { return None },
    };
    Some(Point { x, y })
}

/// The segment a well-formed line encodes.
pub open spec fn seg_of(line: Seq<u8>) -> Line {
    let c = line_coords(line);
    Line {
        p1: Point { x: c.0 as i32, y: c.1 as i32 },
        p2: Point { x: c.2 as i32, y: c.3 as i32 },
    }
}

/// One bound update: a value below the floor lowers it, otherwise one
/// above the ceiling raises it.
pub open spec fn umm(val: int, min: int, max: int) -> (int, int) {
    if val < min {
        (val, max)
    } else if val > max {
        (min, val)
    } else {
        (min, max)
    }
}

/// The grid bounds after folding in the first `n` segments' endpoints,
/// starting from the origin: `(min_x, max_x, min_y, max_y)`.
pub open spec fn fold_bounds(ls: Seq<Seq<u8>>, n: int) -> (int, int, int, int)
    decreases n,
{
    if n <= 0 {
        (0, 0, 0, 0)
    } else {
        let b = fold_bounds(ls, n - 1);
        let l = seg_of(ls[n - 1]);
        let x1 = umm(l.p1.x as int, b.0, b.1);
        let x2 = umm(l.p2.x as int, x1.0, x1.1);
        let y1 = umm(l.p1.y as int, b.2, b.3);
        let y2 = umm(l.p2.y as int, y1.0, y1.1);
        (x2.0, x2.1, y2.0, y2.1)
    }
}

/// Every line is a well-formed segment.
pub open spec fn segments_ok(ls: Seq<Seq<u8>>) -> bool {
    forall|t: int| 0 <= t < ls.len() ==> line_ok(#[trigger] ls[t])
}

/// Each folded-in endpoint sits inside the final bounds.
proof fn lemma_bounds_cover(ls: Seq<Seq<u8>>, n: int, m: int)
    requires
        0 <= n <= m,
    ensures
        ({
            let b = fold_bounds(ls, m);
            &&& b.0 <= b.1
            &&& b.2 <= b.3
            &&& b.0 <= 0 && 0 <= b.1 && b.2 <= 0 && 0 <= b.3
            &&& forall|t: int|
                0 <= t < n ==> b.0 <= (#[trigger] seg_of(ls[t])).p1.x as int <= b.1 && b.0 <= seg_of(
                    ls[t],
                ).p2.x as int <= b.1 && b.2 <= seg_of(ls[t]).p1.y as int <= b.3 && b.2 <= seg_of(
                    ls[t],
                ).p2.y as int <= b.3
        }),
    decreases m, m - n,
{
    if n == m {
        if m > 0 {
            lemma_bounds_cover(ls, m - 1, m - 1);
        }
    } else {
        lemma_bounds_cover(ls, n, m - 1);
        lemma_bounds_cover(ls, m - 1, m - 1);
    }
}

impl Field {
    /// Reads segments from `x1,y1 -> x2,y2` lines and marks every covered
    /// cell on a grid just wide enough for them (the origin always
    /// included). Fails exactly when some line is malformed or the grid
    /// would outgrow the size bound.
    pub fn from_str(input: &[u8], diagonal: bool) -> (r: Option<Field>)
        ensures
            ({
                let ls = bytes::lines_spec(input@);
                let b = fold_bounds(ls, ls.len() as int);
                match r {
                    Some(f) => {
                        &&& segments_ok(ls)
                        &&& f.wf()
                        &&& f.min_x as int == b.0
                        &&& f.min_y as int == b.2
                        &&& f.cols as int == b.1 - b.0 + 1
                        &&& f.rows as int == b.3 - b.2 + 1
                        &&& f.numbers@ == mark_all(ls, b.1 - b.0 + 1, b.0, b.2, b.3 - b.2 + 1, diagonal, ls.len() as int)
                    },
                    None => !(segments_ok(ls) && b.1 - b.0 + 1 <= 0x7fff && b.3 - b.2 + 1
                        <= 0x7fff),
                }
            }),
    {
        let mut lines = bytes::split_bytes(input, 10);
        proof {
            assert(lines.deep_view().last() == lines@[lines@.len() - 1]@);
        }
        if lines[lines.len() - 1].len() == 0 {
            lines.pop();
            proof {
                assert(lines.deep_view() =~~= bytes::lines_spec(input@));
            }
        } else {
            proof {
                assert(lines.deep_view() =~~= bytes::lines_spec(input@));
            }
        }
        let ghost ls = bytes::lines_spec(input@);
        let nlines = lines.len();
        let mut segs: Vec<Line> = Vec::new();
        let mut min_x: i32 = 0;
        let mut max_x: i32 = 0;
        let mut min_y: i32 = 0;
        let mut max_y: i32 = 0;
        let mut t: usize = 0;
        while t < nlines
            invariant
                ls == bytes::lines_spec(input@),
                lines.deep_view() == ls,
                lines@.len() == nlines,
                t <= nlines,
                segs@.len() == t,
                forall|u: int| 0 <= u < t ==> line_ok(#[trigger] ls[u]),
                forall|u: int| 0 <= u < t ==> (#[trigger] segs@[u]) == seg_of(ls[u]),
                (min_x as int, max_x as int, min_y as int, max_y as int) == fold_bounds(
                    ls,
                    t as int,
                ),
            decreases nlines - t,
        {
            proof {
                assert(lines.deep_view()[t as int] == lines@[t as int]@);
            }
            let line = &lines[t];
            let l = match Line::from_str(line.as_slice()) {
                Some(l) => l,
                None => { return None },
            };
            Field::update_min_max(l.p1.x, &mut min_x, &mut max_x);
            Field::update_min_max(l.p2.x, &mut min_x, &mut max_x);
            Field::update_min_max(l.p1.y, &mut min_y, &mut max_y);
            Field::update_min_max(l.p2.y, &mut min_y, &mut max_y);
            proof {
                assert(l == seg_of(ls[t as int]));
            }
            segs.push(l);
            t = t + 1;
        }
        let width: i64 = max_x as i64 - min_x as i64 + 1;
        let height: i64 = max_y as i64 - min_y as i64 + 1;
        proof {
            lemma_bounds_cover(ls, nlines as int, nlines as int);
        }
        if width > 0x7fff || height > 0x7fff {
            return None;
        }
        let cols = width as usize;
        let rows = height as usize;
        proof {
            assert((rows as int) * (cols as int) <= 0x7fff * 0x7fff && (cols as int) * (
            rows as int) == (rows as int) * (cols as int)) by (nonlinear_arith)
                requires
                    1 <= rows <= 0x7fff,
                    1 <= cols <= 0x7fff,
            ;
        }
        let total = rows * cols;
        let mut numbers: Vec<u32> = Vec::new();
        let mut k: usize = 0;
        while k < total
            invariant
                k <= total,
                numbers@.len() == k,
                forall|j: int| 0 <= j < k ==> (#[trigger] numbers@[j]) == 0,
            decreases total - k,
        {
            numbers.push(0);
            k = k + 1;
        }
        let mut field = Field { numbers, rows, cols, min_x, min_y };
        proof {
            assert(field.numbers@ =~= zero_grid(rows as int, cols as int));
        }
        let nsegs = segs.len();
        let mut t: usize = 0;
        while t < nsegs
            invariant
                ls == bytes::lines_spec(input@),
                segs@.len() == nsegs,
                nsegs == ls.len(),
                t <= nsegs,
                forall|u: int| 0 <= u < nsegs ==> line_ok(#[trigger] ls[u]),
                forall|u: int| 0 <= u < nsegs ==> (#[trigger] segs@[u]) == seg_of(ls[u]),
                forall|u: int|
                    0 <= u < nsegs ==> field.min_x as int <= (#[trigger] seg_of(
                        ls[u],
                    )).p1.x as int <= field.min_x as int + field.cols as int - 1 && field.min_x
                        as int <= seg_of(ls[u]).p2.x as int <= field.min_x as int + field.cols
                        as int - 1 && field.min_y as int <= seg_of(ls[u]).p1.y as int
                        <= field.min_y as int + field.rows as int - 1 && field.min_y as int
                        <= seg_of(ls[u]).p2.y as int <= field.min_y as int + field.rows as int - 1,
                field.wf(),
                field.rows == rows,
                field.cols == cols,
                field.min_x == min_x,
                field.min_y == min_y,
                field.numbers@ == mark_all(
                    ls,
                    field.cols as int,
                    field.min_x as int,
                    field.min_y as int,
                    field.rows as int,
                    diagonal,
                    t as int,
                ),
            decreases nsegs - t,
        {
            let l = &segs[t];
            proof {
                assert(segs@[t as int] == seg_of(ls[t as int]));
                assert(walk_len(l.p1.x as int, l.p2.x as int) <= field.cols as int);
                assert(walk_len(l.p1.y as int, l.p2.y as int) <= field.rows as int);
            }
            field.add_line(l, diagonal);
            t = t + 1;
        }
        Some(field)
    }
}

/// A fresh grid of unmarked counters.
pub open spec fn zero_grid(rows: int, cols: int) -> Seq<u32> {
    Seq::new((rows * cols) as nat, |i: int| 0u32)
}

/// The counters after marking the first `n` segments of the input on a
/// fresh grid.
pub open spec fn mark_all(
    ls: Seq<Seq<u8>>,
    cols: int,
    min_x: int,
    min_y: int,
    rows: int,
    diagonal: bool,
    n: int,
) -> Seq<u32>
    decreases n,
{
    if n <= 0 {
        zero_grid(rows, cols)
    } else {
        let prev = mark_all(ls, cols, min_x, min_y, rows, diagonal, n - 1);
        mark_cells(
            prev,
            rows,
            cols,
            min_x,
            min_y,
            seg_of(ls[n - 1]),
            seg_len(seg_of(ls[n - 1]), diagonal),
        )
    }
}

impl Field {
    /// Bounded rectangle with one counter per cell.
    pub open spec fn wf(self) -> bool {
        &&& 1 <= self.rows <= 0x7fff
        &&& 1 <= self.cols <= 0x7fff
        &&& self.numbers@.len() == self.rows * self.cols
    }

    /// Widens `[min, max]` to hold `val`: a value below the floor lowers
    /// it, otherwise one above the ceiling raises it.
    pub fn update_min_max(val: i32, min: &mut i32, max: &mut i32)
        ensures
            *final(min) == (if val < *old(min) {
                val
            } else {
                *old(min)
            }),
            *final(max) == (if val < *old(min) {
                *old(max)
            } else if val > *old(max) {
                val
            } else {
                *old(max)
            }),
    {
        if val < *min {
            *min = val;
        } else if val > *max {
            *max = val;
        }
    }

    /// The coordinates walked from `p1` to `p2`, inclusive, in order.
    pub fn get_iter(p1: i32, p2: i32) -> (r: Vec<i32>)
        requires
            walk_len(p1 as int, p2 as int) <= usize::MAX,
        ensures
            r@.len() == walk_len(p1 as int, p2 as int),
            forall|t: int| 0 <= t < r@.len() ==> (#[trigger] r@[t]) as int == walk_at(
                p1 as int,
                p2 as int,
                t,
            ),
    {
        let mut r: Vec<i32> = Vec::new();
        let diff: i64 = if p2 >= p1 {
            p2 as i64 - p1 as i64
        } else {
            p1 as i64 - p2 as i64
        };
        let n_steps: usize = diff as usize + 1;
        let mut t: usize = 0;
        while t < n_steps
            invariant
                n_steps == walk_len(p1 as int, p2 as int),
                t <= n_steps,
                r@.len() == t,
                forall|u: int| 0 <= u < t ==> (#[trigger] r@[u]) as int == walk_at(
                    p1 as int,
                    p2 as int,
                    u,
                ),
            decreases n_steps - t,
        {
            let v: i32 = if p2 >= p1 {
                (p1 as i64 + t as i64) as i32
            } else {
                (p1 as i64 - t as i64) as i32
            };
            r.push(v);
            t = t + 1;
        }
        r
    }

    /// Row-major flat cell index of `(x, y)`.
    pub fn get_index(&self, x: i32, y: i32) -> (r: usize)
        requires
            self.wf(),
            (self.min_x as int) <= (x as int) && (x as int) < (self.min_x as int) + (
            self.cols as int),
            (self.min_y as int) <= (y as int) && (y as int) < (self.min_y as int) + (
            self.rows as int),
        ensures
            r == cell_index(
                self.cols as int,
                self.min_x as int,
                self.min_y as int,
                x as int,
                y as int,
            ),
            r < self.numbers@.len(),
    {
        let _len = self.numbers.len();
        let xoff = (x as i64 - self.min_x as i64) as usize;
        let yoff = (y as i64 - self.min_y as i64) as usize;
        proof {
            assert(0 <= (yoff as int) * (self.cols as int) + (xoff as int) && (yoff as int) * (
            self.cols as int) + (xoff as int) < (self.rows as int) * (self.cols as int) && (
            self.cols as int) * (yoff as int) == (yoff as int) * (self.cols as int)) by (
            nonlinear_arith)
                requires
                    0 <= (xoff as int) && (xoff as int) < (self.cols as int),
                    0 <= (yoff as int) && (yoff as int) < (self.rows as int),
            ;
        }
        self.cols * yoff + xoff
    }

    /// Cell coordinates of a flat index.
    pub fn get_pos(&self, index: usize) -> (r: (usize, usize))
        requires
            self.wf(),
        ensures
            r.0 == index as int / self.cols as int,
            r.1 == index as int % self.cols as int,
    {
        (index / self.cols, index % self.cols)
    }

    /// Marks every cell of the segment, raising each covered in-grid
    /// counter by one.
    pub fn add_line(&mut self, line: &Line, diagonal: bool)
        requires
            old(self).wf(),
            walk_len(line.p1.x as int, line.p2.x as int) <= usize::MAX,
            walk_len(line.p1.y as int, line.p2.y as int) <= usize::MAX,
        ensures
            final(self).wf(),
            final(self).rows == old(self).rows,
            final(self).cols == old(self).cols,
            final(self).min_x == old(self).min_x,
            final(self).min_y == old(self).min_y,
            final(self).numbers@ == mark_cells(
                old(self).numbers@,
                old(self).rows as int,
                old(self).cols as int,
                old(self).min_x as int,
                old(self).min_y as int,
                *line,
                seg_len(*line, diagonal),
            ),
    {
        let ghost nums0 = self.numbers@;
        let ghost rows = self.rows as int;
        let ghost cols = self.cols as int;
        let ghost mnx = self.min_x as int;
        let ghost mny = self.min_y as int;
        let xs: Vec<i32>;
        let ys: Vec<i32>;
        if line.p1.x == line.p2.x {
            ys = Field::get_iter(line.p1.y, line.p2.y);
            xs = Vec::new();
        } else if line.p1.y == line.p2.y {
            xs = Field::get_iter(line.p1.x, line.p2.x);
            ys = Vec::new();
        } else if diagonal {
            xs = Field::get_iter(line.p1.x, line.p2.x);
            ys = Field::get_iter(line.p1.y, line.p2.y);
        } else {
            proof {
                assert(self.numbers@ =~= mark_cells(nums0, rows, cols, mnx, mny, *line, 0));
            }
            return ;
        }
        let n: usize = if line.p1.x == line.p2.x {
            ys.len()
        } else if line.p1.y == line.p2.y {
            xs.len()
        } else if xs.len() <= ys.len() {
            xs.len()
        } else {
            ys.len()
        };
        proof {
            assert(n == seg_len(*line, diagonal));
        }
        let mut t: usize = 0;
        while t < n
            invariant
                self.wf(),
                self.rows == old(self).rows,
                self.cols == old(self).cols,
                self.min_x == old(self).min_x,
                self.min_y == old(self).min_y,
                rows == self.rows as int,
                cols == self.cols as int,
                mnx == self.min_x as int,
                mny == self.min_y as int,
                t <= n,
                n == seg_len(*line, diagonal),
                line.p1.x == line.p2.x ==> ys@.len() == n && (forall|u: int|
                    0 <= u < n ==> (#[trigger] ys@[u]) as int == walk_at(
                        line.p1.y as int,
                        line.p2.y as int,
                        u,
                    )),
                line.p1.x != line.p2.x && line.p1.y == line.p2.y ==> xs@.len() == n && (forall|
                    u: int,
                |
                    0 <= u < n ==> (#[trigger] xs@[u]) as int == walk_at(
                        line.p1.x as int,
                        line.p2.x as int,
                        u,
                    )),
                line.p1.x != line.p2.x && line.p1.y != line.p2.y ==> xs@.len() >= n && ys@.len()
                    >= n,
                line.p1.x != line.p2.x && line.p1.y != line.p2.y ==> (forall|u: int|
                    0 <= u < n ==> (#[trigger] xs@[u]) as int == walk_at(
                        line.p1.x as int,
                        line.p2.x as int,
                        u,
                    )),
                line.p1.x != line.p2.x && line.p1.y != line.p2.y ==> (forall|u: int|
                    0 <= u < n ==> (#[trigger] ys@[u]) as int == walk_at(
                        line.p1.y as int,
                        line.p2.y as int,
                        u,
                    )),
                self.numbers@ == mark_cells(nums0, rows, cols, mnx, mny, *line, t as int),
            decreases n - t,
        {
            let x: i32;
            let y: i32;
            if line.p1.x == line.p2.x {
                x = line.p1.x;
                y = ys[t];
            } else if line.p1.y == line.p2.y {
                x = xs[t];
                y = line.p1.y;
            } else {
                x = xs[t];
                y = ys[t];
            }
            proof {
                assert((x as int, y as int) == seg_cell(*line, t as int));
                assert(seg_cell(*line, t as int).0 == x as int);
                assert(seg_cell(*line, t as int).1 == y as int);
            }
            // Mark the cell when it lies on the grid; the walk may leave it.
            let on_grid = x >= self.min_x && (x as i64 - self.min_x as i64) < self.cols as i64 && y
                >= self.min_y && (y as i64 - self.min_y as i64) < self.rows as i64;
            if on_grid {
                let i = self.get_index(x, y);
                let ghost pre = self.numbers@;
                let v = self.numbers[i];
                if v < u32::MAX {
                    self.numbers.set(i, v + 1);
                }
                proof {
                    assert(pre == mark_cells(nums0, rows, cols, mnx, mny, *line, t as int));
                    assert(pre[i as int] == v);
                    if v < u32::MAX {
                        assert(self.numbers@ == pre.update(i as int, (v + 1) as u32));
                    }
                    assert(self.numbers@ =~= mark_cells(nums0, rows, cols, mnx, mny, *line, t + 1));
                }
            } else {
                proof {
                    assert(self.numbers@ =~= mark_cells(nums0, rows, cols, mnx, mny, *line, t + 1));
                }
            }
            t = t + 1;
        }
    }


    /// Cells covered at least twice.
    pub fn count_overlaps(&self) -> (r: usize)
        ensures
            r == overlap_count(self.numbers@, self.numbers@.len() as int),
    {
        let n = self.numbers.len();
        let mut r: usize = 0;
        let mut k: usize = 0;
        while k < n
            invariant
                self.numbers@.len() == n,
                k <= n,
                r == overlap_count(self.numbers@, k as int),
                r <= k,
            decreases n - k,
        {
            if self.numbers[k] >= 2 {
                r = r + 1;
            }
            k = k + 1;
        }
        r
    }
}

/// Cells among the first `n` covered at least twice.
pub open spec fn overlap_count(nums: Seq<u32>, n: int) -> int
    decreases n,
{
    if n <= 0 {
        0
    } else {
        overlap_count(nums, n - 1) + if nums[n - 1] >= 2 {
            1int
        } else {
            0int
        }
    }
}

/// Number of cells covered by two or more segments.
pub fn part(field: &Field) -> (r: usize)
    ensures
        r == overlap_count(field.numbers@, field.numbers@.len() as int),
{
    field.count_overlaps()
}

} // verus!
