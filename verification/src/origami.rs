//! Transparent-paper folding: a grid of dots is folded along horizontal or
//! vertical lines; dots that land on each other merge. Folding up or left
//! keeps the near half and mirrors the far half onto it.

use vstd::pervasive::VecAdditionalExecFns;
use vstd::prelude::*;

verus! {

#[derive(PartialEq, Eq, Structural, Debug, Clone, Copy)]
pub enum Fold {
    X(usize),
    Y(usize),
}

pub struct Field {
    pub content: Vec<bool>,
    pub rows: usize,
    pub cols: usize,
}

/// The fold a `fold along a=n` line encodes, if any: the axis letter is at
/// position eleven and the number follows the `=`.
pub open spec fn fold_of(s: Seq<u8>) -> Option<Fold> {
    if s.len() < 13 || !bytes::is_digits(s.skip(13)) || bytes::digits_val(s.skip(13))
        > u32::MAX {
        None
    } else if s[11] == 120 {
        Some(Fold::X(bytes::digits_val(s.skip(13)) as usize))
    } else if s[11] == 121 {
        Some(Fold::Y(bytes::digits_val(s.skip(13)) as usize))
    } else {
        None
    }
}

use crate::bytes;

impl Fold {
    /// Reads one `fold along a=n` line; fails exactly when the line is too
    /// short, the axis letter is unknown, or the number does not fit.
    pub fn from_str(s: &[u8]) -> (r: Option<Fold>)
        ensures
            r == fold_of(s@),
    {
        if s.len() < 13 {
            return None;
        }
        let rest = &s[13..s.len()];
        proof {
            assert(rest@ =~= s@.skip(13));
        }
        let num = match bytes::parse_u32(rest) {
            Some(v) => v,
            None => { return None },
        };
        let dir = s[11];
        if dir == 120 {
            Some(Fold::X(num as usize))
        } else if dir == 121 {
            Some(Fold::Y(num as usize))
        } else {
            None
        }
    }
}

/// The line is a single `x,y` pair of numbers that fit the machine.
pub open spec fn line_point_ok(line: Seq<u8>) -> bool {
    let toks = bytes::split_spec(line, 44);
    &&& toks.len() == 2
    &&& bytes::is_digits(toks[0])
    &&& bytes::digits_val(toks[0]) <= u32::MAX
    &&& bytes::is_digits(toks[1])
    &&& bytes::digits_val(toks[1]) <= u32::MAX
}

/// The dot coordinates the line names.
pub open spec fn point_of(line: Seq<u8>) -> (int, int) {
    let toks = bytes::split_spec(line, 44);
    (bytes::digits_val(toks[0]), bytes::digits_val(toks[1]))
}

/// Every line is a well-formed dot.
pub open spec fn points_ok(ls: Seq<Seq<u8>>) -> bool {
    forall|t: int| 0 <= t < ls.len() ==> line_point_ok(#[trigger] ls[t])
}

/// The largest dot column among the first `n` lines.
pub open spec fn max_x_of(ls: Seq<Seq<u8>>, n: int) -> int
    decreases n,
{
    if n <= 0 {
        0
    } else if point_of(ls[n - 1]).0 > max_x_of(ls, n - 1) {
        point_of(ls[n - 1]).0
    } else {
        max_x_of(ls, n - 1)
    }
}

/// The largest dot row among the first `n` lines.
pub open spec fn max_y_of(ls: Seq<Seq<u8>>, n: int) -> int
    decreases n,
{
    if n <= 0 {
        0
    } else if point_of(ls[n - 1]).1 > max_y_of(ls, n - 1) {
        point_of(ls[n - 1]).1
    } else {
        max_y_of(ls, n - 1)
    }
}

/// One of the first `n` lines names the dot `(x, y)`.
pub open spec fn has_point(ls: Seq<Seq<u8>>, n: int, x: int, y: int) -> bool {
    exists|t: int| 0 <= t < n && point_of(#[trigger] ls[t]) == (x, y)
}

/// Every dot fits under the recorded maxima.
proof fn lemma_max_point_bounds(ls: Seq<Seq<u8>>, n: int)
    ensures
        forall|u: int|
            0 <= u < n ==> point_of(#[trigger] ls[u]).0 <= max_x_of(ls, n) && point_of(ls[u]).1
                <= max_y_of(ls, n),
    decreases n,
{
    if n > 0 {
        lemma_max_point_bounds(ls, n - 1);
    }
}

/// The dot at `(x, y)` of a grid held row-major with `cols` columns.
pub open spec fn dot(content: Seq<bool>, cols: int, x: int, y: int) -> bool {
    content[y * cols + x]
}

/// Number of dots among the first `n` cells.
pub open spec fn count_dots(content: Seq<bool>, n: int) -> int
    decreases n,
{
    if n <= 0 {
        0
    } else {
        count_dots(content, n - 1) + if content[n - 1] {
            1int
        } else {
            0int
        }
    }
}

impl Field {
    /// One cell per position, with tolerably small sides.
    pub open spec fn wf(self) -> bool {
        &&& self.rows <= 0x7fff
        &&& self.cols <= 0x7fff
        &&& self.content@.len() == self.rows * self.cols
    }

    /// An empty sheet of the given size.
    pub fn new(rows: usize, cols: usize) -> (r: Field)
        requires
            rows <= 0x7fff,
            cols <= 0x7fff,
        ensures
            r.wf(),
            r.rows == rows,
            r.cols == cols,
            forall|k: int| 0 <= k < r.content@.len() ==> !(#[trigger] r.content@[k]),
    {
        proof {
            assert((rows as int) * (cols as int) <= 0x7fff * 0x7fff) by (nonlinear_arith)
                requires
                    rows <= 0x7fff,
                    cols <= 0x7fff,
            ;
        }
        let total = rows * cols;
        let mut content: Vec<bool> = Vec::new();
        let mut k: usize = 0;
        while k < total
            invariant
                k <= total,
                content@.len() == k,
                forall|j: int| 0 <= j < k ==> !(#[trigger] content@[j]),
            decreases total - k,
        {
            content.push(false);
            k = k + 1;
        }
        Field { content, rows, cols }
    }

    /// Reads a sheet from `x,y` dot lines: the sheet is exactly large
    /// enough for the dots, and a cell shows a dot exactly when some line
    /// names it. Fails exactly when a line is not a coordinate pair or the
    /// sheet would outgrow the size bound.
    pub fn from_str(s: &[u8]) -> (r: Option<Field>)
        ensures
            ({
                let ls = bytes::lines_spec(s@);
                match r {
                    Some(f) => {
                        &&& points_ok(ls)
                        &&& ls.len() >= 1
                        &&& f.wf()
                        &&& f.cols == max_x_of(ls, ls.len() as int) + 1
                        &&& f.rows == max_y_of(ls, ls.len() as int) + 1
                        &&& forall|x: int, y: int|
                            0 <= x < f.cols && 0 <= y < f.rows ==> ((#[trigger] dot(
                                f.content@,
                                f.cols as int,
                                x,
                                y,
                            )) <==> has_point(ls, ls.len() as int, x, y))
                    },
                    None => !(points_ok(ls) && ls.len() >= 1 && max_x_of(ls, ls.len() as int)
                        < 0x7fff && max_y_of(ls, ls.len() as int) < 0x7fff),
                }
            }),
    {
        let mut lines = bytes::split_bytes(s, 10);
        proof {
            assert(lines.deep_view().last() == lines@[lines@.len() - 1]@);
        }
        if lines[lines.len() - 1].len() == 0 {
            lines.pop();
            proof {
                assert(lines.deep_view() =~~= bytes::lines_spec(s@));
            }
        } else {
            proof {
                assert(lines.deep_view() =~~= bytes::lines_spec(s@));
            }
        }
        let ghost ls = bytes::lines_spec(s@);
        let nlines = lines.len();
        if nlines == 0 {
            return None;
        }
        let mut xs: Vec<usize> = Vec::new();
        let mut ys: Vec<usize> = Vec::new();
        let mut max_x: usize = 0;
        let mut max_y: usize = 0;
        let mut l: usize = 0;
        while l < nlines
            invariant
                ls == bytes::lines_spec(s@),
                lines.deep_view() == ls,
                lines@.len() == nlines,
                1 <= nlines,
                l <= nlines,
                xs@.len() == l,
                ys@.len() == l,
                forall|t: int| 0 <= t < l ==> line_point_ok(#[trigger] ls[t]),
                forall|t: int|
                    0 <= t < l ==> ((#[trigger] xs@[t]) as int, ys@[t] as int) == point_of(ls[t]),
                max_x as int == max_x_of(ls, l as int),
                max_y as int == max_y_of(ls, l as int),
            decreases nlines - l,
        {
            proof {
                assert(lines.deep_view()[l as int] == lines@[l as int]@);
            }
            let line = &lines[l];
            let toks = bytes::split_bytes(line.as_slice(), 44);
            if toks.len() != 2 {
                return None;
            }
            proof {
                assert(toks.deep_view()[0] == toks@[0]@);
                assert(toks.deep_view()[1] == toks@[1]@);
            }
            let x = match bytes::parse_u32(toks[0].as_slice()) {
                Some(v) => v as usize,
                None => { return None },
            };
            let y = match bytes::parse_u32(toks[1].as_slice()) {
                Some(v) => v as usize,
                None => { return None },
            };
            xs.push(x);
            ys.push(y);
            if x > max_x {
                max_x = x;
            }
            if y > max_y {
                max_y = y;
            }
            l = l + 1;
        }
        if max_x >= 0x7fff || max_y >= 0x7fff {
            return None;
        }
        let rows = max_y + 1;
        let cols = max_x + 1;
        let mut f = Field::new(rows, cols);
        proof {
            lemma_max_point_bounds(ls, nlines as int);
            assert forall|x: int, y: int|
                0 <= x < cols && 0 <= y < rows implies ((#[trigger] dot(f.content@, cols as int, x, y))
                <==> has_point(ls, 0, x, y)) by {
                assert(0 <= y * cols + x && y * cols + x < rows * cols) by (nonlinear_arith)
                    requires
                        0 <= x < cols,
                        0 <= y < rows,
                ;
            }
        }
        let mut t: usize = 0;
        while t < nlines
            invariant
                ls == bytes::lines_spec(s@),
                xs@.len() == nlines,
                ys@.len() == nlines,
                t <= nlines,
                forall|u: int| 0 <= u < nlines ==> line_point_ok(#[trigger] ls[u]),
                forall|u: int|
                    0 <= u < nlines ==> ((#[trigger] xs@[u]) as int, ys@[u] as int) == point_of(
                        ls[u],
                    ),
                forall|u: int| 0 <= u < nlines ==> point_of(#[trigger] ls[u]).0 < cols
                    && point_of(ls[u]).1 < rows,
                f.wf(),
                f.rows == rows,
                f.cols == cols,
                1 <= rows <= 0x7fff,
                1 <= cols <= 0x7fff,
                forall|x: int, y: int|
                    0 <= x < cols && 0 <= y < rows ==> ((#[trigger] dot(f.content@, cols as int, x, y))
                        <==> has_point(ls, t as int, x, y)),
            decreases nlines - t,
        {
            let x = xs[t];
            let y = ys[t];
            let i = f.get_index((x, y));
            let ghost pre = f.content@;
            f.content.set(i, true);
            proof {
                lemma_dot_update(pre, cols as int, rows as int, x as int, y as int, true);
                assert forall|xx: int, yy: int|
                    0 <= xx < cols && 0 <= yy < rows implies ((#[trigger] dot(
                    f.content@,
                    cols as int,
                    xx,
                    yy,
                )) <==> has_point(ls, t + 1, xx, yy)) by {
                    if !(xx == x as int && yy == y as int) {
                        assert(dot(f.content@, cols as int, xx, yy) == dot(pre, cols as int, xx, yy));
                    }
                }
            }
            t = t + 1;
        }
        Some(f)
    }

    /// Flat position of `(x, y)`.
    pub fn get_index(&self, pos: (usize, usize)) -> (r: usize)
        requires
            self.wf(),
            pos.0 < self.cols,
            pos.1 < self.rows,
        ensures
            r == pos.1 * self.cols + pos.0,
            r < self.content@.len(),
    {
        proof {
            assert(0 <= (pos.1 as int) * (self.cols as int) + (pos.0 as int) && (pos.1 as int) * (
            self.cols as int) + (pos.0 as int) < (self.rows as int) * (self.cols as int) && (
            self.cols as int) * (pos.1 as int) == (pos.1 as int) * (self.cols as int)) by (
            nonlinear_arith)
                requires
                    0 <= (pos.0 as int) && (pos.0 as int) < (self.cols as int),
                    0 <= (pos.1 as int) && (pos.1 as int) < (self.rows as int),
            ;
        }
        let _len = self.content.len();
        self.cols * pos.1 + pos.0
    }

    /// `(x, y)` position of a flat index.
    pub fn get_coord(&self, index: usize) -> (r: (usize, usize))
        requires
            self.wf(),
            self.cols >= 1,
            index < self.content@.len(),
        ensures
            r.0 == index as int % self.cols as int,
            r.1 == index as int / self.cols as int,
    {
        (index % self.cols, index / self.cols)
    }

    /// Whether `(x, y)` holds a dot.
    pub fn get(&self, x: usize, y: usize) -> (r: bool)
        requires
            self.wf(),
            x < self.cols,
            y < self.rows,
        ensures
            r == dot(self.content@, self.cols as int, x as int, y as int),
    {
        let i = self.get_index((x, y));
        self.content[i]
    }

    /// The sheet folded up along row `row`: the top `row` rows remain and
    /// every kept dot is the merge of itself and its mirror image.
    pub fn folded_y(&self, row: usize) -> (r: Field)
        requires
            self.wf(),
            2 * row < self.rows,
        ensures
            r.wf(),
            r.rows == row,
            r.cols == self.cols,
            forall|x: int, y: int|
                0 <= x < self.cols && 0 <= y < row ==> (#[trigger] dot(
                    r.content@,
                    self.cols as int,
                    x,
                    y,
                )) == (dot(self.content@, self.cols as int, x, y) || dot(
                    self.content@,
                    self.cols as int,
                    x,
                    2 * row - y,
                )),
    {
        let mut flipped = Field::new(row, self.cols);
        let mut x: usize = 0;
        while x < self.cols
            invariant
                self.wf(),
                2 * row < self.rows,
                flipped.wf(),
                flipped.rows == row,
                flipped.cols == self.cols,
                x <= self.cols,
                forall|xx: int, yy: int|
                    0 <= xx < x && 0 <= yy < row ==> (#[trigger] dot(
                        flipped.content@,
                        self.cols as int,
                        xx,
                        yy,
                    )) == (dot(self.content@, self.cols as int, xx, yy) || dot(
                        self.content@,
                        self.cols as int,
                        xx,
                        2 * row - yy,
                    )),
            decreases self.cols - x,
        {
            let mut y: usize = 0;
            while y < row
                invariant
                    self.wf(),
                    2 * row < self.rows,
                    flipped.wf(),
                    flipped.rows == row,
                    flipped.cols == self.cols,
                    x < self.cols,
                    y <= row,
                    forall|xx: int, yy: int|
                        0 <= xx < x && 0 <= yy < row ==> (#[trigger] dot(
                            flipped.content@,
                            self.cols as int,
                            xx,
                            yy,
                        )) == (dot(self.content@, self.cols as int, xx, yy) || dot(
                            self.content@,
                            self.cols as int,
                            xx,
                            2 * row - yy,
                        )),
                    forall|yy: int|
                        0 <= yy < y ==> (#[trigger] dot(
                            flipped.content@,
                            self.cols as int,
                            x as int,
                            yy,
                        )) == (dot(self.content@, self.cols as int, x as int, yy) || dot(
                            self.content@,
                            self.cols as int,
                            x as int,
                            2 * row - yy,
                        )),
                decreases row - y,
            {
                let a = self.get(x, y);
                let b = self.get(x, 2 * row - y);
                let i = flipped.get_index((x, y));
                let ghost pre = flipped.content@;
                flipped.content.set(i, a || b);
                proof {
                    lemma_dot_update(pre, flipped.cols as int, flipped.rows as int, x as int, y as int, a || b);
                }
                y = y + 1;
            }
            x = x + 1;
        }
        flipped
    }

    /// The sheet folded left along column `col`, symmetrically.
    pub fn folded_x(&self, col: usize) -> (r: Field)
        requires
            self.wf(),
            2 * col < self.cols,
        ensures
            r.wf(),
            r.rows == self.rows,
            r.cols == col,
            forall|x: int, y: int|
                0 <= x < col && 0 <= y < self.rows ==> (#[trigger] dot(r.content@, col as int, x, y))
                    == (dot(self.content@, self.cols as int, x, y) || dot(
                    self.content@,
                    self.cols as int,
                    2 * col - x,
                    y,
                )),
    {
        let mut flipped = Field::new(self.rows, col);
        let mut x: usize = 0;
        while x < col
            invariant
                self.wf(),
                2 * col < self.cols,
                flipped.wf(),
                flipped.rows == self.rows,
                flipped.cols == col,
                x <= col,
                forall|xx: int, yy: int|
                    0 <= xx < x && 0 <= yy < self.rows ==> (#[trigger] dot(
                        flipped.content@,
                        col as int,
                        xx,
                        yy,
                    )) == (dot(self.content@, self.cols as int, xx, yy) || dot(
                        self.content@,
                        self.cols as int,
                        2 * col - xx,
                        yy,
                    )),
            decreases col - x,
        {
            let mut y: usize = 0;
            while y < self.rows
                invariant
                    self.wf(),
                    2 * col < self.cols,
                    flipped.wf(),
                    flipped.rows == self.rows,
                    flipped.cols == col,
                    x < col,
                    y <= self.rows,
                    forall|xx: int, yy: int|
                        0 <= xx < x && 0 <= yy < self.rows ==> (#[trigger] dot(
                            flipped.content@,
                            col as int,
                            xx,
                            yy,
                        )) == (dot(self.content@, self.cols as int, xx, yy) || dot(
                            self.content@,
                            self.cols as int,
                            2 * col - xx,
                            yy,
                        )),
                    forall|yy: int|
                        0 <= yy < y ==> (#[trigger] dot(flipped.content@, col as int, x as int, yy))
                            == (dot(self.content@, self.cols as int, x as int, yy) || dot(
                            self.content@,
                            self.cols as int,
                            2 * col - x,
                            yy,
                        )),
                decreases self.rows - y,
            {
                let a = self.get(x, y);
                let b = self.get(2 * col - x, y);
                let i = flipped.get_index((x, y));
                let ghost pre = flipped.content@;
                flipped.content.set(i, a || b);
                proof {
                    lemma_dot_update(pre, col as int, flipped.rows as int, x as int, y as int, a || b);
                }
                y = y + 1;
            }
            x = x + 1;
        }
        flipped
    }

    /// The sheet folded along the given line.
    pub fn folded(&self, fold: &Fold) -> (r: Field)
        requires
            self.wf(),
            match *fold {
                Fold::X(col) => 2 * col < self.cols,
                Fold::Y(row) => 2 * row < self.rows,
            },
        ensures
            r.wf(),
            match *fold {
                Fold::X(col) => r.cols == col && r.rows == self.rows && (forall|x: int, y: int|
                    0 <= x < col && 0 <= y < self.rows ==> (#[trigger] dot(
                        r.content@,
                        col as int,
                        x,
                        y,
                    )) == (dot(self.content@, self.cols as int, x, y) || dot(
                        self.content@,
                        self.cols as int,
                        2 * col - x,
                        y,
                    ))),
                Fold::Y(row) => r.rows == row && r.cols == self.cols && (forall|x: int, y: int|
                    0 <= x < self.cols && 0 <= y < row ==> (#[trigger] dot(
                        r.content@,
                        self.cols as int,
                        x,
                        y,
                    )) == (dot(self.content@, self.cols as int, x, y) || dot(
                        self.content@,
                        self.cols as int,
                        x,
                        2 * row - y,
                    ))),
            },
    {
        match fold {
            Fold::X(col) => self.folded_x(*col),
            Fold::Y(row) => self.folded_y(*row),
        }
    }

    /// How many dots the sheet shows.
    pub fn count(&self) -> (r: usize)
        ensures
            r == count_dots(self.content@, self.content@.len() as int),
    {
        let n = self.content.len();
        let mut r: usize = 0;
        let mut k: usize = 0;
        while k < n
            invariant
                self.content@.len() == n,
                k <= n,
                r == count_dots(self.content@, k as int),
                r <= k,
            decreases n - k,
        {
            if self.content[k] {
                r = r + 1;
            }
            k = k + 1;
        }
        r
    }
}

/// Setting one cell changes that dot and no other.
proof fn lemma_dot_update(content: Seq<bool>, cols: int, rows: int, x: int, y: int, v: bool)
    requires
        cols >= 1,
        content.len() == rows * cols,
        0 <= x < cols,
        0 <= y < rows,
    ensures
        forall|xx: int, yy: int|
            0 <= xx < cols && 0 <= yy < rows && !(xx == x && yy == y) ==> #[trigger] dot(
                content.update(y * cols + x, v),
                cols,
                xx,
                yy,
            ) == dot(content, cols, xx, yy),
        dot(content.update(y * cols + x, v), cols, x, y) == v,
{
    assert(0 <= y * cols + x && y * cols + x < rows * cols) by (nonlinear_arith)
        requires
            0 <= x < cols,
            0 <= y < rows,
    ;
    assert forall|xx: int, yy: int|
        0 <= xx < cols && 0 <= yy < rows && !(xx == x && yy == y) implies #[trigger] dot(
        content.update(y * cols + x, v),
        cols,
        xx,
        yy,
    ) == dot(content, cols, xx, yy) by {
        assert(0 <= yy * cols + xx && yy * cols + xx < rows * cols) by (nonlinear_arith)
            requires
                0 <= xx < cols,
                0 <= yy < rows,
        ;
        if yy * cols + xx == y * cols + x {
            assert(yy == y && xx == x) by (nonlinear_arith)
                requires
                    yy * cols + xx == y * cols + x,
                    0 <= xx < cols,
                    0 <= x < cols,
            ;
            assert(false);
        } else {
            assert(content.update(y * cols + x, v)[yy * cols + xx] == content[yy * cols + xx]);
        }
    }
}

/// The sheet after a fold, as a mathematical grid.
pub open spec fn fold_spec(content: Seq<bool>, rows: int, cols: int, fold: Fold) -> Seq<bool> {
    match fold {
        Fold::X(col) => Seq::new(
            (rows * col as int) as nat,
            |k: int|
                dot(content, cols, k % col as int, k / col as int) || dot(
                    content,
                    cols,
                    2 * col - k % col as int,
                    k / col as int,
                ),
        ),
        Fold::Y(row) => Seq::new(
            (row as int * cols) as nat,
            |k: int|
                dot(content, cols, k % cols, k / cols) || dot(
                    content,
                    cols,
                    k % cols,
                    2 * row - k / cols,
                ),
        ),
    }
}

/// Dot count after the first fold of the sheet.
pub fn part_one(field: &Field, folds: &Vec<Fold>) -> (r: usize)
    requires
        field.wf(),
        field.cols >= 1,
        folds@.len() >= 1,
        match folds@[0] {
            Fold::X(col) => 1 <= col && 2 * col < field.cols,
            Fold::Y(row) => 1 <= row && 2 * row < field.rows,
        },
    ensures
        ({
            let g = fold_spec(field.content@, field.rows as int, field.cols as int, folds@[0]);
            r == count_dots(g, g.len() as int)
        }),
{
    let folded = field.folded(&folds[0]);
    let r = folded.count();
    proof {
        let g = fold_spec(field.content@, field.rows as int, field.cols as int, folds@[0]);
        let c2 = folded.cols as int;
        assert(folded.content@.len() == folded.rows * folded.cols);
        assert forall|k: int| 0 <= k < folded.content@.len() implies folded.content@[k] == g[k] by {
            vstd::arithmetic::div_mod::lemma_fundamental_div_mod(k, c2);
            assert(0 <= k % c2 && k % c2 < c2 && 0 <= k / c2 && k / c2 < folded.rows as int) by (
            nonlinear_arith)
                requires
                    0 <= k && k < (folded.rows as int) * c2,
                    c2 >= 1,
                    k == c2 * (k / c2) + k % c2,
                    0 <= k % c2 < c2,
            ;
            assert((k / c2) * c2 + k % c2 == k) by (nonlinear_arith)
                requires
                    k == c2 * (k / c2) + k % c2,
            ;
            assert(folded.content@[k] == dot(folded.content@, c2, k % c2, k / c2));
        }
        assert(folded.content@ =~= g);
    }
    r
}

} // verus!
