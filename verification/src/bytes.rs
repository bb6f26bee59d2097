//! Byte-level input helpers shared by the solvers: splitting a byte string on
//! a separator and reading decimal numbers, each with an exact specification.

use vstd::multiset::Multiset;
use vstd::prelude::*;
use vstd::relations::sorted_by;

verus! {

/// Index of the first occurrence of `sep` in `s`, or `s.len()` when `sep`
/// does not occur.
pub open spec fn find_sep(s: Seq<u8>, sep: u8) -> nat
    decreases s.len(),
{
    if s.len() == 0 {
        0
    } else if s[0] == sep {
        0
    } else {
        1 + find_sep(s.skip(1), sep)
    }
}

pub proof fn lemma_find_sep(s: Seq<u8>, sep: u8)
    ensures
        find_sep(s, sep) <= s.len(),
        find_sep(s, sep) < s.len() ==> s[find_sep(s, sep) as int] == sep,
        forall|j: int| 0 <= j < find_sep(s, sep) ==> s[j] != sep,
    decreases s.len(),
{
    if s.len() != 0 && s[0] != sep {
        lemma_find_sep(s.skip(1), sep);
        assert forall|j: int| 0 <= j < find_sep(s, sep) implies s[j] != sep by {
            if j > 0 {
                assert(s.skip(1)[j - 1] == s[j]);
            }
        }
    }
}

/// The first occurrence of `sep` is the unique position that carries `sep`
/// with none before it.
pub proof fn lemma_find_sep_is(s: Seq<u8>, sep: u8, i: int)
    requires
        0 <= i < s.len(),
        s[i] == sep,
        forall|j: int| 0 <= j < i ==> s[j] != sep,
    ensures
        find_sep(s, sep) == i,
{
    lemma_find_sep(s, sep);
    if find_sep(s, sep) < i {
        assert(s[find_sep(s, sep) as int] == sep);
    }
}

/// `s` split on `sep`: the (possibly empty) runs between separators, in
/// order. A string without `sep` yields itself as the single piece.
pub open spec fn split_spec(s: Seq<u8>, sep: u8) -> Seq<Seq<u8>>
    decreases s.len(),
    via split_spec_dec
{
    let i = find_sep(s, sep) as int;
    if i == s.len() {
        seq![s]
    } else {
        seq![s.take(i)] + split_spec(s.skip(i + 1), sep)
    }
}

#[via_fn]
proof fn split_spec_dec(s: Seq<u8>, sep: u8) {
    lemma_find_sep(s, sep);
}

/// Unfolding rule for `split_spec` at an explicit first separator.
pub proof fn lemma_split_step(s: Seq<u8>, sep: u8, i: int)
    requires
        0 <= i < s.len(),
        s[i] == sep,
        forall|j: int| 0 <= j < i ==> s[j] != sep,
    ensures
        split_spec(s, sep) == seq![s.take(i)] + split_spec(s.skip(i + 1), sep),
{
    lemma_find_sep_is(s, sep, i);
}

/// A string without `sep` splits into itself alone.
pub proof fn lemma_split_whole(s: Seq<u8>, sep: u8)
    requires
        forall|j: int| 0 <= j < s.len() ==> s[j] != sep,
    ensures
        split_spec(s, sep) == seq![s],
{
    lemma_find_sep(s, sep);
    if find_sep(s, sep) < s.len() {
        assert(s[find_sep(s, sep) as int] == sep);
    }
}

/// Splits `s` on the separator byte; mirrors `split_spec` exactly.
pub fn split_bytes(s: &[u8], sep: u8) -> (r: Vec<Vec<u8>>)
    ensures
        r.deep_view() == split_spec(s@, sep),
        r@.len() >= 1,
{
    let mut r: Vec<Vec<u8>> = Vec::new();
    let mut cur: Vec<u8> = Vec::new();
    let ghost mut start: int = 0;
    let mut i: usize = 0;
    proof {
        assert(s@.skip(0) =~= s@);
        assert(r.deep_view() =~= Seq::<Seq<u8>>::empty());
    }
    while i < s.len()
        invariant
            0 <= start <= i <= s@.len(),
            cur@ == s@.subrange(start, i as int),
            forall|j: int| start <= j < i ==> s@[j] != sep,
            split_spec(s@, sep) == r.deep_view() + split_spec(s@.skip(start), sep),
        decreases s@.len() - i,
    {
        if s[i] == sep {
            proof {
                let tail = s@.skip(start);
                assert forall|j: int| 0 <= j < i - start implies tail[j] != sep by {
                    assert(tail[j] == s@[j + start]);
                }
                assert(tail[i - start] == s@[i as int]);
                lemma_split_step(tail, sep, i - start);
                assert(tail.take(i - start) =~= cur@);
                assert(tail.skip(i - start + 1) =~= s@.skip(i + 1));
            }
            let ghost old_r = r.deep_view();
            let ghost cur_snap = cur@;
            r.push(cur);
            cur = Vec::new();
            proof {
                assert(r.deep_view() =~~= old_r + seq![cur_snap]);
                start = i + 1;
            }
        } else {
            cur.push(s[i]);
            proof {
                assert(cur@ =~= s@.subrange(start, i + 1));
            }
        }
        i = i + 1;
    }
    proof {
        let tail = s@.skip(start);
        assert forall|j: int| 0 <= j < tail.len() implies tail[j] != sep by {
            assert(tail[j] == s@[j + start]);
        }
        lemma_split_whole(tail, sep);
        assert(tail =~= cur@);
    }
    let ghost old_r = r.deep_view();
    let ghost cur_snap = cur@;
    r.push(cur);
    proof {
        assert(r.deep_view() =~~= old_r + seq![cur_snap]);
        assert(r.deep_view() =~~= split_spec(s@, sep));
    }
    r
}

/// A split yields at most one piece per byte, plus one.
pub proof fn lemma_split_count(s: Seq<u8>, sep: u8)
    ensures
        split_spec(s, sep).len() <= s.len() + 1,
    decreases s.len(),
{
    lemma_find_sep(s, sep);
    let i = find_sep(s, sep) as int;
    if i != s.len() {
        lemma_split_count(s.skip(i + 1), sep);
    }
}

/// `s` is one or more ASCII decimal digits.
pub open spec fn is_digits(s: Seq<u8>) -> bool {
    s.len() >= 1 && forall|i: int| 0 <= i < s.len() ==> 48 <= #[trigger] s[i] <= 57
}

/// Value of `s` read as a decimal numeral, most significant digit first.
pub open spec fn digits_val(s: Seq<u8>) -> int
    decreases s.len(),
{
    if s.len() == 0 {
        0
    } else {
        digits_val(s.drop_last()) * 10 + (s.last() - 48)
    }
}

/// Extending a numeral with digits only grows its value.
pub proof fn lemma_digits_val_grows(s: Seq<u8>, k: int)
    requires
        0 <= k <= s.len(),
        digits_val(s.take(k)) >= 0,
        forall|j: int| k <= j < s.len() ==> 48 <= #[trigger] s[j] <= 57,
    ensures
        digits_val(s) >= digits_val(s.take(k)),
    decreases s.len() - k,
{
    if k == s.len() {
        assert(s.take(k) =~= s);
    } else {
        assert(s.take(k + 1).drop_last() =~= s.take(k));
        assert(s.take(k + 1).last() == s[k]);
        assert(digits_val(s.take(k + 1)) == digits_val(s.take(k)) * 10 + (s[k] - 48));
        lemma_digits_val_grows(s, k + 1);
    }
}

/// Reads `s` as an unsigned decimal number. Fails exactly when `s` is not a
/// plain run of digits or its value does not fit in a `u32`.
pub fn parse_u32(s: &[u8]) -> (r: Option<u32>)
    ensures
        match r {
            Some(v) => is_digits(s@) && v == digits_val(s@),
            None => !is_digits(s@) || digits_val(s@) > u32::MAX,
        },
{
    if s.len() == 0 {
        return None;
    }
    let mut acc: u32 = 0;
    let mut i: usize = 0;
    while i < s.len()
        invariant
            0 <= i <= s@.len(),
            s@.len() >= 1,
            forall|j: int| 0 <= j < i ==> 48 <= #[trigger] s@[j] <= 57,
            acc == digits_val(s@.take(i as int)),
        decreases s@.len() - i,
    {
        let c = s[i];
        if c < 48 || c > 57 {
            return None;
        }
        let d = (c - 48) as u32;
        let next: u64 = acc as u64 * 10 + d as u64;
        proof {
            assert(s@.take(i + 1).drop_last() =~= s@.take(i as int));
            assert(s@.take(i + 1).last() == s@[i as int]);
        }
        if next > u32::MAX as u64 {
            proof {
                if is_digits(s@) {
                    lemma_digits_val_grows(s@, i + 1);
                }
            }
            return None;
        }
        acc = next as u32;
        i = i + 1;
    }
    proof {
        assert(s@.take(s@.len() as int) =~= s@);
    }
    Some(acc)
}

/// Value of `s` read as a decimal numeral with an optional leading plus or
/// minus sign.
pub open spec fn signed_val(s: Seq<u8>) -> int {
    if s.len() >= 1 && s[0] == 45 {
        -digits_val(s.skip(1))
    } else if s.len() >= 1 && s[0] == 43 {
        digits_val(s.skip(1))
    } else {
        digits_val(s)
    }
}

/// `s` is a decimal numeral with an optional leading plus or minus sign.
pub open spec fn is_signed_digits(s: Seq<u8>) -> bool {
    if s.len() >= 1 && (s[0] == 45 || s[0] == 43) {
        is_digits(s.skip(1))
    } else {
        is_digits(s)
    }
}

/// Reads `s` as a signed decimal number. Fails exactly when `s` is not a
/// numeral (optional `+` or `-`, then digits) or its value does not fit in
/// an `i32`.
pub fn parse_i32(s: &[u8]) -> (r: Option<i32>)
    ensures
        match r {
            Some(v) => is_signed_digits(s@) && v == signed_val(s@),
            None => !is_signed_digits(s@) || signed_val(s@) > i32::MAX || signed_val(s@)
                < i32::MIN,
        },
{
    if s.len() >= 1 && s[0] == 45 {
        let rest = &s[1..s.len()];
        proof {
            assert(rest@ =~= s@.skip(1));
        }
        match parse_u32(rest) {
            Some(v) => {
                if v > i32::MAX as u32 + 1 {
                    None
                } else if v == i32::MAX as u32 + 1 {
                    Some(i32::MIN)
                } else {
                    Some(-(v as i32))
                }
            },
            None => None,
        }
    } else if s.len() >= 1 && s[0] == 43 {
        let rest = &s[1..s.len()];
        proof {
            assert(rest@ =~= s@.skip(1));
        }
        match parse_u32(rest) {
            Some(v) => {
                if v > i32::MAX as u32 {
                    None
                } else {
                    Some(v as i32)
                }
            },
            None => None,
        }
    } else {
        match parse_u32(s) {
            Some(v) => {
                if v > i32::MAX as u32 {
                    None
                } else {
                    Some(v as i32)
                }
            },
            None => None,
        }
    }
}

/// The input's lines: split on newline, with a trailing empty piece (from a
/// final newline) dropped.
pub open spec fn lines_spec(s: Seq<u8>) -> Seq<Seq<u8>> {
    let p = split_spec(s, 10);
    if p.len() > 0 && p.last().len() == 0 {
        p.drop_last()
    } else {
        p
    }
}

/// `ls` is a non-empty rectangle of decimal digits.
pub open spec fn good_grid(ls: Seq<Seq<u8>>) -> bool {
    &&& ls.len() >= 1
    &&& ls[0].len() >= 1
    &&& forall|i: int| 0 <= i < ls.len() ==> #[trigger] ls[i].len() == ls[0].len()
    &&& forall|i: int, j: int|
        0 <= i < ls.len() && 0 <= j < ls[i].len() ==> 48 <= #[trigger] ls[i][j] <= 57
}

/// Digit value at row-major position `k` of a grid with `cols` columns.
pub open spec fn grid_cell(ls: Seq<Seq<u8>>, cols: int, k: int) -> int {
    ls[k / cols][k % cols] - 48
}

/// Reads a rectangular block of digit lines into a row-major cell vector.
/// Fails exactly when the lines are not a digit rectangle or a side exceeds
/// `max_dim`.
pub fn parse_digit_grid(s: &[u8], max_dim: usize) -> (r: Option<(Vec<u8>, usize, usize)>)
    requires
        max_dim >= 1,
        max_dim <= 0xffff,
    ensures
        match r {
            Some(g) => {
                &&& good_grid(lines_spec(s@))
                &&& g.1 == lines_spec(s@).len()
                &&& 1 <= g.1 <= max_dim
                &&& g.2 == lines_spec(s@)[0].len()
                &&& 1 <= g.2 <= max_dim
                &&& g.0@.len() == g.1 * g.2
                &&& forall|k: int|
                    0 <= k < g.0@.len() ==> g.0@[k] == grid_cell(lines_spec(s@), g.2 as int, k)
                        && #[trigger] g.0@[k] <= 9
            },
            None => !(good_grid(lines_spec(s@)) && lines_spec(s@).len() <= max_dim && lines_spec(
                s@,
            )[0].len() <= max_dim),
        },
{
    let mut lines = split_bytes(s, 10);
    proof {
        assert(lines.deep_view().last() == lines@[lines@.len() - 1]@);
    }
    if lines[lines.len() - 1].len() == 0 {
        lines.pop();
        proof {
            assert(lines.deep_view() =~~= lines_spec(s@));
        }
    } else {
        proof {
            assert(lines.deep_view() =~~= lines_spec(s@));
        }
    }
    let ghost ls = lines_spec(s@);
    let rows = lines.len();
    if rows == 0 || rows > max_dim {
        return None;
    }
    proof {
        assert(lines.deep_view()[0] == lines@[0]@);
    }
    let cols = lines[0].len();
    if cols == 0 || cols > max_dim {
        return None;
    }
    let mut cells: Vec<u8> = Vec::new();
    let mut li: usize = 0;
    while li < rows
        invariant
            ls == lines_spec(s@),
            lines.deep_view() == ls,
            lines@.len() == rows,
            1 <= rows <= max_dim,
            1 <= cols <= max_dim,
            max_dim <= 0xffff,
            cols == ls[0].len(),
            li <= rows,
            cells@.len() == li * cols,
            forall|i: int| 0 <= i < li ==> #[trigger] ls[i].len() == cols,
            forall|i: int, j: int| 0 <= i < li && 0 <= j < cols ==> 48 <= #[trigger] ls[i][j] <= 57,
            forall|k: int|
                0 <= k < cells@.len() ==> cells@[k] == grid_cell(ls, cols as int, k)
                    && #[trigger] cells@[k] <= 9,
        decreases rows - li,
    {
        proof {
            assert(lines.deep_view()[li as int] == lines@[li as int]@);
        }
        let line = &lines[li];
        if line.len() != cols {
            proof {
                if good_grid(ls) {
                    assert(ls[li as int].len() == ls[0].len());
                    assert(false);
                }
            }
            return None;
        }
        let mut j: usize = 0;
        while j < cols
            invariant
                ls == lines_spec(s@),
                lines.deep_view() == ls,
                lines@.len() == rows,
                1 <= rows <= max_dim,
                1 <= cols <= max_dim,
                max_dim <= 0xffff,
                cols == ls[0].len(),
                li < rows,
                j <= cols,
                line@ == ls[li as int],
                line@.len() == cols,
                cells@.len() == li * cols + j,
                forall|jj: int| 0 <= jj < j ==> 48 <= #[trigger] ls[li as int][jj] <= 57,
                forall|k: int|
                    0 <= k < cells@.len() ==> cells@[k] == grid_cell(ls, cols as int, k)
                        && #[trigger] cells@[k] <= 9,
            decreases cols - j,
        {
            let c = line[j];
            if c < 48 || c > 57 {
                proof {
                    if good_grid(ls) {
                        assert(ls[li as int].len() == ls[0].len());
                        assert(48 <= ls[li as int][j as int] <= 57);
                        assert(false);
                    }
                }
                return None;
            }
            proof {
                assert(cells@.len() + 1 <= rows * cols && rows * cols <= 0xffff * 0xffff) by (
                nonlinear_arith)
                    requires
                        cells@.len() == li * cols + j,
                        0 <= li < rows,
                        0 <= j < cols,
                        rows <= 0xffff,
                        cols <= 0xffff,
                ;
                vstd::arithmetic::div_mod::lemma_fundamental_div_mod_converse(
                    li * cols + j,
                    cols as int,
                    li as int,
                    j as int,
                );
            }
            cells.push(c - 48);
            j = j + 1;
        }
        proof {
            assert((li + 1) * cols == li * cols + cols) by (nonlinear_arith);
        }
        li = li + 1;
    }
    proof {
        assert(good_grid(ls));
        assert(cells@.len() == rows * cols);
    }
    Some((cells, rows, cols))
}

/// A fresh vector with the same elements.
pub fn copy_vec<T: Copy>(v: &Vec<T>) -> (r: Vec<T>)
    ensures
        r@ == v@,
{
    let mut r: Vec<T> = Vec::new();
    let mut i: usize = 0;
    while i < v.len()
        invariant
            i <= v@.len(),
            r@ == v@.take(i as int),
        decreases v@.len() - i,
    {
        r.push(v[i]);
        proof {
            assert(r@ =~= v@.take(i + 1));
        }
        i = i + 1;
    }
    proof {
        assert(v@.take(v@.len() as int) =~= v@);
    }
    r
}

/// A fresh vector with the same bytes.
pub fn copy_bytes(v: &Vec<u8>) -> (r: Vec<u8>)
    ensures
        r@ == v@,
{
    let mut r: Vec<u8> = Vec::new();
    let mut i: usize = 0;
    while i < v.len()
        invariant
            i <= v@.len(),
            r@ == v@.take(i as int),
        decreases v@.len() - i,
    {
        r.push(v[i]);
        proof {
            assert(r@ =~= v@.take(i + 1));
        }
        i = i + 1;
    }
    proof {
        assert(v@.take(v@.len() as int) =~= v@);
    }
    r
}

/// Sorts the values ascending; the result is a rearrangement of the input.
pub fn sort_values(v: Vec<usize>) -> (r: Vec<usize>)
    ensures
        r@.to_multiset() == v@.to_multiset(),
        sorted_by(r@, |a: usize, b: usize| a <= b),
        r@.len() == v@.len(),
{
    let mut rem = v;
    let mut out: Vec<usize> = Vec::new();
    let ghost orig = rem@;
    proof {
        broadcast use vstd::seq_lib::group_to_multiset_ensures;
        broadcast use vstd::multiset::group_multiset_axioms;

        assert(out@.to_multiset() =~= Multiset::<usize>::empty());
        assert(out@.to_multiset().add(rem@.to_multiset()) =~= orig.to_multiset());
    }
    while rem.len() > 0
        invariant
            out@.to_multiset().add(rem@.to_multiset()) == orig.to_multiset(),
            out@.len() + rem@.len() == orig.len(),
            forall|a: int, b: int| 0 <= a < b < out@.len() ==> out@[a] <= out@[b],
            forall|a: int, x: int|
                0 <= a < out@.len() && 0 <= x < rem@.len() ==> out@[a] <= rem@[x],
        decreases rem@.len(),
    {
        let mut m: usize = 0;
        let mut x: usize = 1;
        while x < rem.len()
            invariant
                rem@.len() > 0,
                m < rem@.len(),
                x <= rem@.len(),
                forall|y: int| 0 <= y < x ==> rem@[m as int] <= rem@[y],
            decreases rem@.len() - x,
        {
            if rem[x] < rem[m] {
                m = x;
            }
            x = x + 1;
        }
        let ghost pre_rem = rem@;
        let ghost pre_out = out@;
        let picked = rem.remove(m);
        out.push(picked);
        proof {
            broadcast use vstd::seq_lib::group_to_multiset_ensures;
            broadcast use vstd::multiset::group_multiset_axioms;

            assert(pre_rem.remove(m as int).to_multiset() =~= pre_rem.to_multiset().remove(
                pre_rem[m as int],
            ));
            assert(pre_out.push(picked).to_multiset() =~= pre_out.to_multiset().insert(picked));
            assert(out@.to_multiset().add(rem@.to_multiset()) =~= orig.to_multiset());
            assert forall|a: int, x2: int|
                0 <= a < out@.len() && 0 <= x2 < rem@.len() implies out@[a] <= rem@[x2] by {
                if x2 < m {
                    assert(rem@[x2] == pre_rem[x2]);
                } else {
                    assert(rem@[x2] == pre_rem[x2 + 1]);
                }
            }
        }
    }
    proof {
        broadcast use vstd::seq_lib::group_to_multiset_ensures;
        broadcast use vstd::multiset::group_multiset_axioms;

        assert(rem@.to_multiset() =~= Multiset::<usize>::empty());
        assert(out@.to_multiset() =~= orig.to_multiset());
    }
    out
}

} // verus!
