//! Chunk syntax checking: lines of `()[]{}<>` chunks. A line is corrupt when
//! a closing brace mismatches the innermost open chunk, and incomplete when
//! open chunks remain. Corrupt braces and completion sequences are scored;
//! the corruption scores are summed and the median completion score taken.

use crate::bytes;
use vstd::prelude::*;
use vstd::relations::sorted_by;
use vstd::relations::total_ordering;
use vstd::seq_lib::lemma_sorted_unique;

verus! {

#[derive(PartialEq, Eq, Structural, Clone, Copy, Debug)]
pub enum Brace {
    Triangle,
    Round,
    Square,
    Curly,
}

#[derive(PartialEq, Eq, Structural, Clone, Copy, Debug)]
pub enum Delimiter {
    Open(Brace),
    Close(Brace),
}

/// One scanned line: corrupt at some brace, broken by a close with nothing
/// open, or survived with the still-open chunks (innermost last).
pub enum LineCheck {
    Corrupt(Brace),
    Underflow,
    Survived(Vec<Brace>),
}

/// The byte is one of the eight chunk delimiters.
pub open spec fn is_delim_byte(c: u8) -> bool {
    c == 60 || c == 62 || c == 40 || c == 41 || c == 91 || c == 93 || c == 123 || c == 125
}

/// The byte opens a chunk.
pub open spec fn is_open_byte(c: u8) -> bool {
    c == 60 || c == 40 || c == 91 || c == 123
}

/// The brace family of a delimiter byte.
pub open spec fn brace_of(c: u8) -> Brace {
    if c == 60 || c == 62 {
        Brace::Triangle
    } else if c == 40 || c == 41 {
        Brace::Round
    } else if c == 91 || c == 93 {
        Brace::Square
    } else {
        Brace::Curly
    }
}

/// Corruption score of a brace family.
pub open spec fn brace_score(b: Brace) -> int {
    match b {
        Brace::Round => 3,
        Brace::Square => 57,
        Brace::Curly => 1197,
        Brace::Triangle => 25137,
    }
}

/// Completion score of a brace family.
pub open spec fn brace_score_two(b: Brace) -> int {
    match b {
        Brace::Round => 1,
        Brace::Square => 2,
        Brace::Curly => 3,
        Brace::Triangle => 4,
    }
}

/// Every byte of the line is a chunk delimiter.
pub open spec fn line_all_delims(s: Seq<u8>) -> bool {
    forall|j: int| 0 <= j < s.len() ==> is_delim_byte(#[trigger] s[j])
}

/// Scans `s` against the stack of open chunks `st`. Yields a kind (`0`
/// survived, `1` corrupt, `2` close-on-empty), the offending brace when
/// corrupt, and the final stack when survived.
pub open spec fn scan(s: Seq<u8>, st: Seq<Brace>) -> (int, Brace, Seq<Brace>)
    decreases s.len(),
{
    if s.len() == 0 {
        (0, Brace::Round, st)
    } else {
        let c = s[0];
        if is_open_byte(c) {
            scan(s.skip(1), st.push(brace_of(c)))
        } else if st.len() == 0 {
            (2, Brace::Round, st)
        } else if st.last() == brace_of(c) {
            scan(s.skip(1), st.drop_last())
        } else {
            (1, brace_of(c), st)
        }
    }
}

/// Score of closing the open chunks from innermost (last) outwards: each
/// step multiplies by five and adds the closing brace's completion score.
pub open spec fn completion_score(st: Seq<Brace>) -> int
    decreases st.len(),
{
    if st.len() == 0 {
        0
    } else {
        5 * completion_score(st.skip(1)) + brace_score_two(st[0])
    }
}

proof fn lemma_completion_nonneg(st: Seq<Brace>)
    ensures
        completion_score(st) >= 0,
    decreases st.len(),
{
    if st.len() > 0 {
        lemma_completion_nonneg(st.skip(1));
    }
}

/// Scores of suffixes never exceed the whole stack's score.
proof fn lemma_completion_suffix(st: Seq<Brace>, i: int)
    requires
        0 <= i <= st.len(),
    ensures
        completion_score(st.skip(i)) <= completion_score(st),
    decreases i,
{
    if i > 0 {
        lemma_completion_suffix(st, i - 1);
        lemma_completion_nonneg(st.skip(i));
        assert(st.skip(i - 1).skip(1) =~= st.skip(i));
        assert(completion_score(st.skip(i - 1)) == 5 * completion_score(st.skip(i))
            + brace_score_two(st.skip(i - 1)[0]));
    } else {
        assert(st.skip(0) =~= st);
    }
}

impl Brace {
    /// The brace family of a delimiter byte; nothing for any other byte.
    pub fn from_char(c: u8) -> (r: Option<Brace>)
        ensures
            match r {
                Some(b) => is_delim_byte(c) && b == brace_of(c),
                None => !is_delim_byte(c),
            },
    {
        if c == 60 || c == 62 {
            Some(Brace::Triangle)
        } else if c == 40 || c == 41 {
            Some(Brace::Round)
        } else if c == 91 || c == 93 {
            Some(Brace::Square)
        } else if c == 123 || c == 125 {
            Some(Brace::Curly)
        } else {
            None
        }
    }

    /// Corruption score of this brace family.
    pub fn get_score(&self) -> (r: usize)
        ensures
            r == brace_score(*self),
    {
        match self {
            Brace::Round => 3,
            Brace::Square => 57,
            Brace::Curly => 1197,
            Brace::Triangle => 25137,
        }
    }

    /// Completion score of this brace family.
    pub fn get_score_two(&self) -> (r: usize)
        ensures
            r == brace_score_two(*self),
    {
        match self {
            Brace::Round => 1,
            Brace::Square => 2,
            Brace::Curly => 3,
            Brace::Triangle => 4,
        }
    }
}

impl Delimiter {
    /// Classifies a delimiter byte as opening or closing its brace family.
    pub fn from_char(c: u8) -> (r: Option<Delimiter>)
        ensures
            match r {
                Some(d) => is_delim_byte(c) && d == (if is_open_byte(c) {
                    Delimiter::Open(brace_of(c))
                } else {
                    Delimiter::Close(brace_of(c))
                }),
                None => !is_delim_byte(c),
            },
    {
        let opens = c == 60 || c == 40 || c == 91 || c == 123;
        match Brace::from_char(c) {
            Some(b) => if opens {
                Some(Delimiter::Open(b))
            } else {
                Some(Delimiter::Close(b))
            },
            None => None,
        }
    }

    /// Corruption score of the delimiter's brace family.
    pub fn get_score(&self) -> (r: usize)
        ensures
            r == brace_score(
                match *self {
                    Delimiter::Open(b) => b,
                    Delimiter::Close(b) => b,
                },
            ),
    {
        match self {
            Delimiter::Open(x) => x.get_score(),
            Delimiter::Close(x) => x.get_score(),
        }
    }

    /// Completion score of the delimiter's brace family.
    pub fn get_score_two(&self) -> (r: usize)
        ensures
            r == brace_score_two(
                match *self {
                    Delimiter::Open(b) => b,
                    Delimiter::Close(b) => b,
                },
            ),
    {
        match self {
            Delimiter::Open(x) => x.get_score_two(),
            Delimiter::Close(x) => x.get_score_two(),
        }
    }
}

/// Scans one line of delimiters, mirroring `scan` on the empty stack.
pub fn check_line(line: &[u8]) -> (r: LineCheck)
    requires
        line_all_delims(line@),
    ensures
        match r {
            LineCheck::Corrupt(b) => scan(line@, Seq::empty()).0 == 1 && b == scan(
                line@,
                Seq::empty(),
            ).1,
            LineCheck::Underflow => scan(line@, Seq::empty()).0 == 2,
            LineCheck::Survived(st) => scan(line@, Seq::empty()).0 == 0 && st@ == scan(
                line@,
                Seq::empty(),
            ).2,
        },
{
    let mut stack: Vec<Brace> = Vec::new();
    let mut i: usize = 0;
    proof {
        assert(line@.skip(0) =~= line@);
    }
    while i < line.len()
        invariant
            i <= line@.len(),
            line_all_delims(line@),
            scan(line@, Seq::empty()) == scan(line@.skip(i as int), stack@),
        decreases line@.len() - i,
    {
        let c = line[i];
        proof {
            assert(line@.skip(i as int)[0] == line@[i as int]);
            assert(line@.skip(i as int).skip(1) =~= line@.skip(i + 1));
        }
        let opens = c == 60 || c == 40 || c == 91 || c == 123;
        if opens {
            let b = match Brace::from_char(c) {
                Some(b) => b,
                None => { return LineCheck::Underflow },
            };
            stack.push(b);
        } else {
            let top = match stack.pop() {
                Some(t) => t,
                None => { return LineCheck::Underflow },
            };
            let b = match Brace::from_char(c) {
                Some(b) => b,
                None => { return LineCheck::Underflow },
            };
            if top == b {
            } else {
                return LineCheck::Corrupt(b);
            }
        }
        i = i + 1;
    }
    proof {
        assert(line@.skip(line@.len() as int) =~= Seq::<u8>::empty());
    }
    LineCheck::Survived(stack)
}

/// Corruption score contributed by one line.
pub open spec fn line_corrupt_score(line: Seq<u8>) -> int {
    if scan(line, Seq::empty()).0 == 1 {
        brace_score(scan(line, Seq::empty()).1)
    } else {
        0
    }
}

/// Sum of the corruption scores of the first `n` lines.
pub open spec fn total_corrupt_score(ls: Seq<Seq<u8>>, n: int) -> int
    decreases n,
{
    if n <= 0 {
        0
    } else {
        total_corrupt_score(ls, n - 1) + line_corrupt_score(ls[n - 1])
    }
}

/// Every line of the input consists of chunk delimiters only.
pub open spec fn input_all_delims(ls: Seq<Seq<u8>>) -> bool {
    forall|l: int| 0 <= l < ls.len() ==> line_all_delims(#[trigger] ls[l])
}

/// Sum of the corruption scores of every line: the score of the first
/// illegal closing brace of each corrupt line.
pub fn part_one(input: &[u8]) -> (r: usize)
    requires
        input_all_delims(bytes::lines_spec(input@)),
        25137 * (input@.len() + 1) <= usize::MAX,
    ensures
        r == total_corrupt_score(bytes::lines_spec(input@), bytes::lines_spec(input@).len() as int),
{
    let mut lines = bytes::split_bytes(input, 10);
    proof {
        assert(lines.deep_view().last() == lines@[lines@.len() - 1]@);
        bytes::lemma_split_count(input@, 10);
    }
    if lines[lines.len() - 1].len() == 0 {
        lines.pop();
        proof {
            assert(lines.deep_view() =~~= bytes::lines_spec(input@));
        }
    } else {
        proof {
            assert(lines.deep_view() =~~= bytes::lines_spec(input@));
        }
    }
    let ghost ls = bytes::lines_spec(input@);
    let nlines = lines.len();
    let mut sum: usize = 0;
    let mut l: usize = 0;
    while l < nlines
        invariant
            ls == bytes::lines_spec(input@),
            lines.deep_view() == ls,
            lines@.len() == nlines,
            nlines <= input@.len() + 1,
            25137 * (input@.len() + 1) <= usize::MAX,
            input_all_delims(ls),
            l <= nlines,
            sum == total_corrupt_score(ls, l as int),
            sum <= 25137 * l,
        decreases nlines - l,
    {
        proof {
            assert(lines.deep_view()[l as int] == lines@[l as int]@);
        }
        let line = &lines[l];
        match check_line(line.as_slice()) {
            LineCheck::Corrupt(b) => {
                let s = b.get_score();
                proof {
                    assert(s <= 25137);
                    assert(sum + s <= 25137 * (l + 1));
                    assert(25137 * (l + 1) <= 25137 * (input@.len() + 1));
                }
                sum = sum + s;
            },
            LineCheck::Underflow => {},
            LineCheck::Survived(_) => {},
        }
        l = l + 1;
    }
    sum
}

/// Completion score of the `n` first lines' surviving stacks, in input
/// order. The scores are taken as machine integers; `scores_fit` says they
/// fit.
pub open spec fn survivor_scores(ls: Seq<Seq<u8>>, n: int) -> Seq<usize>
    decreases n,
{
    if n <= 0 {
        Seq::empty()
    } else {
        survivor_scores(ls, n - 1) + if scan(ls[n - 1], Seq::empty()).0 == 0 {
            seq![completion_score(scan(ls[n - 1], Seq::empty()).2) as usize]
        } else {
            Seq::empty()
        }
    }
}

/// Every surviving line's completion score fits in a machine integer.
pub open spec fn scores_fit(ls: Seq<Seq<u8>>) -> bool {
    forall|l: int|
        0 <= l < ls.len() && (#[trigger] scan(ls[l], Seq::empty())).0 == 0 ==> completion_score(
            scan(ls[l], Seq::empty()).2,
        ) <= usize::MAX
}

/// Completion score of this stack of open chunks.
fn completion_of(stack: &Vec<Brace>) -> (r: usize)
    requires
        completion_score(stack@) <= usize::MAX,
    ensures
        r == completion_score(stack@),
{
    let mut score: usize = 0;
    let mut i = stack.len();
    proof {
        assert(stack@.skip(stack@.len() as int) =~= Seq::<Brace>::empty());
    }
    while i > 0
        invariant
            i <= stack@.len(),
            completion_score(stack@) <= usize::MAX,
            score == completion_score(stack@.skip(i as int)),
        decreases i,
    {
        i = i - 1;
        let s2 = stack[i].get_score_two();
        proof {
            lemma_completion_suffix(stack@, i as int);
            lemma_completion_nonneg(stack@.skip(i + 1));
            assert(stack@.skip(i as int).skip(1) =~= stack@.skip(i + 1));
            assert(stack@.skip(i as int)[0] == stack@[i as int]);
            assert(completion_score(stack@.skip(i as int)) == 5 * completion_score(
                stack@.skip(i + 1),
            ) + brace_score_two(stack@[i as int]));
        }
        score = score * 5 + s2;
    }
    proof {
        assert(stack@.skip(0) =~= stack@);
    }
    score
}

/// The median completion score: the survivors' scores are sorted ascending
/// and the middle one (upper middle for an even count) returned.
pub fn part_two(input: &[u8]) -> (r: usize)
    requires
        input_all_delims(bytes::lines_spec(input@)),
        scores_fit(bytes::lines_spec(input@)),
        survivor_scores(bytes::lines_spec(input@), bytes::lines_spec(input@).len() as int).len()
            > 0,
    ensures
        r == survivor_scores(
            bytes::lines_spec(input@),
            bytes::lines_spec(input@).len() as int,
        ).sort_by(|a: usize, b: usize| a <= b)[survivor_scores(
            bytes::lines_spec(input@),
            bytes::lines_spec(input@).len() as int,
        ).len() as int / 2],
{
    let mut lines = bytes::split_bytes(input, 10);
    proof {
        assert(lines.deep_view().last() == lines@[lines@.len() - 1]@);
    }
    if lines[lines.len() - 1].len() == 0 {
        lines.pop();
        proof {
            assert(lines.deep_view() =~~= bytes::lines_spec(input@));
        }
    } else {
        proof {
            assert(lines.deep_view() =~~= bytes::lines_spec(input@));
        }
    }
    let ghost ls = bytes::lines_spec(input@);
    let nlines = lines.len();
    let mut scores: Vec<usize> = Vec::new();
    let mut l: usize = 0;
    while l < nlines
        invariant
            ls == bytes::lines_spec(input@),
            lines.deep_view() == ls,
            lines@.len() == nlines,
            input_all_delims(ls),
            scores_fit(ls),
            l <= nlines,
            scores@ == survivor_scores(ls, l as int),
        decreases nlines - l,
    {
        proof {
            assert(lines.deep_view()[l as int] == lines@[l as int]@);
        }
        let line = &lines[l];
        match check_line(line.as_slice()) {
            LineCheck::Survived(stack) => {
                let s = completion_of(&stack);
                scores.push(s);
                proof {
                    assert(scores@ =~= survivor_scores(ls, l + 1));
                }
            },
            LineCheck::Corrupt(_) => {
                proof {
                    assert(scores@ =~= survivor_scores(ls, l + 1));
                }
            },
            LineCheck::Underflow => {
                proof {
                    assert(scores@ =~= survivor_scores(ls, l + 1));
                }
            },
        }
        l = l + 1;
    }
    let ghost all = survivor_scores(ls, ls.len() as int);
    let sorted = bytes::sort_values(scores);
    proof {
        let le = |a: usize, b: usize| a <= b;
        assert(total_ordering(le)) by {
            assert forall|a: usize, b: usize, c: usize| #[trigger]
                le(a, b) && #[trigger] le(b, c) implies le(a, c) by {}
        }
        all.lemma_sort_by_ensures(le);
        lemma_sorted_unique(sorted@, all.sort_by(le), le);
    }
    sorted[sorted.len() / 2]
}

} // verus!
