//! Sonar sweep: count how often consecutive depth readings increase, either
//! reading by reading or over sums of three-reading sliding windows.

use vstd::prelude::*;

verus! {

/// Number of indices `i` in `1..n` with `s[i - 1] < s[i]`.
pub open spec fn increase_count(s: Seq<i32>, n: int) -> int
    decreases n,
{
    if n <= 1 {
        0
    } else {
        increase_count(s, n - 1) + if s[n - 2] < s[n - 1] {
            1int
        } else {
            0int
        }
    }
}

/// Sum of the three readings starting at index `i`.
pub open spec fn window_sum(s: Seq<i32>, i: int) -> int {
    s[i] + s[i + 1] + s[i + 2]
}

/// Number of indices `i` in `1..n` where the three-reading window starting at
/// `i` sums higher than the one starting at `i - 1`.
pub open spec fn window_increase_count(s: Seq<i32>, n: int) -> int
    decreases n,
{
    if n <= 1 {
        0
    } else {
        window_increase_count(s, n - 1) + if window_sum(s, n - 2) < window_sum(s, n - 1) {
            1int
        } else {
            0int
        }
    }
}

/// How often a depth reading is strictly larger than the one before it.
pub fn count_increases(values: &[i32]) -> (n: usize)
    requires
        values@.len() >= 1,
    ensures
        n == increase_count(values@, values@.len() as int),
{
    let mut n: usize = 0;
    let mut i: usize = 1;
    while i < values.len()
        invariant
            1 <= i <= values@.len(),
            n == increase_count(values@, i as int),
            n <= i - 1,
        decreases values@.len() - i,
    {
        if values[i - 1] < values[i] {
            n = n + 1;
        }
        i = i + 1;
    }
    n
}

/// How often the sum of a three-reading window is strictly larger than the
/// sum of the window one reading earlier.
pub fn count_window_increases(values: &[i32]) -> (n: usize)
    requires
        values@.len() >= 3,
    ensures
        n == window_increase_count(values@, values@.len() as int - 2),
{
    let len = values.len();
    let mut n: usize = 0;
    let mut i: usize = 1;
    while i < len - 2
        invariant
            values@.len() == len,
            3 <= len,
            1 <= i <= len - 2,
            n == window_increase_count(values@, i as int),
            n <= i - 1,
        decreases len - 2 - i,
    {
        let prev = values[i - 1] as i64 + values[i] as i64 + values[i + 1] as i64;
        let cur = values[i] as i64 + values[i + 1] as i64 + values[i + 2] as i64;
        if prev < cur {
            n = n + 1;
        }
        i = i + 1;
    }
    n
}

} // verus!
