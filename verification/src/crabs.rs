//! Crab alignment: crabs at integer positions move to a common column. The
//! first fuel rule charges one unit per step; the second charges one more
//! for each further step, so `d` steps cost `d (d + 1) / 2`. The cheapest
//! target below the rightmost crab is found by trying each one.

use vstd::prelude::*;

verus! {

/// Distance between a crab at `p` and the target `i`.
pub open spec fn dist(p: int, i: int) -> int {
    if p >= i {
        p - i
    } else {
        i - p
    }
}

/// Fuel to bring the first `k` crabs to `i`, one unit per step.
pub open spec fn cost_one(pos: Seq<usize>, i: int, k: int) -> int
    decreases k,
{
    if k <= 0 {
        0
    } else {
        cost_one(pos, i, k - 1) + dist(pos[k - 1] as int, i)
    }
}

/// Twice the fuel to bring the first `k` crabs to `i` under the growing
/// rule: each crab contributes `d (d + 1)`.
pub open spec fn cost_two_doubled(pos: Seq<usize>, i: int, k: int) -> int
    decreases k,
{
    if k <= 0 {
        0
    } else {
        cost_two_doubled(pos, i, k - 1) + dist(pos[k - 1] as int, i) * (dist(pos[k - 1] as int, i)
            + 1)
    }
}

/// The largest crab position among the first `k`.
pub open spec fn max_pos(pos: Seq<usize>, k: int) -> int
    decreases k,
{
    if k <= 1 {
        pos[0] as int
    } else if pos[k - 1] as int > max_pos(pos, k - 1) {
        pos[k - 1] as int
    } else {
        max_pos(pos, k - 1)
    }
}

/// The smallest value of `f` over targets `0 .. m`.
pub open spec fn min_cost_one(pos: Seq<usize>, m: int) -> int
    decreases m,
{
    if m <= 1 {
        cost_one(pos, 0, pos.len() as int)
    } else if cost_one(pos, m - 1, pos.len() as int) < min_cost_one(pos, m - 1) {
        cost_one(pos, m - 1, pos.len() as int)
    } else {
        min_cost_one(pos, m - 1)
    }
}

/// The smallest doubled growing-rule cost over targets `0 .. m`.
pub open spec fn min_cost_two_doubled(pos: Seq<usize>, m: int) -> int
    decreases m,
{
    if m <= 1 {
        cost_two_doubled(pos, 0, pos.len() as int)
    } else if cost_two_doubled(pos, m - 1, pos.len() as int) < min_cost_two_doubled(pos, m - 1) {
        cost_two_doubled(pos, m - 1, pos.len() as int)
    } else {
        min_cost_two_doubled(pos, m - 1)
    }
}

proof fn lemma_cost_one_nonneg(pos: Seq<usize>, i: int, k: int)
    ensures
        cost_one(pos, i, k) >= 0,
    decreases k,
{
    if k > 0 {
        lemma_cost_one_nonneg(pos, i, k - 1);
    }
}

proof fn lemma_cost_two_nonneg(pos: Seq<usize>, i: int, k: int)
    ensures
        cost_two_doubled(pos, i, k) >= 0,
    decreases k,
{
    if k > 0 {
        lemma_cost_two_nonneg(pos, i, k - 1);
        let d = dist(pos[k - 1] as int, i);
        assert(d * (d + 1) >= 0) by (nonlinear_arith)
            requires
                d >= 0,
        ;
    }
}

/// Fuel to align every crab under the one-unit rule: the cheapest target
/// strictly below the rightmost crab.
pub fn part_one(pos: &Vec<usize>) -> (r: usize)
    requires
        pos@.len() >= 1,
        max_pos(pos@, pos@.len() as int) >= 1,
        forall|i: int|
            0 <= i < max_pos(pos@, pos@.len() as int) ==> #[trigger] cost_one(
                pos@,
                i,
                pos@.len() as int,
            ) <= usize::MAX,
    ensures
        r == min_cost_one(pos@, max_pos(pos@, pos@.len() as int)),
{
    let n = pos.len();
    let mut max: usize = pos[0];
    let mut k: usize = 1;
    while k < n
        invariant
            pos@.len() == n,
            1 <= k <= n,
            max == max_pos(pos@, k as int),
        decreases n - k,
    {
        if pos[k] > max {
            max = pos[k];
        }
        k = k + 1;
    }
    let mut best: usize = 0;
    let mut i: usize = 0;
    while i < max
        invariant
            pos@.len() == n,
            n >= 1,
            max == max_pos(pos@, n as int),
            max >= 1,
            i <= max,
            forall|t: int|
                0 <= t < max ==> #[trigger] cost_one(pos@, t, n as int) <= usize::MAX,
            i == 0 ==> best == 0,
            i > 0 ==> best == min_cost_one(pos@, i as int),
        decreases max - i,
    {
        let mut c: usize = 0;
        let mut k: usize = 0;
        proof {
            lemma_cost_one_nonneg(pos@, i as int, n as int);
        }
        while k < n
            invariant
                pos@.len() == n,
                i < max,
                forall|t: int|
                    0 <= t < max ==> #[trigger] cost_one(pos@, t, n as int) <= usize::MAX,
                k <= n,
                c == cost_one(pos@, i as int, k as int),
                c <= cost_one(pos@, i as int, n as int),
            decreases n - k,
        {
            proof {
                lemma_cost_one_prefix(pos@, i as int, k + 1, n as int);
            }
            let p = pos[k];
            let d = if p >= i {
                p - i
            } else {
                i - p
            };
            c = c + d;
            k = k + 1;
        }
        if i == 0 || c < best {
            best = c;
        }
        i = i + 1;
    }
    best
}

/// Partial costs never exceed the full cost.
proof fn lemma_cost_one_prefix(pos: Seq<usize>, i: int, a: int, b: int)
    requires
        a <= b,
    ensures
        cost_one(pos, i, a) <= cost_one(pos, i, b),
    decreases b - a,
{
    if a < b {
        lemma_cost_one_prefix(pos, i, a, b - 1);
    }
}

proof fn lemma_cost_two_prefix(pos: Seq<usize>, i: int, a: int, b: int)
    requires
        a <= b,
    ensures
        cost_two_doubled(pos, i, a) <= cost_two_doubled(pos, i, b),
    decreases b - a,
{
    if a < b {
        lemma_cost_two_prefix(pos, i, a, b - 1);
        let d = dist(pos[b - 1] as int, i);
        assert(d * (d + 1) >= 0) by (nonlinear_arith)
            requires
                d >= 0,
        ;
    }
}

/// Fuel to align every crab under the growing rule: half the cheapest
/// doubled cost over targets strictly below the rightmost crab.
pub fn part_two(pos: &Vec<usize>) -> (r: usize)
    requires
        pos@.len() >= 1,
        max_pos(pos@, pos@.len() as int) >= 1,
        forall|i: int|
            0 <= i < max_pos(pos@, pos@.len() as int) ==> #[trigger] cost_two_doubled(
                pos@,
                i,
                pos@.len() as int,
            ) <= usize::MAX,
        forall|j: int| 0 <= j < pos@.len() ==> (#[trigger] pos@[j]) < 0x4000_0000,
    ensures
        r == min_cost_two_doubled(pos@, max_pos(pos@, pos@.len() as int)) / 2,
{
    let n = pos.len();
    let mut max: usize = pos[0];
    let mut k: usize = 1;
    while k < n
        invariant
            pos@.len() == n,
            1 <= k <= n,
            max == max_pos(pos@, k as int),
        decreases n - k,
    {
        if pos[k] > max {
            max = pos[k];
        }
        k = k + 1;
    }
    proof {
        lemma_max_pos_bound(pos@, n as int);
    }
    let mut best: usize = 0;
    let mut i: usize = 0;
    while i < max
        invariant
            pos@.len() == n,
            n >= 1,
            max == max_pos(pos@, n as int),
            1 <= max < 0x4000_0000,
            forall|j: int| 0 <= j < n ==> (#[trigger] pos@[j]) < 0x4000_0000,
            i <= max,
            forall|t: int|
                0 <= t < max ==> #[trigger] cost_two_doubled(pos@, t, n as int) <= usize::MAX,
            i == 0 ==> best == 0,
            i > 0 ==> best == min_cost_two_doubled(pos@, i as int),
        decreases max - i,
    {
        let mut c: usize = 0;
        let mut k: usize = 0;
        proof {
            lemma_cost_two_nonneg(pos@, i as int, n as int);
        }
        while k < n
            invariant
                pos@.len() == n,
                i < max,
                max < 0x4000_0000,
                forall|j: int| 0 <= j < n ==> (#[trigger] pos@[j]) < 0x4000_0000,
                forall|t: int|
                    0 <= t < max ==> #[trigger] cost_two_doubled(pos@, t, n as int) <= usize::MAX,
                k <= n,
                c == cost_two_doubled(pos@, i as int, k as int),
                c <= cost_two_doubled(pos@, i as int, n as int),
            decreases n - k,
        {
            proof {
                lemma_cost_two_prefix(pos@, i as int, k + 1, n as int);
            }
            let p = pos[k];
            let d: usize = if p >= i {
                p - i
            } else {
                i - p
            };
            proof {
                assert((d as int) * (d as int + 1) <= 0x4000_0000 * 0x4000_0001) by (
                nonlinear_arith)
                    requires
                        0 <= d as int <= 0x4000_0000,
                ;
            }
            let add: usize = d * (d + 1);
            c = c + add;
            k = k + 1;
        }
        if i == 0 || c < best {
            best = c;
        }
        i = i + 1;
    }
    best / 2
}

proof fn lemma_max_pos_bound(pos: Seq<usize>, k: int)
    requires
        1 <= k <= pos.len(),
        forall|j: int| 0 <= j < pos.len() ==> (#[trigger] pos[j]) < 0x4000_0000,
    ensures
        max_pos(pos, k) < 0x4000_0000,
    decreases k,
{
    if k > 1 {
        lemma_max_pos_bound(pos, k - 1);
    }
}

} // verus!
