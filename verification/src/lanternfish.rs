//! Lanternfish population: each day every fish's timer drops by one; a fish
//! at zero resets to six and spawns a new fish with timer eight.

use vstd::pervasive::VecAdditionalExecFns;
use vstd::prelude::*;

verus! {

/// A fish's timer after one day, before spawning is accounted.
pub open spec fn aged(f: u8) -> u8 {
    if f > 0 {
        (f - 1) as u8
    } else {
        6u8
    }
}

/// Number of fish at timer zero among the first `n`: the day's spawns.
pub open spec fn zero_count(fish: Seq<u8>, n: int) -> int
    decreases n,
{
    if n <= 0 {
        0
    } else {
        zero_count(fish, n - 1) + if fish[n - 1] == 0 {
            1int
        } else {
            0int
        }
    }
}

/// The whole school after one day: every timer aged, and one new fish with
/// timer eight per fish that was at zero.
pub open spec fn day_spec(fish: Seq<u8>) -> Seq<u8> {
    Seq::new(fish.len(), |i: int| aged(fish[i])) + Seq::new(
        zero_count(fish, fish.len() as int) as nat,
        |i: int| 8u8,
    )
}

/// The school after `n` days.
pub open spec fn days_spec(fish: Seq<u8>, n: int) -> Seq<u8>
    decreases n,
{
    if n <= 0 {
        fish
    } else {
        day_spec(days_spec(fish, n - 1))
    }
}

proof fn lemma_zero_count_bounds(fish: Seq<u8>, n: int)
    ensures
        0 <= zero_count(fish, n) <= (if n >= 0 {
            n
        } else {
            0
        }),
    decreases n,
{
    if n > 0 {
        lemma_zero_count_bounds(fish, n - 1);
    }
}

/// Advances the school one day in place.
pub fn step_loop(fish: &mut Vec<u8>)
    requires
        old(fish)@.len() * 2 <= usize::MAX,
    ensures
        final(fish)@ == day_spec(old(fish)@),
{
    let n = fish.len();
    let mut n_to_add: usize = 0;
    let mut i: usize = 0;
    while i < n
        invariant
            fish@.len() == n,
            i <= n,
            n * 2 <= usize::MAX,
            n_to_add == zero_count(old(fish)@, i as int),
            n_to_add <= i,
            forall|k: int| 0 <= k < i ==> fish@[k] == aged(old(fish)@[k]),
            forall|k: int| i <= k < n ==> fish@[k] == old(fish)@[k],
        decreases n - i,
    {
        let f = fish[i];
        proof {
            assert(fish@[i as int] == old(fish)@[i as int]);
        }
        if f > 0 {
            fish.set(i, f - 1);
        } else {
            fish.set(i, 6);
            n_to_add = n_to_add + 1;
        }
        i = i + 1;
    }
    let mut j: usize = 0;
    while j < n_to_add
        invariant
            n_to_add == zero_count(old(fish)@, n as int),
            old(fish)@.len() == n,
            j <= n_to_add,
            fish@.len() == n + j,
            forall|k: int| 0 <= k < n ==> fish@[k] == aged(old(fish)@[k]),
            forall|k: int| n <= k < n + j ==> fish@[k] == 8,
        decreases n_to_add - j,
    {
        fish.push(8);
        j = j + 1;
    }
    proof {
        lemma_zero_count_bounds(old(fish)@, n as int);
        assert(fish@ =~= day_spec(old(fish)@));
    }
}

/// Advances the school `n` days in place.
pub fn n_step(fish: &mut Vec<u8>, n: u32)
    requires
        forall|d: int| 0 <= d < n ==> days_spec(old(fish)@, d).len() * 2 <= usize::MAX,
    ensures
        final(fish)@ == days_spec(old(fish)@, n as int),
{
    let mut d: u32 = 0;
    while d < n
        invariant
            d <= n,
            fish@ == days_spec(old(fish)@, d as int),
            forall|dd: int| 0 <= dd < n ==> days_spec(old(fish)@, dd).len() * 2 <= usize::MAX,
        decreases n - d,
    {
        step_loop(fish);
        d = d + 1;
    }
}

} // verus!
