//! Polymer expansion: a template string grows by pair-insertion rules, each
//! step replacing a pair `ab` with `ac`, `cb` when a rule `ab -> c` exists.
//! Only pair counts matter, so the state is one counter per byte pair; the
//! answer is the spread between the most and least common element.

use vstd::pervasive::VecAdditionalExecFns;
use vstd::prelude::*;

verus! {

/// Pair counter index of the pair `(a, b)`.
pub open spec fn pair_idx(a: int, b: int) -> int {
    a * 256 + b
}

/// Pair counts of the template's adjacent pairs, over its first `n + 1`
/// bytes.
pub open spec fn seed_pairs(start: Seq<u8>, n: int) -> Seq<int>
    decreases n,
{
    if n <= 0 {
        Seq::new(65536, |q: int| 0)
    } else {
        let prev = seed_pairs(start, n - 1);
        let q = pair_idx(start[n - 1] as int, start[n] as int);
        prev.update(q, prev[q] + 1)
    }
}

/// Element counts of the template's first `n` bytes.
pub open spec fn seed_counts(start: Seq<u8>, n: int) -> Seq<int>
    decreases n,
{
    if n <= 0 {
        Seq::new(256, |c: int| 0)
    } else {
        let prev = seed_counts(start, n - 1);
        let c = start[n - 1] as int;
        prev.update(c, prev[c] + 1)
    }
}

/// One expansion step, processing the pairs with index below `j`: a pair
/// `ab` with rule byte `c` sends its count to `ac` and `cb` and adds `c` to
/// the element counts; a pair without a rule keeps its count.
pub open spec fn step_pairs(state: Seq<int>, rules: Seq<Option<u8>>, j: int) -> Seq<int>
    decreases j,
{
    if j <= 0 {
        Seq::new(65536, |q: int| 0)
    } else {
        let acc = step_pairs(state, rules, j - 1);
        let q = j - 1;
        match rules[q] {
            Some(c) => {
                let left = pair_idx(q / 256, c as int);
                let right = pair_idx(c as int, q % 256);
                let acc1 = acc.update(left, acc[left] + state[q]);
                acc1.update(right, acc1[right] + state[q])
            },
            None => acc.update(q, acc[q] + state[q]),
        }
    }
}

/// Element counts after one expansion step over the pairs below `j`.
pub open spec fn step_counts(state: Seq<int>, counts: Seq<int>, rules: Seq<Option<u8>>, j: int) -> Seq<int>
    decreases j,
{
    if j <= 0 {
        counts
    } else {
        let acc = step_counts(state, counts, rules, j - 1);
        let q = j - 1;
        match rules[q] {
            Some(c) => acc.update(c as int, acc[c as int] + state[q]),
            None => acc,
        }
    }
}

/// Pair counts after `n` expansion steps.
pub open spec fn run_pairs(state: Seq<int>, rules: Seq<Option<u8>>, n: int) -> Seq<int>
    decreases n,
{
    if n <= 0 {
        state
    } else {
        step_pairs(run_pairs(state, rules, n - 1), rules, 65536)
    }
}

/// Element counts after `n` expansion steps.
pub open spec fn run_counts(state: Seq<int>, counts: Seq<int>, rules: Seq<Option<u8>>, n: int) -> Seq<int>
    decreases n,
{
    if n <= 0 {
        counts
    } else {
        step_counts(
            run_pairs(state, rules, n - 1),
            run_counts(state, counts, rules, n - 1),
            rules,
            65536,
        )
    }
}

/// Largest count among elements that occur at all.
pub open spec fn max_present(counts: Seq<int>, c: int) -> int
    decreases c,
{
    if c <= 0 {
        0
    } else if counts[c - 1] > max_present(counts, c - 1) {
        counts[c - 1]
    } else {
        max_present(counts, c - 1)
    }
}

/// Smallest positive count, or zero when no element occurs.
pub open spec fn min_present(counts: Seq<int>, c: int) -> int
    decreases c,
{
    if c <= 0 {
        0
    } else {
        let rest = min_present(counts, c - 1);
        if counts[c - 1] > 0 && (rest == 0 || counts[c - 1] < rest) {
            counts[c - 1]
        } else {
            rest
        }
    }
}

/// The spread the puzzle asks for after `n` steps from the template
/// `start` under `rules`.
pub open spec fn polymer_spread(start: Seq<u8>, rules: Seq<Option<u8>>, n: int) -> int {
    let pairs = seed_pairs(start, start.len() as int - 1);
    let counts = seed_counts(start, start.len() as int);
    let fin = run_counts(pairs, counts, rules, n);
    max_present(fin, 256) - min_present(fin, 256)
}

/// Every counter the run touches stays representable: the partial pair and
/// element counts while reading the template, and the partial counters of
/// every expansion step.
pub open spec fn counters_fit(start: Seq<u8>, rules: Seq<Option<u8>>, n: int) -> bool {
    let pairs0 = seed_pairs(start, start.len() as int - 1);
    let counts0 = seed_counts(start, start.len() as int);
    &&& forall|i: int, q: int|
        0 <= i <= start.len() - 1 && 0 <= q < 65536 ==> (#[trigger] seed_pairs(start, i)[q])
            <= u64::MAX
    &&& forall|i: int, c: int|
        0 <= i <= start.len() && 0 <= c < 256 ==> (#[trigger] seed_counts(start, i)[c])
            <= u64::MAX
    &&& forall|d: int, j: int, q: int|
        0 <= d < n && 0 <= j <= 65536 && 0 <= q < 65536 ==> (#[trigger] step_pairs(
            run_pairs(pairs0, rules, d),
            rules,
            j,
        )[q]) <= u64::MAX
    &&& forall|d: int, j: int, c: int|
        0 <= d < n && 0 <= j <= 65536 && 0 <= c < 256 ==> (#[trigger] step_counts(
            run_pairs(pairs0, rules, d),
            run_counts(pairs0, counts0, rules, d),
            rules,
            j,
        )[c]) <= u64::MAX
}

/// Expands the template `n` steps and returns how much more common the most
/// common element is than the least common one. `rules` maps each pair
/// index (first byte times 256 plus second byte) to the inserted byte.
/// Fails only when some counter of the run outgrows the machine.
pub fn part(start: &Vec<u8>, instructions: &Vec<Option<u8>>, n: usize) -> (r: Option<u64>)
    requires
        start@.len() >= 1,
        instructions@.len() == 65536,
    ensures
        match r {
            Some(v) => v == polymer_spread(start@, instructions@, n as int),
            None => !counters_fit(start@, instructions@, n as int),
        },
{
    let ghost rules = instructions@;
    // Seed the pair and element counters from the template.
    let mut state: Vec<u64> = Vec::new();
    let mut q: usize = 0;
    while q < 65536
        invariant
            q <= 65536,
            state@.len() == q,
            forall|k: int| 0 <= k < q ==> (#[trigger] state@[k]) == 0,
        decreases 65536 - q,
    {
        state.push(0);
        q = q + 1;
    }
    let mut counts: Vec<u64> = Vec::new();
    let mut c: usize = 0;
    while c < 256
        invariant
            c <= 256,
            counts@.len() == c,
            forall|k: int| 0 <= k < c ==> (#[trigger] counts@[k]) == 0,
        decreases 256 - c,
    {
        counts.push(0);
        c = c + 1;
    }
    proof {
        assert(state@.map_values(|x: u64| x as int) =~= seed_pairs(start@, 0));
        assert(counts@.map_values(|x: u64| x as int) =~= seed_counts(start@, 0));
    }
    let slen = start.len();
    let mut i: usize = 0;
    while i + 1 < slen
        invariant
            start@.len() == slen,
            i < slen,
            state@.len() == 65536,
            state@.map_values(|x: u64| x as int) == seed_pairs(start@, i as int),
        decreases slen - i,
    {
        let a = start[i];
        let b = start[i + 1];
        let qi: usize = (a as usize) * 256 + (b as usize);
        let cur = state[qi];
        if cur == u64::MAX {
            proof {
                if counters_fit(start@, instructions@, n as int) {
                    assert(state@.map_values(|x: u64| x as int)[qi as int] == state@[
                        qi as int
                    ] as int);
                    assert(qi as int == pair_idx(start@[i as int] as int, start@[i + 1] as int));
                    assert(seed_pairs(start@, i + 1)[qi as int] == u64::MAX + 1);
                    assert(seed_pairs(start@, i + 1)[qi as int] <= u64::MAX);
                    assert(false);
                }
            }
            return None;
        }
        state.set(qi, cur + 1);
        proof {
            assert(state@.map_values(|x: u64| x as int) =~= seed_pairs(start@, i + 1));
        }
        i = i + 1;
    }
    let mut i: usize = 0;
    while i < slen
        invariant
            start@.len() == slen,
            i <= slen,
            counts@.len() == 256,
            counts@.map_values(|x: u64| x as int) == seed_counts(start@, i as int),
        decreases slen - i,
    {
        let a = start[i];
        let cur = counts[a as usize];
        if cur == u64::MAX {
            proof {
                if counters_fit(start@, instructions@, n as int) {
                    assert(counts@.map_values(|x: u64| x as int)[a as int] == counts@[
                        a as int
                    ] as int);
                    assert(seed_counts(start@, i + 1)[a as int] == u64::MAX + 1);
                    assert(seed_counts(start@, i + 1)[a as int] <= u64::MAX);
                    assert(false);
                }
            }
            return None;
        }
        counts.set(a as usize, cur + 1);
        proof {
            assert(counts@.map_values(|x: u64| x as int) =~= seed_counts(start@, i + 1));
        }
        i = i + 1;
    }
    proof {
        assert(seed_pairs(start@, slen as int - 1) == seed_pairs(start@, slen - 1));
    }
    // Expand.
    let ghost pairs0 = seed_pairs(start@, start@.len() as int - 1);
    let ghost counts0 = seed_counts(start@, start@.len() as int);
    let mut d: usize = 0;
    while d < n
        invariant
            instructions@ == rules,
            instructions@.len() == 65536,
            d <= n,
            state@.len() == 65536,
            counts@.len() == 256,
            start@.len() >= 1,
            pairs0 == seed_pairs(start@, start@.len() as int - 1),
            counts0 == seed_counts(start@, start@.len() as int),
            state@.map_values(|x: u64| x as int) == run_pairs(pairs0, rules, d as int),
            counts@.map_values(|x: u64| x as int) == run_counts(pairs0, counts0, rules, d as int),
        decreases n - d,
    {
        let ghost old_state = state@.map_values(|x: u64| x as int);
        let ghost old_counts = counts@.map_values(|x: u64| x as int);
        let mut new_state: Vec<u64> = Vec::new();
        let mut q: usize = 0;
        while q < 65536
            invariant
                q <= 65536,
                new_state@.len() == q,
                forall|k: int| 0 <= k < q ==> (#[trigger] new_state@[k]) == 0,
            decreases 65536 - q,
        {
            new_state.push(0);
            q = q + 1;
        }
        proof {
            assert(new_state@.map_values(|x: u64| x as int) =~= step_pairs(old_state, rules, 0));
        }
        let mut q: usize = 0;
        while q < 65536
            invariant
                instructions@ == rules,
                instructions@.len() == 65536,
                q <= 65536,
                state@.len() == 65536,
                counts@.len() == 256,
                new_state@.len() == 65536,
                old_state == state@.map_values(|x: u64| x as int),
                new_state@.map_values(|x: u64| x as int) == step_pairs(old_state, rules, q as int),
                counts@.map_values(|x: u64| x as int) == step_counts(
                    old_state,
                    old_counts,
                    rules,
                    q as int,
                ),
                start@.len() >= 1,
                pairs0 == seed_pairs(start@, start@.len() as int - 1),
                counts0 == seed_counts(start@, start@.len() as int),
                old_state == run_pairs(pairs0, rules, d as int),
                old_counts == run_counts(pairs0, counts0, rules, d as int),
                d < n,
            decreases 65536 - q,
        {
            let cnt = state[q];
            match instructions[q] {
                Some(ch) => {
                    let left: usize = (q / 256) * 256 + (ch as usize);
                    let right: usize = (ch as usize) * 256 + (q % 256);
                    proof {
                        assert((q as int) / 256 < 256 && (q as int) % 256 < 256 && 0 <= (q as int)
                            / 256 && 0 <= (q as int) % 256) by (nonlinear_arith)
                            requires
                                0 <= (q as int) && (q as int) < 65536,
                        ;
                        assert(((q as int) / 256) * 256 + (ch as int) < 65536) by (nonlinear_arith)
                            requires
                                0 <= (q as int) / 256 && (q as int) / 256 < 256,
                                0 <= (ch as int) && (ch as int) < 256,
                        ;
                        assert(((ch as int)) * 256 + ((q as int) % 256) < 65536) by (
                        nonlinear_arith)
                            requires
                                0 <= (q as int) % 256 && (q as int) % 256 < 256,
                                0 <= (ch as int) && (ch as int) < 256,
                        ;
                    }
                    let lv = new_state[left];
                    let lv2 = match lv.checked_add(cnt) {
                        Some(x) => x,
                        None => {
                            proof {
                                if counters_fit(start@, instructions@, n as int) {
                                    assert(new_state@.map_values(|x: u64| x as int)[left as int]
                                        == new_state@[left as int] as int);
                                    assert(state@.map_values(|x: u64| x as int)[q as int]
                                        == state@[q as int] as int);
                                    assert(step_pairs(old_state, rules, q + 1)[left as int] >= lv
                                        + cnt);
                                    assert(step_pairs(old_state, rules, q + 1)[left as int]
                                        <= u64::MAX);
                                    assert(false);
                                }
                            }
                            return None;
                        },
                    };
                    new_state.set(left, lv2);
                    let rv = new_state[right];
                    let rv2 = match rv.checked_add(cnt) {
                        Some(x) => x,
                        None => {
                            proof {
                                if counters_fit(start@, instructions@, n as int) {
                                    assert(new_state@.map_values(|x: u64| x as int)[right as int]
                                        == new_state@[right as int] as int);
                                    assert(state@.map_values(|x: u64| x as int)[q as int]
                                        == state@[q as int] as int);
                                    assert(step_pairs(old_state, rules, q + 1)[right as int] == rv
                                        + cnt);
                                    assert(step_pairs(old_state, rules, q + 1)[right as int]
                                        <= u64::MAX);
                                    assert(false);
                                }
                            }
                            return None;
                        },
                    };
                    new_state.set(right, rv2);
                    let cv = counts[ch as usize];
                    let cv2 = match cv.checked_add(cnt) {
                        Some(x) => x,
                        None => {
                            proof {
                                if counters_fit(start@, instructions@, n as int) {
                                    assert(counts@.map_values(|x: u64| x as int)[ch as int]
                                        == counts@[ch as int] as int);
                                    assert(state@.map_values(|x: u64| x as int)[q as int]
                                        == state@[q as int] as int);
                                    assert(step_counts(old_state, old_counts, rules, q + 1)[
                                        ch as int
                                    ] == cv + cnt);
                                    assert(step_counts(old_state, old_counts, rules, q + 1)[
                                        ch as int
                                    ] <= u64::MAX);
                                    assert(false);
                                }
                            }
                            return None;
                        },
                    };
                    counts.set(ch as usize, cv2);
                    proof {
                        assert(new_state@.map_values(|x: u64| x as int) =~= step_pairs(
                            old_state,
                            rules,
                            q + 1,
                        ));
                        assert(counts@.map_values(|x: u64| x as int) =~= step_counts(
                            old_state,
                            old_counts,
                            rules,
                            q + 1,
                        ));
                    }
                },
                None => {
                    let nv = new_state[q];
                    let nv2 = match nv.checked_add(cnt) {
                        Some(x) => x,
                        None => {
                            proof {
                                if counters_fit(start@, instructions@, n as int) {
                                    assert(new_state@.map_values(|x: u64| x as int)[q as int]
                                        == new_state@[q as int] as int);
                                    assert(state@.map_values(|x: u64| x as int)[q as int]
                                        == state@[q as int] as int);
                                    assert(step_pairs(old_state, rules, q + 1)[q as int] == nv
                                        + cnt);
                                    assert(step_pairs(old_state, rules, q + 1)[q as int]
                                        <= u64::MAX);
                                    assert(false);
                                }
                            }
                            return None;
                        },
                    };
                    new_state.set(q, nv2);
                    proof {
                        assert(new_state@.map_values(|x: u64| x as int) =~= step_pairs(
                            old_state,
                            rules,
                            q + 1,
                        ));
                        assert(counts@.map_values(|x: u64| x as int) =~= step_counts(
                            old_state,
                            old_counts,
                            rules,
                            q + 1,
                        ));
                    }
                },
            }
            q = q + 1;
        }
        state = new_state;
        d = d + 1;
    }
    // Read off the spread.
    let mut maxv: u64 = 0;
    let mut minv: u64 = 0;
    let mut c: usize = 0;
    while c < 256
        invariant
            counts@.len() == 256,
            c <= 256,
            maxv as int == max_present(counts@.map_values(|x: u64| x as int), c as int),
            minv as int == min_present(counts@.map_values(|x: u64| x as int), c as int),
        decreases 256 - c,
    {
        let v = counts[c];
        proof {
            assert(counts@.map_values(|x: u64| x as int)[c as int] == counts@[c as int] as int);
        }
        if v > maxv {
            maxv = v;
        }
        if v > 0 && (minv == 0 || v < minv) {
            minv = v;
        }
        c = c + 1;
    }
    proof {
        lemma_min_le_max(counts@.map_values(|x: u64| x as int), 256);
    }
    Some(maxv - minv)
}

/// The smallest positive count never exceeds the largest count.
proof fn lemma_min_le_max(counts: Seq<int>, c: int)
    ensures
        0 <= min_present(counts, c),
        min_present(counts, c) <= max_present(counts, c) || max_present(counts, c) < 0,
        min_present(counts, c) > 0 ==> min_present(counts, c) <= max_present(counts, c),
    decreases c,
{
    if c > 0 {
        lemma_min_le_max(counts, c - 1);
    }
}

} // verus!
