//! Power diagnostics: readings are fixed-width binary numbers. The gamma
//! rate takes each bit position's majority bit, epsilon its complement; the
//! oxygen and carbon ratings filter the readings bit by bit from the top,
//! keeping the majority (or minority) bit value until one reading remains.

use vstd::prelude::*;

verus! {

/// Readings among the first `k` with a one under `mask`.
pub open spec fn count_masked(bs: Seq<u32>, mask: u32, k: int) -> int
    decreases k,
{
    if k <= 0 {
        0
    } else {
        count_masked(bs, mask, k - 1) + if bs[k - 1] & mask != 0 {
            1int
        } else {
            0int
        }
    }
}

/// Gamma rate over the low `i` bit positions: the majority bit of each
/// position, weighted by its place value.
pub open spec fn gamma_spec(bs: Seq<u32>, i: int) -> int
    decreases i,
{
    if i <= 0 {
        0
    } else {
        gamma_spec(bs, i - 1) + if count_masked(bs, 1u32 << ((i - 1) as u32), bs.len() as int) * 2
            > bs.len() {
            (1u32 << ((i - 1) as u32)) as int
        } else {
            0int
        }
    }
}

proof fn lemma_gamma_bound(bs: Seq<u32>, i: int)
    requires
        0 <= i <= 32,
    ensures
        0 <= gamma_spec(bs, i) <= u32::MAX,
    decreases i,
{
    lemma_gamma_fits(bs, i);
    vstd::arithmetic::power2::lemma2_to64();
    if i < 32 {
        vstd::arithmetic::power2::lemma_pow2_strictly_increases(i as nat, 32);
    }
}

/// The gamma rate never sets a bit twice: it stays under the highest place.
proof fn lemma_gamma_fits(bs: Seq<u32>, i: int)
    requires
        0 <= i <= 32,
    ensures
        0 <= gamma_spec(bs, i) < vstd::arithmetic::power2::pow2(i as nat),
    decreases i,
{
    if i > 0 {
        lemma_gamma_fits(bs, i - 1);
        let j32 = (i - 1) as u32;
        vstd::bits::lemma_u32_pow2_no_overflow(j32 as nat);
        vstd::bits::lemma_u32_shl_is_mul(1u32, j32);
        vstd::arithmetic::power2::lemma_pow2_unfold(i as nat);
        assert((1u32 << j32) as int == vstd::arithmetic::power2::pow2((i - 1) as nat));
    } else {
        vstd::arithmetic::power2::lemma2_to64();
    }
}

/// Gamma and epsilon: the majority bits of the readings and their
/// complement over the `size` low positions.
pub fn part_one(size: usize, bytes: &Vec<u32>) -> (r: (u32, u32))
    requires
        1 <= size <= 32,
    ensures
        r.0 == gamma_spec(bytes@, size as int),
        r.1 as int == vstd::arithmetic::power2::pow2(size as nat) - 1 - gamma_spec(
            bytes@,
            size as int,
        ),
{
    let n = bytes.len();
    let mut gamma: u32 = 0;
    let mut i: usize = 0;
    proof {
        lemma_gamma_fits(bytes@, size as int);
    }
    while i < size
        invariant
            bytes@.len() == n,
            1 <= size <= 32,
            i <= size,
            gamma == gamma_spec(bytes@, i as int),
        decreases size - i,
    {
        let mask: u32 = 1u32 << (i as u32);
        let mut cnt: usize = 0;
        let mut j: usize = 0;
        while j < n
            invariant
                bytes@.len() == n,
                j <= n,
                cnt == count_masked(bytes@, mask, j as int),
                cnt <= j,
            decreases n - j,
        {
            if bytes[j] & mask != 0 {
                cnt = cnt + 1;
            }
            j = j + 1;
        }
        proof {
            lemma_gamma_fits(bytes@, i as int);
            lemma_gamma_fits(bytes@, i + 1);
            lemma_gamma_bound(bytes@, i + 1);
            vstd::bits::lemma_u32_pow2_no_overflow(i as nat);
            vstd::bits::lemma_u32_shl_is_mul(1u32, i as u32);
        }
        if cnt > n / 2 {
            proof {
                assert(cnt * 2 > n);
            }
            gamma = gamma + mask;
        } else {
            proof {
                assert(cnt * 2 <= n);
            }
        }
        i = i + 1;
    }
    proof {
        lemma_gamma_fits(bytes@, size as int);
        vstd::bits::lemma_u64_pow2_no_overflow(size as nat);
        vstd::bits::lemma_u64_shl_is_mul(1u64, size as u64);
        vstd::arithmetic::power2::lemma2_to64();
    }
    let all: u64 = 1u64 << (size as u64);
    let epsilon = ((all - 1) - gamma as u64) as u32;
    (gamma, epsilon)
}

/// The readings among the first `k` whose bit under `mask` matches `keep`.
pub open spec fn keep_matching(bs: Seq<u32>, mask: u32, keep: bool, k: int) -> Seq<u32>
    decreases k,
{
    if k <= 0 {
        Seq::empty()
    } else {
        keep_matching(bs, mask, keep, k - 1) + if (bs[k - 1] & mask != 0) == keep {
            seq![bs[k - 1]]
        } else {
            Seq::empty()
        }
    }
}

/// Oxygen filtering from bit `i` down: keep the readings whose bit matches
/// the majority (ties favouring ones) until a single reading remains; zero
/// when the bits run out first.
pub open spec fn oxy_run(bs: Seq<u32>, i: int) -> u32
    decreases i + 1,
{
    if i < 0 {
        0
    } else {
        let mask = 1u32 << (i as u32);
        let keep = count_masked(bs, mask, bs.len() as int) * 2 >= bs.len();
        let f = keep_matching(bs, mask, keep, bs.len() as int);
        if f.len() == 1 {
            f[0]
        } else {
            oxy_run(f, i - 1)
        }
    }
}

/// Carbon filtering from bit `i` down: keep the minority bit (ties
/// favouring zeroes) until a single reading remains; zero when the bits run
/// out first.
pub open spec fn carbon_run(bs: Seq<u32>, i: int) -> u32
    decreases i + 1,
{
    if i < 0 {
        0
    } else {
        let mask = 1u32 << (i as u32);
        let keep = count_masked(bs, mask, bs.len() as int) * 2 < bs.len();
        let f = keep_matching(bs, mask, keep, bs.len() as int);
        if f.len() == 1 {
            f[0]
        } else {
            carbon_run(f, i - 1)
        }
    }
}

proof fn lemma_keep_matching_len(bs: Seq<u32>, mask: u32, keep: bool, k: int)
    ensures
        keep_matching(bs, mask, keep, k).len() <= (if k >= 0 {
            k
        } else {
            0
        }),
    decreases k,
{
    if k > 0 {
        lemma_keep_matching_len(bs, mask, keep, k - 1);
    }
}

/// One filtering pass: the readings whose bit under `mask` matches `keep`.
fn filter_pass(bs: &Vec<u32>, mask: u32, keep: bool) -> (r: Vec<u32>)
    ensures
        r@ == keep_matching(bs@, mask, keep, bs@.len() as int),
{
    let n = bs.len();
    let mut r: Vec<u32> = Vec::new();
    let mut j: usize = 0;
    while j < n
        invariant
            bs@.len() == n,
            j <= n,
            r@ == keep_matching(bs@, mask, keep, j as int),
        decreases n - j,
    {
        let b = bs[j];
        if (b & mask != 0) == keep {
            r.push(b);
            proof {
                assert(r@ =~= keep_matching(bs@, mask, keep, j + 1));
            }
        } else {
            proof {
                assert(r@ =~= keep_matching(bs@, mask, keep, j + 1));
            }
        }
        j = j + 1;
    }
    r
}

/// Readings with a one under `mask`, counted over the whole vector.
fn count_pass(bs: &Vec<u32>, mask: u32) -> (r: usize)
    ensures
        r == count_masked(bs@, mask, bs@.len() as int),
        r <= bs@.len(),
{
    let n = bs.len();
    let mut cnt: usize = 0;
    let mut j: usize = 0;
    while j < n
        invariant
            bs@.len() == n,
            j <= n,
            cnt == count_masked(bs@, mask, j as int),
            cnt <= j,
        decreases n - j,
    {
        if bs[j] & mask != 0 {
            cnt = cnt + 1;
        }
        j = j + 1;
    }
    cnt
}

/// Oxygen and carbon ratings: bitwise majority and minority filtering of
/// the readings from the top bit down.
pub fn part_two(size: usize, bytes: &Vec<u32>) -> (r: (u32, u32))
    requires
        1 <= size <= 32,
        bytes@.len() * 2 <= usize::MAX,
    ensures
        r.0 == oxy_run(bytes@, size as int - 1),
        r.1 == carbon_run(bytes@, size as int - 1),
{
    let mut oxygen: u32 = 0;
    let mut ox_bytes = crate::bytes::copy_vec(bytes);
    let mut i: usize = size;
    let mut done = false;
    while i > 0 && !done
        invariant
            size <= 32,
            i <= size,
            ox_bytes@.len() * 2 <= usize::MAX,
            !done ==> oxy_run(bytes@, size as int - 1) == oxy_run(ox_bytes@, i as int - 1),
            done ==> oxygen == oxy_run(bytes@, size as int - 1),
        decreases i,
    {
        i = i - 1;
        let mask: u32 = 1u32 << (i as u32);
        let cnt = count_pass(&ox_bytes, mask);
        let most_common = cnt * 2 >= ox_bytes.len();
        proof {
            lemma_keep_matching_len(ox_bytes@, mask, most_common, ox_bytes@.len() as int);
        }
        let filtered = filter_pass(&ox_bytes, mask, most_common);
        ox_bytes = filtered;
        if ox_bytes.len() == 1 {
            oxygen = ox_bytes[0];
            done = true;
        }
    }
    proof {
        if !done {
            assert(oxy_run(ox_bytes@, -1) == 0);
        }
    }
    let oxygen = if done {
        oxygen
    } else {
        0
    };
    let mut carbon: u32 = 0;
    let mut c_bytes = crate::bytes::copy_vec(bytes);
    let mut i: usize = size;
    let mut done2 = false;
    while i > 0 && !done2
        invariant
            size <= 32,
            i <= size,
            c_bytes@.len() * 2 <= usize::MAX,
            !done2 ==> carbon_run(bytes@, size as int - 1) == carbon_run(c_bytes@, i as int - 1),
            done2 ==> carbon == carbon_run(bytes@, size as int - 1),
        decreases i,
    {
        i = i - 1;
        let mask: u32 = 1u32 << (i as u32);
        let cnt = count_pass(&c_bytes, mask);
        let minority = cnt * 2 < c_bytes.len();
        proof {
            lemma_keep_matching_len(c_bytes@, mask, minority, c_bytes@.len() as int);
        }
        let filtered = filter_pass(&c_bytes, mask, minority);
        c_bytes = filtered;
        if c_bytes.len() == 1 {
            carbon = c_bytes[0];
            done2 = true;
        }
    }
    proof {
        if !done2 {
            assert(carbon_run(c_bytes@, -1) == 0);
        }
    }
    let carbon = if done2 {
        carbon
    } else {
        0
    };
    (oxygen, carbon)
}

} // verus!
