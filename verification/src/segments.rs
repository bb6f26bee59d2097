//! Seven-segment decoding: each line holds ten scrambled training patterns,
//! a `|`, and four output patterns. Patterns are sets of the segment wires
//! `a`..`g`, held as seven-bit masks. The training patterns identify which
//! mask lights which digit; the outputs are then read as a decimal number.

use crate::bytes;
use vstd::prelude::*;

verus! {

pub struct Code {
    pub digits: Vec<u8>,
}

/// The mask bit of one segment wire, zero for any other byte.
pub open spec fn seg_bit(c: u8) -> u8 {
    if c == 97 {
        1
    } else if c == 98 {
        2
    } else if c == 99 {
        4
    } else if c == 100 {
        8
    } else if c == 101 {
        16
    } else if c == 102 {
        32
    } else if c == 103 {
        64
    } else {
        0
    }
}

/// The segment set of a pattern, as a mask.
pub open spec fn mask_of(s: Seq<u8>) -> u8
    decreases s.len(),
{
    if s.len() == 0 {
        0
    } else {
        mask_of(s.drop_last()) | seg_bit(s.last())
    }
}

/// Number of lit segments in a mask.
pub open spec fn popcount(m: u8) -> int
    decreases m,
{
    if m == 0 {
        0
    } else {
        popcount(m / 2) + (m % 2)
    }
}

/// The masks of a sequence of patterns.
pub open spec fn masks_of(toks: Seq<Seq<u8>>) -> Seq<u8> {
    toks.map_values(|t: Seq<u8>| mask_of(t))
}

/// The last mask among `ms` with exactly `k` lit segments (zero if none).
pub open spec fn last_with_pc(ms: Seq<u8>, k: int) -> u8
    decreases ms.len(),
{
    if ms.len() == 0 {
        0
    } else if popcount(ms.last()) == k {
        ms.last()
    } else {
        last_with_pc(ms.drop_last(), k)
    }
}

/// Some mask among `ms` has exactly `k` lit segments.
pub open spec fn has_pc(ms: Seq<u8>, k: int) -> bool {
    exists|i: int| 0 <= i < ms.len() && popcount(#[trigger] ms[i]) == k
}

/// The deduction rule identifying digit `d` (six-segment digits against the
/// one-pattern `d1` and four-pattern `d4`; five-segment digits likewise).
pub open spec fn digit_prop(d: int, m: u8, d1: u8, d4: u8) -> bool {
    if d == 1 {
        popcount(m) == 2
    } else if d == 4 {
        popcount(m) == 4
    } else if d == 7 {
        popcount(m) == 3
    } else if d == 8 {
        popcount(m) == 7
    } else if d == 6 {
        popcount(m) == 6 && popcount(m & d1) == 1
    } else if d == 9 {
        popcount(m) == 6 && popcount(m & d1) != 1 && popcount(m & d4) == 4
    } else if d == 0 {
        popcount(m) == 6 && popcount(m & d1) != 1 && popcount(m & d4) != 4
    } else if d == 3 {
        popcount(m) == 5 && popcount(m & d1) == 2
    } else if d == 2 {
        popcount(m) == 5 && popcount(m & d1) != 2 && popcount(m & d4) == 2
    } else {
        popcount(m) == 5 && popcount(m & d1) != 2 && popcount(m & d4) != 2
    }
}

/// The training masks identify every digit: each deduction rule has a
/// witness (the one, four, seven and eight patterns by segment count, then
/// the six- and five-segment trichotomies).
pub open spec fn valid_training(ms: Seq<u8>) -> bool {
    let d1 = last_with_pc(ms, 2);
    let d4 = last_with_pc(ms, 4);
    &&& has_pc(ms, 2)
    &&& has_pc(ms, 4)
    &&& has_pc(ms, 3)
    &&& has_pc(ms, 7)
    &&& forall|i: int|
        0 <= i < ms.len() ==> 2 <= popcount(#[trigger] ms[i]) <= 7
    &&& exists|i: int| 0 <= i < ms.len() && digit_prop(6, #[trigger] ms[i], d1, d4)
    &&& exists|i: int| 0 <= i < ms.len() && digit_prop(9, #[trigger] ms[i], d1, d4)
    &&& exists|i: int| 0 <= i < ms.len() && digit_prop(0, #[trigger] ms[i], d1, d4)
    &&& exists|i: int| 0 <= i < ms.len() && digit_prop(3, #[trigger] ms[i], d1, d4)
    &&& exists|i: int| 0 <= i < ms.len() && digit_prop(2, #[trigger] ms[i], d1, d4)
    &&& exists|i: int| 0 <= i < ms.len() && digit_prop(5, #[trigger] ms[i], d1, d4)
}

/// The segment mask of one pattern.
pub fn mask_of_token(s: &[u8]) -> (m: u8)
    ensures
        m == mask_of(s@),
{
    let mut m: u8 = 0;
    let mut i: usize = 0;
    while i < s.len()
        invariant
            i <= s@.len(),
            m == mask_of(s@.take(i as int)),
        decreases s@.len() - i,
    {
        let c = s[i];
        let b: u8 = if c == 97 {
            1
        } else if c == 98 {
            2
        } else if c == 99 {
            4
        } else if c == 100 {
            8
        } else if c == 101 {
            16
        } else if c == 102 {
            32
        } else if c == 103 {
            64
        } else {
            0
        };
        proof {
            assert(s@.take(i + 1).drop_last() =~= s@.take(i as int));
            assert(s@.take(i + 1).last() == s@[i as int]);
        }
        m = m | b;
        i = i + 1;
    }
    proof {
        assert(s@.take(s@.len() as int) =~= s@);
    }
    m
}

/// Number of lit segments in a mask.
pub fn popcount_of(m: u8) -> (n: usize)
    ensures
        n == popcount(m),
{
    let mut n: usize = 0;
    let mut x = m;
    proof {
        lemma_popcount_bounds(m);
    }
    while x > 0
        invariant
            n + popcount(x) == popcount(m),
            popcount(m) <= 255,
            n <= 255,
        decreases x,
    {
        proof {
            lemma_popcount_bounds(x);
            lemma_popcount_bounds(x / 2);
        }
        n = n + (x % 2) as usize;
        x = x / 2;
    }
    proof {
        lemma_popcount_bounds(x);
    }
    n
}

proof fn lemma_popcount_bounds(m: u8)
    ensures
        0 <= popcount(m) <= m,
    decreases m,
{
    if m > 0 {
        lemma_popcount_bounds(m / 2);
    }
}

impl Code {
    /// A code with no segments assigned to any digit.
    pub fn empty() -> (r: Code)
        ensures
            r.digits@.len() == 10,
            forall|k: int| 0 <= k < 10 ==> r.digits@[k] == 0,
    {
        let mut digits: Vec<u8> = Vec::new();
        let mut i: usize = 0;
        while i < 10
            invariant
                i <= 10,
                digits@.len() == i,
                forall|k: int| 0 <= k < i ==> digits@[k] == 0,
            decreases 10 - i,
        {
            digits.push(0);
            i = i + 1;
        }
        Code { digits }
    }

    /// Deduces which mask lights which digit from the ten training patterns
    /// (space-separated). Succeeds exactly when every deduction rule finds a
    /// witness among the patterns; each digit's mask is then a training mask
    /// satisfying that digit's rule, the one and four patterns being the
    /// last of their segment counts.
    pub fn new(training_data: &[u8]) -> (r: Option<Code>)
        ensures
            ({
                let ms = masks_of(bytes::split_spec(training_data@, 32));
                let d1 = last_with_pc(ms, 2);
                let d4 = last_with_pc(ms, 4);
                match r {
                    Some(c) => {
                        &&& valid_training(ms)
                        &&& c.digits@.len() == 10
                        &&& forall|d: int| 0 <= d < 10 ==> ms.contains(#[trigger] c.digits@[d])
                        &&& forall|d: int|
                            0 <= d < 10 ==> digit_prop(d, #[trigger] c.digits@[d], d1, d4)
                        &&& c.digits@[1] == d1
                        &&& c.digits@[4] == d4
                    },
                    None => !valid_training(ms),
                }
            }),
    {
        let toks = bytes::split_bytes(training_data, 32);
        let ghost ms = masks_of(bytes::split_spec(training_data@, 32));
        let ntoks = toks.len();
        let mut masks: Vec<u8> = Vec::new();
        let mut t: usize = 0;
        while t < ntoks
            invariant
                toks.deep_view() == bytes::split_spec(training_data@, 32),
                ms == masks_of(bytes::split_spec(training_data@, 32)),
                toks@.len() == ntoks,
                t <= ntoks,
                masks@.len() == t,
                forall|i: int| 0 <= i < t ==> masks@[i] == ms[i],
            decreases ntoks - t,
        {
            proof {
                assert(toks.deep_view()[t as int] == toks@[t as int]@);
            }
            let m = mask_of_token(toks[t].as_slice());
            masks.push(m);
            t = t + 1;
        }
        proof {
            assert(masks@ =~= ms);
        }
        // Classify by segment count; reject counts no digit has.
        let mut d1: u8 = 0;
        let mut d4: u8 = 0;
        let mut d7: u8 = 0;
        let mut d8: u8 = 0;
        let mut have1 = false;
        let mut have4 = false;
        let mut have7 = false;
        let mut have8 = false;
        let mut t: usize = 0;
        while t < ntoks
            invariant
                ms == masks_of(bytes::split_spec(training_data@, 32)),
                masks@ == ms,
                masks@.len() == ntoks,
                t <= ntoks,
                forall|i: int| 0 <= i < t ==> 2 <= popcount(#[trigger] ms[i]) <= 7,
                have1 <==> has_pc(ms.take(t as int), 2),
                have4 <==> has_pc(ms.take(t as int), 4),
                have7 <==> has_pc(ms.take(t as int), 3),
                have8 <==> has_pc(ms.take(t as int), 7),
                have1 ==> d1 == last_with_pc(ms.take(t as int), 2),
                have4 ==> d4 == last_with_pc(ms.take(t as int), 4),
                have7 ==> popcount(d7) == 3 && ms.contains(d7),
                have8 ==> popcount(d8) == 7 && ms.contains(d8),
                !have1 ==> last_with_pc(ms.take(t as int), 2) == 0 && d1 == 0,
                !have4 ==> last_with_pc(ms.take(t as int), 4) == 0 && d4 == 0,
            decreases ntoks - t,
        {
            let m = masks[t];
            let pc = popcount_of(m);
            proof {
                assert(ms.take(t + 1).drop_last() =~= ms.take(t as int));
                assert(ms.take(t + 1).last() == ms[t as int]);
            }
            if pc == 2 {
                d1 = m;
                have1 = true;
            } else if pc == 4 {
                d4 = m;
                have4 = true;
            } else if pc == 3 {
                d7 = m;
                have7 = true;
            } else if pc == 7 {
                d8 = m;
                have8 = true;
            } else if pc != 5 && pc != 6 {
                proof {
                    assert(!(2 <= popcount(ms[t as int]) <= 7));
                }
                return None;
            }
            proof {
                if has_pc(ms.take(t + 1), 2) && !has_pc(ms.take(t as int), 2) && pc != 2 {
                    let i = choose|i: int|
                        0 <= i < ms.take(t + 1).len() && popcount(#[trigger] ms.take(t + 1)[i])
                            == 2;
                    assert(ms.take(t as int)[i] == ms.take(t + 1)[i]);
                }
                if has_pc(ms.take(t + 1), 4) && !has_pc(ms.take(t as int), 4) && pc != 4 {
                    let i = choose|i: int|
                        0 <= i < ms.take(t + 1).len() && popcount(#[trigger] ms.take(t + 1)[i])
                            == 4;
                    assert(ms.take(t as int)[i] == ms.take(t + 1)[i]);
                }
                if has_pc(ms.take(t + 1), 3) && !has_pc(ms.take(t as int), 3) && pc != 3 {
                    let i = choose|i: int|
                        0 <= i < ms.take(t + 1).len() && popcount(#[trigger] ms.take(t + 1)[i])
                            == 3;
                    assert(ms.take(t as int)[i] == ms.take(t + 1)[i]);
                }
                if has_pc(ms.take(t + 1), 7) && !has_pc(ms.take(t as int), 7) && pc != 7 {
                    let i = choose|i: int|
                        0 <= i < ms.take(t + 1).len() && popcount(#[trigger] ms.take(t + 1)[i])
                            == 7;
                    assert(ms.take(t as int)[i] == ms.take(t + 1)[i]);
                }
                if pc == 3 {
                    assert(ms.contains(ms[t as int]));
                }
                if pc == 7 {
                    assert(ms.contains(ms[t as int]));
                }
            }
            t = t + 1;
        }
        proof {
            assert(ms.take(ntoks as int) =~= ms);
        }
        if !have1 || !have4 || !have7 || !have8 {
            return None;
        }
        // Resolve the six- and five-segment digits against one and four.
        let mut d0: u8 = 0;
        let mut d2: u8 = 0;
        let mut d3: u8 = 0;
        let mut d5: u8 = 0;
        let mut d6: u8 = 0;
        let mut d9: u8 = 0;
        let mut have0 = false;
        let mut have2 = false;
        let mut have3 = false;
        let mut have5 = false;
        let mut have6 = false;
        let mut have9 = false;
        let mut t: usize = 0;
        while t < ntoks
            invariant
                ms == masks_of(bytes::split_spec(training_data@, 32)),
                masks@ == ms,
                masks@.len() == ntoks,
                t <= ntoks,
                d1 == last_with_pc(ms, 2),
                d4 == last_with_pc(ms, 4),
                have6 <==> exists|i: int|
                    0 <= i < t && digit_prop(6, #[trigger] ms[i], d1, d4),
                have9 <==> exists|i: int|
                    0 <= i < t && digit_prop(9, #[trigger] ms[i], d1, d4),
                have0 <==> exists|i: int|
                    0 <= i < t && digit_prop(0, #[trigger] ms[i], d1, d4),
                have3 <==> exists|i: int|
                    0 <= i < t && digit_prop(3, #[trigger] ms[i], d1, d4),
                have2 <==> exists|i: int|
                    0 <= i < t && digit_prop(2, #[trigger] ms[i], d1, d4),
                have5 <==> exists|i: int|
                    0 <= i < t && digit_prop(5, #[trigger] ms[i], d1, d4),
                have6 ==> digit_prop(6, d6, d1, d4) && ms.contains(d6),
                have9 ==> digit_prop(9, d9, d1, d4) && ms.contains(d9),
                have0 ==> digit_prop(0, d0, d1, d4) && ms.contains(d0),
                have3 ==> digit_prop(3, d3, d1, d4) && ms.contains(d3),
                have2 ==> digit_prop(2, d2, d1, d4) && ms.contains(d2),
                have5 ==> digit_prop(5, d5, d1, d4) && ms.contains(d5),
            decreases ntoks - t,
        {
            let m = masks[t];
            let pc = popcount_of(m);
            proof {
                assert(ms.contains(ms[t as int]));
            }
            if pc == 6 {
                let pc1 = popcount_of(m & d1);
                if pc1 == 1 {
                    d6 = m;
                    have6 = true;
                } else {
                    let pc4 = popcount_of(m & d4);
                    if pc4 == 4 {
                        d9 = m;
                        have9 = true;
                    } else {
                        d0 = m;
                        have0 = true;
                    }
                }
            } else if pc == 5 {
                let pc1 = popcount_of(m & d1);
                if pc1 == 2 {
                    d3 = m;
                    have3 = true;
                } else {
                    let pc4 = popcount_of(m & d4);
                    if pc4 == 2 {
                        d2 = m;
                        have2 = true;
                    } else {
                        d5 = m;
                        have5 = true;
                    }
                }
            }
            t = t + 1;
        }
        if !have0 || !have2 || !have3 || !have5 || !have6 || !have9 {
            return None;
        }
        let mut digits: Vec<u8> = Vec::new();
        digits.push(d0);
        digits.push(d1);
        digits.push(d2);
        digits.push(d3);
        digits.push(d4);
        digits.push(d5);
        digits.push(d6);
        digits.push(d7);
        digits.push(d8);
        digits.push(d9);
        proof {
            assert(has_pc(ms, 2)) by {
                let i = choose|i: int| 0 <= i < ms.len() && popcount(#[trigger] ms[i]) == 2;
            }
            lemma_last_with_pc(ms, 2);
            lemma_last_with_pc(ms, 4);
        }
        Some(Code { digits })
    }
}

/// How many of the ten digit masks equal `m`.
pub open spec fn match_count(digits: Seq<u8>, m: u8) -> int
    decreases digits.len(),
{
    if digits.len() == 0 {
        0
    } else {
        match_count(digits.drop_last(), m) + if digits.last() == m {
            1int
        } else {
            0int
        }
    }
}

/// Index of the first digit mask equal to `m`, or the length if none.
pub open spec fn first_match(digits: Seq<u8>, m: u8) -> int
    decreases digits.len(),
{
    if digits.len() == 0 {
        0
    } else if digits[0] == m {
        0
    } else {
        1 + first_match(digits.skip(1), m)
    }
}

/// The digit an output pattern names: the first matching digit mask, or
/// zero when none matches.
pub open spec fn pattern_digit(digits: Seq<u8>, m: u8) -> int {
    if match_count(digits, m) >= 1 {
        first_match(digits, m)
    } else {
        0
    }
}

/// The decimal number the output patterns spell, leftmost pattern most
/// significant.
pub open spec fn dec_val(digits: Seq<u8>, os: Seq<u8>) -> int
    decreases os.len(),
{
    if os.len() == 0 {
        0
    } else {
        10 * dec_val(digits, os.drop_last()) + pattern_digit(digits, os.last())
    }
}

/// Some output pattern matches two or more digit masks.
pub open spec fn any_ambiguous(digits: Seq<u8>, os: Seq<u8>) -> bool {
    exists|j: int| 0 <= j < os.len() && match_count(digits, #[trigger] os[j]) >= 2
}

proof fn lemma_first_match(digits: Seq<u8>, m: u8)
    ensures
        0 <= first_match(digits, m) <= digits.len(),
        first_match(digits, m) < digits.len() ==> digits[first_match(digits, m)] == m,
        forall|j: int| 0 <= j < first_match(digits, m) ==> digits[j] != m,
    decreases digits.len(),
{
    if digits.len() != 0 && digits[0] != m {
        lemma_first_match(digits.skip(1), m);
        assert forall|j: int| 0 <= j < first_match(digits, m) implies digits[j] != m by {
            if j > 0 {
                assert(digits.skip(1)[j - 1] == digits[j]);
            }
        }
    }
}

proof fn lemma_first_match_is(digits: Seq<u8>, m: u8, k: int)
    requires
        0 <= k < digits.len(),
        digits[k] == m,
        forall|j: int| 0 <= j < k ==> digits[j] != m,
    ensures
        first_match(digits, m) == k,
{
    lemma_first_match(digits, m);
    if first_match(digits, m) < k {
        assert(digits[first_match(digits, m)] == m);
    }
}

proof fn lemma_match_count_nonneg(digits: Seq<u8>, m: u8)
    ensures
        0 <= match_count(digits, m) <= digits.len(),
    decreases digits.len(),
{
    if digits.len() > 0 {
        lemma_match_count_nonneg(digits.drop_last(), m);
    }
}

proof fn lemma_match_count_zero(digits: Seq<u8>, m: u8)
    requires
        forall|j: int| 0 <= j < digits.len() ==> digits[j] != m,
    ensures
        match_count(digits, m) == 0,
    decreases digits.len(),
{
    if digits.len() > 0 {
        lemma_match_count_zero(digits.drop_last(), m);
    }
}

proof fn lemma_dec_val_bound(digits: Seq<u8>, os: Seq<u8>)
    requires
        digits.len() == 10,
    ensures
        0 <= dec_val(digits, os) < pow10(os.len() as nat),
    decreases os.len(),
{
    if os.len() > 0 {
        lemma_dec_val_bound(digits, os.drop_last());
        lemma_first_match(digits, os.last());
        lemma_match_count_nonneg(digits, os.last());
        if match_count(digits, os.last()) >= 1 && first_match(digits, os.last())
            >= digits.len() {
            lemma_match_count_zero(digits, os.last());
        }
        assert(0 <= pattern_digit(digits, os.last()) <= 9);
    }
}

/// Ten to the `n`.
pub open spec fn pow10(n: nat) -> int
    decreases n,
{
    if n == 0 {
        1
    } else {
        10 * pow10((n - 1) as nat)
    }
}

impl Code {
    /// Reads the space-separated output patterns as a decimal number: each
    /// pattern contributes the first digit whose mask equals its own, and
    /// patterns matching no digit contribute zero. Fails exactly when some
    /// pattern matches two digit masks or the number overflows the machine.
    pub fn decode(&self, chars: &[u8]) -> (r: Option<usize>)
        requires
            self.digits@.len() == 10,
        ensures
            ({
                let os = masks_of(bytes::split_spec(chars@, 32));
                match r {
                    Some(v) => !any_ambiguous(self.digits@, os) && v == dec_val(self.digits@, os),
                    None => any_ambiguous(self.digits@, os) || dec_val(self.digits@, os)
                        > usize::MAX,
                }
            }),
    {
        let toks = bytes::split_bytes(chars, 32);
        let ghost os = masks_of(bytes::split_spec(chars@, 32));
        let ntoks = toks.len();
        let mut result: usize = 0;
        let mut j: usize = 0;
        while j < ntoks
            invariant
                os == masks_of(bytes::split_spec(chars@, 32)),
                toks.deep_view() == bytes::split_spec(chars@, 32),
                toks@.len() == ntoks,
                os.len() == ntoks,
                self.digits@.len() == 10,
                j <= ntoks,
                result == dec_val(self.digits@, os.take(j as int)),
                forall|jj: int| 0 <= jj < j ==> match_count(self.digits@, #[trigger] os[jj]) < 2,
            decreases ntoks - j,
        {
            proof {
                assert(toks.deep_view()[j as int] == toks@[j as int]@);
            }
            let m = mask_of_token(toks[j].as_slice());
            proof {
                assert(m == os[j as int]);
            }
            let mut cnt: usize = 0;
            let mut first: usize = 10;
            let mut k: usize = 0;
            while k < 10
                invariant
                    self.digits@.len() == 10,
                    k <= 10,
                    cnt == match_count(self.digits@.take(k as int), m),
                    cnt <= k,
                    cnt >= 1 ==> first < k && self.digits@[first as int] == m && (forall|kk: int|
                        0 <= kk < first ==> self.digits@[kk] != m),
                    cnt == 0 ==> first == 10 && (forall|kk: int|
                        0 <= kk < k ==> self.digits@[kk] != m),
                decreases 10 - k,
            {
                proof {
                    assert(self.digits@.take(k + 1).drop_last() =~= self.digits@.take(k as int));
                    assert(self.digits@.take(k + 1).last() == self.digits@[k as int]);
                }
                if self.digits[k] == m {
                    if cnt == 0 {
                        first = k;
                    }
                    cnt = cnt + 1;
                }
                k = k + 1;
            }
            proof {
                assert(self.digits@.take(10) =~= self.digits@);
            }
            if cnt >= 2 {
                return None;
            }
            let c: usize = if cnt >= 1 {
                proof {
                    lemma_first_match_is(self.digits@, m, first as int);
                }
                first
            } else {
                proof {
                    lemma_match_count_nonneg(self.digits@, m);
                }
                0
            };
            proof {
                assert(os.take(j + 1).drop_last() =~= os.take(j as int));
                assert(os.take(j + 1).last() == os[j as int]);
                lemma_dec_val_bound(self.digits@, os.take(j + 1));
            }
            let step = match result.checked_mul(10) {
                Some(x) => x,
                None => {
                    proof {
                        lemma_dec_val_prefix(self.digits@, os, j + 1);
                    }
                    return None;
                },
            };
            let next = match step.checked_add(c) {
                Some(x) => x,
                None => {
                    proof {
                        lemma_dec_val_prefix(self.digits@, os, j + 1);
                    }
                    return None;
                },
            };
            result = next;
            j = j + 1;
        }
        proof {
            assert(os.take(ntoks as int) =~= os);
        }
        Some(result)
    }
}

/// The number only grows as more output patterns are read.
proof fn lemma_dec_val_prefix(digits: Seq<u8>, os: Seq<u8>, j: int)
    requires
        digits.len() == 10,
        0 <= j <= os.len(),
    ensures
        dec_val(digits, os) >= dec_val(digits, os.take(j)),
    decreases os.len() - j,
{
    if j == os.len() {
        assert(os.take(j) =~= os);
    } else {
        lemma_dec_val_prefix(digits, os, j + 1);
        lemma_dec_val_bound(digits, os.take(j));
        lemma_first_match(digits, os.take(j + 1).last());
        lemma_match_count_nonneg(digits, os.take(j + 1).last());
        assert(os.take(j + 1).drop_last() =~= os.take(j));
        assert(dec_val(digits, os.take(j + 1)) == 10 * dec_val(digits, os.take(j)) + pattern_digit(
            digits,
            os.take(j + 1).last(),
        ));
    }
}

/// The first `|` of the line sits strictly inside it, with a space on each
/// side, so the line splits into training and output halves.
pub open spec fn line_has_bar(line: Seq<u8>) -> bool {
    let b = bytes::find_sep(line, 124) as int;
    &&& 1 <= b
    &&& b + 2 <= line.len()
    &&& line[b - 1] == 32
    &&& line[b + 1] == 32
}

/// The training half of the line, before ` | `.
pub open spec fn left_of(line: Seq<u8>) -> Seq<u8> {
    line.take(bytes::find_sep(line, 124) as int - 1)
}

/// The output half of the line, after ` | `.
pub open spec fn right_of(line: Seq<u8>) -> Seq<u8> {
    line.skip(bytes::find_sep(line, 124) as int + 2)
}

/// How many of the patterns have two, three, four or seven wires lit as
/// written (the unmistakable digits one, seven, four and eight).
pub open spec fn easy_count(toks: Seq<Seq<u8>>) -> int
    decreases toks.len(),
{
    if toks.len() == 0 {
        0
    } else {
        easy_count(toks.drop_last()) + if toks.last().len() == 2 || toks.last().len() == 3
            || toks.last().len() == 4 || toks.last().len() == 7 {
            1int
        } else {
            0int
        }
    }
}

/// Easy-digit count over the output halves of the first `n` lines.
pub open spec fn part_one_total(ls: Seq<Seq<u8>>, n: int) -> int
    decreases n,
{
    if n <= 0 {
        0
    } else {
        part_one_total(ls, n - 1) + easy_count(bytes::split_spec(right_of(ls[n - 1]), 32))
    }
}

proof fn lemma_easy_count_nonneg(toks: Seq<Seq<u8>>)
    ensures
        0 <= easy_count(toks) <= toks.len(),
    decreases toks.len(),
{
    if toks.len() > 0 {
        lemma_easy_count_nonneg(toks.drop_last());
    }
}

proof fn lemma_part_one_total_mono(ls: Seq<Seq<u8>>, a: int, b: int)
    requires
        0 <= a <= b,
    ensures
        part_one_total(ls, a) <= part_one_total(ls, b),
    decreases b - a,
{
    if a < b {
        lemma_part_one_total_mono(ls, a, b - 1);
        lemma_easy_count_nonneg(bytes::split_spec(right_of(ls[b - 1]), 32));
    }
}

/// Index of the line's first `|`, if any.
fn find_bar(line: &[u8]) -> (r: Option<usize>)
    ensures
        match r {
            Some(i) => i == bytes::find_sep(line@, 124) && i < line@.len(),
            None => bytes::find_sep(line@, 124) == line@.len(),
        },
{
    let mut i: usize = 0;
    while i < line.len()
        invariant
            i <= line@.len(),
            forall|j: int| 0 <= j < i ==> line@[j] != 124,
        decreases line@.len() - i,
    {
        if line[i] == 124 {
            proof {
                bytes::lemma_find_sep_is(line@, 124, i as int);
            }
            return Some(i);
        }
        i = i + 1;
    }
    proof {
        bytes::lemma_find_sep(line@, 124);
        if bytes::find_sep(line@, 124) < line@.len() {
            assert(line@[bytes::find_sep(line@, 124) as int] == 124);
        }
    }
    None
}

/// Counts, over every line's output half, the patterns whose written length
/// is two, three, four or seven: the outputs that can only be a one, seven,
/// four or eight.
pub fn part_one(input: &[u8]) -> (r: usize)
    requires
        forall|l: int|
            0 <= l < bytes::lines_spec(input@).len() ==> line_has_bar(
                #[trigger] bytes::lines_spec(input@)[l],
            ),
        part_one_total(bytes::lines_spec(input@), bytes::lines_spec(input@).len() as int)
            <= usize::MAX,
    ensures
        r == part_one_total(bytes::lines_spec(input@), bytes::lines_spec(input@).len() as int),
{
    let mut lines = bytes::split_bytes(input, 10);
    proof {
        assert(lines.deep_view().last() == lines@[lines@.len() - 1]@);
    }
    if lines[lines.len() - 1].len() == 0 {
        lines.pop();
        proof {
            assert(lines.deep_view() =~~= bytes::lines_spec(input@));
        }
    } else {
        proof {
            assert(lines.deep_view() =~~= bytes::lines_spec(input@));
        }
    }
    let ghost ls = bytes::lines_spec(input@);
    let nlines = lines.len();
    let mut sum: usize = 0;
    let mut l: usize = 0;
    while l < nlines
        invariant
            ls == bytes::lines_spec(input@),
            lines.deep_view() == ls,
            lines@.len() == nlines,
            forall|t: int| 0 <= t < ls.len() ==> line_has_bar(#[trigger] ls[t]),
            part_one_total(ls, nlines as int) <= usize::MAX,
            l <= nlines,
            sum == part_one_total(ls, l as int),
        decreases nlines - l,
    {
        proof {
            assert(lines.deep_view()[l as int] == lines@[l as int]@);
        }
        let line = &lines[l];
        let bar = match find_bar(line.as_slice()) {
            Some(b) => b,
            None => {
                proof {
                    assert(line_has_bar(ls[l as int]));
                    assert(false);
                }
                return 0;
            },
        };
        let right = &line.as_slice()[bar + 2..line.len()];
        proof {
            assert(right@ =~= right_of(ls[l as int]));
        }
        let toks = bytes::split_bytes(right, 32);
        let ghost rtoks = bytes::split_spec(right_of(ls[l as int]), 32);
        let ntoks = toks.len();
        let mut c: usize = 0;
        let mut t: usize = 0;
        while t < ntoks
            invariant
                toks.deep_view() == rtoks,
                toks@.len() == ntoks,
                t <= ntoks,
                c == easy_count(rtoks.take(t as int)),
                c <= t,
            decreases ntoks - t,
        {
            proof {
                assert(toks.deep_view()[t as int] == toks@[t as int]@);
                assert(rtoks.take(t + 1).drop_last() =~= rtoks.take(t as int));
                assert(rtoks.take(t + 1).last() == rtoks[t as int]);
            }
            let n = toks[t].len();
            if n == 2 || n == 3 || n == 4 || n == 7 {
                c = c + 1;
            }
            t = t + 1;
        }
        proof {
            assert(rtoks.take(ntoks as int) =~= rtoks);
            lemma_part_one_total_mono(ls, l + 1, nlines as int);
            lemma_easy_count_nonneg(rtoks);
            assert(part_one_total(ls, l + 1) == part_one_total(ls, l as int) + easy_count(rtoks));
        }
        sum = sum + c;
        l = l + 1;
    }
    sum
}

/// A digit assignment satisfying every deduction rule against the training
/// masks `ms`.
pub open spec fn code_ok(digits: Seq<u8>, ms: Seq<u8>) -> bool {
    let d1 = last_with_pc(ms, 2);
    let d4 = last_with_pc(ms, 4);
    &&& digits.len() == 10
    &&& forall|d: int| 0 <= d < 10 ==> ms.contains(#[trigger] digits[d])
    &&& forall|d: int| 0 <= d < 10 ==> digit_prop(d, #[trigger] digits[d], d1, d4)
    &&& digits[1] == d1
    &&& digits[4] == d4
}

/// Sum of the decoded output numbers of the first `n` lines under the digit
/// assignments `codes`.
pub open spec fn sum_vals(codes: Seq<Seq<u8>>, ls: Seq<Seq<u8>>, n: int) -> int
    decreases n,
{
    if n <= 0 {
        0
    } else {
        sum_vals(codes, ls, n - 1) + dec_val(
            codes[n - 1],
            masks_of(bytes::split_spec(right_of(ls[n - 1]), 32)),
        )
    }
}

proof fn lemma_sum_vals_push(codes: Seq<Seq<u8>>, d: Seq<u8>, ls: Seq<Seq<u8>>, n: int)
    requires
        0 <= n <= codes.len(),
    ensures
        sum_vals(codes.push(d), ls, n) == sum_vals(codes, ls, n),
    decreases n,
{
    if n > 0 {
        lemma_sum_vals_push(codes, d, ls, n - 1);
        assert(codes.push(d)[n - 1] == codes[n - 1]);
    }
}

/// A reason the summed decoding can fail: a line without its ` | ` or with
/// training patterns that do not identify every digit; a line whose output,
/// under a digit assignment satisfying every deduction rule, is ambiguous
/// or does not fit the machine; or a partial sum under such assignments
/// that overflows.
pub open spec fn part_two_failure(ls: Seq<Seq<u8>>) -> bool {
    ||| exists|l: int|
        0 <= l < ls.len() && !(line_has_bar(#[trigger] ls[l]) && valid_training(
            masks_of(bytes::split_spec(left_of(ls[l]), 32)),
        ))
    ||| exists|l: int, digits: Seq<u8>|
        0 <= l < ls.len() && #[trigger] code_ok(
            digits,
            masks_of(bytes::split_spec(left_of(#[trigger] ls[l]), 32)),
        ) && (any_ambiguous(digits, masks_of(bytes::split_spec(right_of(ls[l]), 32))) || dec_val(
            digits,
            masks_of(bytes::split_spec(right_of(ls[l]), 32)),
        ) > usize::MAX)
    ||| exists|codes: Seq<Seq<u8>>, m: int|
        0 <= m <= ls.len() && (forall|t: int|
            0 <= t < m ==> code_ok(
                #[trigger] codes[t],
                masks_of(bytes::split_spec(left_of(ls[t]), 32)),
            )) && #[trigger] sum_vals(codes, ls, m) > usize::MAX
}

/// Deduces each line's digit assignment from its training patterns and sums
/// the decoded output numbers. On success the total is the sum under digit
/// assignments that satisfy every deduction rule; it fails only for one of
/// the reasons `part_two_failure` lists.
pub fn part_two(input: &[u8]) -> (r: Option<usize>)
    ensures
        match r {
            Some(total) => exists|codes: Seq<Seq<u8>>|
                {
                    let ls = bytes::lines_spec(input@);
                    &&& (#[trigger] codes.len()) == ls.len()
                    &&& forall|l: int|
                        0 <= l < ls.len() ==> line_has_bar(#[trigger] ls[l]) && valid_training(
                            masks_of(bytes::split_spec(left_of(ls[l]), 32)),
                        ) && code_ok(codes[l], masks_of(bytes::split_spec(left_of(ls[l]), 32)))
                            && !any_ambiguous(
                            codes[l],
                            masks_of(bytes::split_spec(right_of(ls[l]), 32)),
                        )
                    &&& total == sum_vals(codes, ls, ls.len() as int)
                },
            None => part_two_failure(bytes::lines_spec(input@)),
        },
{
    let mut lines = bytes::split_bytes(input, 10);
    proof {
        assert(lines.deep_view().last() == lines@[lines@.len() - 1]@);
    }
    if lines[lines.len() - 1].len() == 0 {
        lines.pop();
        proof {
            assert(lines.deep_view() =~~= bytes::lines_spec(input@));
        }
    } else {
        proof {
            assert(lines.deep_view() =~~= bytes::lines_spec(input@));
        }
    }
    let ghost ls = bytes::lines_spec(input@);
    let nlines = lines.len();
    let mut sum: usize = 0;
    let ghost mut codes: Seq<Seq<u8>> = Seq::empty();
    let mut l: usize = 0;
    while l < nlines
        invariant
            ls == bytes::lines_spec(input@),
            lines.deep_view() == ls,
            lines@.len() == nlines,
            l <= nlines,
            codes.len() == l,
            forall|t: int|
                0 <= t < l ==> line_has_bar(#[trigger] ls[t]) && valid_training(
                    masks_of(bytes::split_spec(left_of(ls[t]), 32)),
                ) && code_ok(codes[t], masks_of(bytes::split_spec(left_of(ls[t]), 32)))
                    && !any_ambiguous(codes[t], masks_of(bytes::split_spec(right_of(ls[t]), 32))),
            sum == sum_vals(codes, ls, l as int),
        decreases nlines - l,
    {
        proof {
            assert(lines.deep_view()[l as int] == lines@[l as int]@);
        }
        let line = &lines[l];
        let bar = match find_bar(line.as_slice()) {
            Some(b) => b,
            None => {
                proof {
                    assert(!line_has_bar(ls[l as int]));
                }
                return None;
            },
        };
        if bar < 1 || line.len() - bar < 2 {
            proof {
                assert(!line_has_bar(ls[l as int]));
            }
            return None;
        }
        if line[bar - 1] != 32 || line[bar + 1] != 32 {
            proof {
                assert(!line_has_bar(ls[l as int]));
            }
            return None;
        }
        let left = &line.as_slice()[0..bar - 1];
        let right = &line.as_slice()[bar + 2..line.len()];
        proof {
            assert(left@ =~= left_of(ls[l as int]));
            assert(right@ =~= right_of(ls[l as int]));
        }
        let code = match Code::new(left) {
            Some(c) => c,
            None => {
                proof {
                    assert(!valid_training(
                        masks_of(bytes::split_spec(left_of(ls[l as int]), 32)),
                    ));
                }
                return None;
            },
        };
        let v = match code.decode(right) {
            Some(v) => v,
            None => {
                proof {
                    assert(code_ok(
                        code.digits@,
                        masks_of(bytes::split_spec(left_of(ls[l as int]), 32)),
                    ));
                }
                return None;
            },
        };
        let new_sum = match sum.checked_add(v) {
            Some(s) => s,
            None => {
                proof {
                    lemma_sum_vals_push(codes, code.digits@, ls, l as int);
                    let over = codes.push(code.digits@);
                    assert(sum_vals(over, ls, l + 1) == sum_vals(codes, ls, l as int) + dec_val(
                        over[l as int],
                        masks_of(bytes::split_spec(right_of(ls[l as int]), 32)),
                    ));
                    assert(sum_vals(over, ls, l + 1) > usize::MAX);
                    assert(forall|t: int|
                        0 <= t < l + 1 ==> code_ok(
                            #[trigger] over[t],
                            masks_of(bytes::split_spec(left_of(ls[t]), 32)),
                        ));
                }
                return None;
            },
        };
        proof {
            lemma_sum_vals_push(codes, code.digits@, ls, l as int);
            codes = codes.push(code.digits@);
            assert(codes[l as int] == code.digits@);
        }
        sum = new_sum;
        l = l + 1;
    }
    proof {
        assert(codes.len() == ls.len());
    }
    Some(sum)
}

/// Whenever some mask has the given segment count, the last such mask is a
/// member with that count.
proof fn lemma_last_with_pc(ms: Seq<u8>, k: int)
    requires
        has_pc(ms, k),
    ensures
        ms.contains(last_with_pc(ms, k)),
        popcount(last_with_pc(ms, k)) == k,
    decreases ms.len(),
{
    if popcount(ms.last()) == k {
        assert(ms[ms.len() - 1] == ms.last());
    } else {
        assert(has_pc(ms.drop_last(), k)) by {
            let i = choose|i: int| 0 <= i < ms.len() && popcount(#[trigger] ms[i]) == k;
            assert(ms.drop_last()[i] == ms[i]);
        }
        lemma_last_with_pc(ms.drop_last(), k);
        let m = last_with_pc(ms.drop_last(), k);
        let i = choose|i: int|
            0 <= i < ms.drop_last().len() && #[trigger] ms.drop_last()[i] == m;
        assert(ms[i] == m);
    }
}

} // verus!
