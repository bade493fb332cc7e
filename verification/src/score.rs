//! The scoring stage: adjacent-pair transposition counting and the
//! weighted similarity formula, rounded half-away-from-zero to
//! thousandths.
use vstd::prelude::*;
use crate::wide::{U256, b128, b192, b256};

verus! {

/// How many adjacent pairs of matched short-string indices are out of
/// increasing order.
pub open spec fn transposition_count(m2: Seq<int>) -> nat
    decreases m2.len(),
{
    if m2.len() <= 1 {
        0
    } else {
        transposition_count(m2.drop_last()) + if m2[m2.len() - 2] > m2[m2.len() - 1] {
            1nat
        } else {
            0nat
        }
    }
}

/// Numerator of the similarity formula over a common denominator of
/// `3 * l1 * l2 * n`: (n/l1 + n/l2 + (n-t)/n) / 3.
pub open spec fn score_num(l1: nat, l2: nat, n: nat, t: nat) -> int {
    n * n * l2 + n * n * l1 + (n - t) * l1 * l2
}

pub open spec fn score_den(l1: nat, l2: nat, n: nat) -> int {
    3 * (l1 as int) * (l2 as int) * (n as int)
}

/// The numerator-to-denominator ratio in thousandths, rounded
/// half-away-from-zero (the ratio is never negative, so halves round up).
pub open spec fn round_millis(num: int, den: int) -> int {
    (2000 * num + den) / (2 * den)
}

/// The similarity score in thousandths for a match of `n` pairs with `t`
/// transpositions between strings of lengths `l1 >= l2`.
pub open spec fn score_millis_spec(l1: nat, l2: nat, n: nat, t: nat) -> int {
    round_millis(score_num(l1, l2, n, t), score_den(l1, l2, n))
}

/// Rounding to thousandths is half-away-from-zero: the rounded value `q`
/// of a non-negative ratio `num / den` is within half a thousandth of it,
/// and an exact half rounds to the larger `q`.
pub proof fn lemma_round_half_away_from_zero(num: int, den: int)
    requires
        num >= 0,
        den > 0,
    ensures
        (2 * round_millis(num, den) - 1) * den <= 2000 * num,
        2000 * num < (2 * round_millis(num, den) + 1) * den,
{
    let q = round_millis(num, den);
    vstd::arithmetic::div_mod::lemma_fundamental_div_mod(2000 * num + den, 2 * den);
    let r = (2000 * num + den) % (2 * den);
    vstd::arithmetic::div_mod::lemma_mod_bound(2000 * num + den, 2 * den);
    assert(2000 * num + den == 2 * den * q + r);
    assert((2 * q - 1) * den <= 2000 * num && 2000 * num < (2 * q + 1) * den)
        by (nonlinear_arith)
        requires
            2000 * num + den == 2 * den * q + r,
            0 <= r < 2 * den,
            den > 0,
    ;
}

/// Adjacent-pair inversions number at most one fewer than the matches.
pub proof fn lemma_transposition_count_bound(m2: Seq<int>)
    ensures
        m2.len() == 0 ==> transposition_count(m2) == 0,
        m2.len() >= 1 ==> transposition_count(m2) <= m2.len() - 1,
    decreases m2.len(),
{
    if m2.len() > 1 {
        lemma_transposition_count_bound(m2.drop_last());
    }
}

/// With a numerator between zero and the denominator, the rounded ratio
/// in thousandths lies within [0, 1000].
pub proof fn lemma_round_millis_range(num: int, den: int)
    requires
        0 <= num <= den,
        0 < den,
    ensures
        0 <= round_millis(num, den) <= 1000,
{
    let q = round_millis(num, den);
    vstd::arithmetic::div_mod::lemma_fundamental_div_mod(2000 * num + den, 2 * den);
    vstd::arithmetic::div_mod::lemma_mod_bound(2000 * num + den, 2 * den);
    let r = (2000 * num + den) % (2 * den);
    assert(0 <= q <= 1000) by (nonlinear_arith)
        requires
            2000 * num + den == 2 * den * q + r,
            0 <= r < 2 * den,
            0 < den,
            0 <= num <= den,
    ;
}

/// Count the adjacent-pair inversions among the matched short-string
/// indices, in the order the matches were made.
pub fn count_transpositions(m2: &Vec<usize>) -> (t: u64)
    ensures
        t == transposition_count(m2@.map_values(|x: usize| x as int)),
        m2@.len() > 0 ==> t < m2@.len(),
{
    let ghost ints = m2@.map_values(|x: usize| x as int);
    if m2.len() <= 1 {
        return 0;
    }
    let mut t: u64 = 0;
    let mut k: usize = 1;
    proof {
        assert(transposition_count(ints.take(1)) == 0);
    }
    while k < m2.len()
        invariant
            1 <= k <= m2@.len(),
            2 <= m2@.len() <= u64::MAX,
            ints == m2@.map_values(|x: usize| x as int),
            t == transposition_count(ints.take(k as int)),
            t < k,
        decreases m2@.len() - k,
    {
        if m2[k - 1] > m2[k] {
            t = t + 1;
        }
        proof {
            let u = ints.take(k + 1);
            assert(u.drop_last() =~= ints.take(k as int));
            assert(u[k as int] == ints[k as int] && u[k - 1] == ints[k - 1]);
        }
        k += 1;
    }
    proof {
        assert(ints.take(m2@.len() as int) =~= ints);
    }
    t
}

/// The scoring stage: from the two lengths, the number of matched pairs,
/// and the transposition count, compute the exactly rounded score in
/// thousandths.
pub fn score_millis(l1: u64, l2: u64, n: u64, t: u64) -> (s: u32)
    requires
        1 <= n <= l2 <= l1,
        t < n,
    ensures
        s == score_millis_spec(l1 as nat, l2 as nat, n as nat, t as nat),
        s <= 1000,
{
    let ghost numv: int = score_num(l1 as nat, l2 as nat, n as nat, t as nat);
    let ghost denv: int = score_den(l1 as nat, l2 as nat, n as nat);
    proof {
        assert((n as int) * (n as int) < b128() && (l1 as int) * (l2 as int) < b128())
            by (nonlinear_arith)
            requires
                n < 0x1_0000_0000_0000_0000 && l1 < 0x1_0000_0000_0000_0000 && l2
                    < 0x1_0000_0000_0000_0000,
        ;
    }
    let nn: u128 = (n as u128) * (n as u128);
    let ll: u128 = (l1 as u128) * (l2 as u128);
    proof {
        assert((nn as int) * (l2 as int) < b192() && (nn as int) * (l1 as int) < b192() && (
        ll as int) * ((n - t) as int) < b192() && (ll as int) * (n as int) < b192())
            by (nonlinear_arith)
            requires
                nn < b128() && ll < b128() && l1 < 0x1_0000_0000_0000_0000 && l2
                    < 0x1_0000_0000_0000_0000 && 0 < n < 0x1_0000_0000_0000_0000 && t < n,
        ;
    }
    let t1 = U256::from_u128(nn).times_small(l2);
    let t2 = U256::from_u128(nn).times_small(l1);
    let t3 = U256::from_u128(ll).times_small(n - t);
    let num = t1.plus(t2).plus(t3);
    let den = U256::from_u128(ll).times_small(n).times_small(3);
    proof {
        assert(num.val() == numv && den.val() == denv) by (nonlinear_arith)
            requires
                num.val() == (n as int) * (n as int) * (l2 as int) + (n as int) * (n as int) * (
                l1 as int) + (l1 as int) * (l2 as int) * ((n - t) as int),
                den.val() == (l1 as int) * (l2 as int) * (n as int) * 3,
                numv == (n as int) * (n as int) * (l2 as int) + (n as int) * (n as int) * (
                l1 as int) + ((n - t) as int) * (l1 as int) * (l2 as int),
                denv == 3 * (l1 as int) * (l2 as int) * (n as int),
        ;
        assert(numv <= denv && 0 < denv) by (nonlinear_arith)
            requires
                numv == (n as int) * (n as int) * (l2 as int) + (n as int) * (n as int) * (
                l1 as int) + ((n - t) as int) * (l1 as int) * (l2 as int),
                denv == 3 * (l1 as int) * (l2 as int) * (n as int),
                1 <= n <= l2 <= l1,
                t < n,
        ;
        assert(num.val() * 1000 < b256() && 2048 * den.val() < b256()) by (nonlinear_arith)
            requires
                num.val() <= den.val(),
                den.val() == 3 * (l1 as int) * (l2 as int) * (n as int),
                l1 < 0x1_0000_0000_0000_0000 && l2 < 0x1_0000_0000_0000_0000 && n
                    < 0x1_0000_0000_0000_0000,
        ;
        assert(num.val() * 1000 < 2048 * den.val()) by (nonlinear_arith)
            requires
                num.val() <= den.val(),
                den.val() > 0,
        ;
    }
    let x = num.times_small(1000);
    let (q, r) = x.divmod_small(&den);
    proof {
        assert(q <= 1000) by (nonlinear_arith)
            requires
                (q as int) * denv + r.val() == 1000 * numv,
                numv <= denv,
                denv > 0,
                r.val() >= 0,
        ;
        if q == 1000 {
            assert(r.val() == 0) by (nonlinear_arith)
                requires
                    (q as int) * denv + r.val() == 1000 * numv,
                    q == 1000,
                    numv <= denv,
                    denv > 0,
                    r.val() >= 0,
            ;
        }
    }
    let r2 = r.plus(r);
    let s: u64 = if r2.geq(&den) {
        q + 1
    } else {
        q
    };
    proof {
        if 2 * r.val() >= denv {
            assert(2000 * numv + denv == ((q + 1) as int) * (2 * denv) + (2 * r.val() - denv)
                && 0 <= 2 * r.val() - denv < 2 * denv) by (nonlinear_arith)
                requires
                    (q as int) * denv + r.val() == 1000 * numv,
                    denv <= 2 * r.val(),
                    r.val() < denv,
            ;
            vstd::arithmetic::div_mod::lemma_fundamental_div_mod_converse_div(
                2000 * numv + denv,
                2 * denv,
                q + 1,
                2 * r.val() - denv,
            );
        } else {
            assert(2000 * numv + denv == (q as int) * (2 * denv) + (2 * r.val() + denv) && 0 <= 2
                * r.val() + denv < 2 * denv) by (nonlinear_arith)
                requires
                    (q as int) * denv + r.val() == 1000 * numv,
                    2 * r.val() < denv,
                    0 <= r.val(),
                    0 < denv,
            ;
            vstd::arithmetic::div_mod::lemma_fundamental_div_mod_converse_div(
                2000 * numv + denv,
                2 * denv,
                q as int,
                2 * r.val() + denv,
            );
        }
    }
    s as u32
}

} // verus!

