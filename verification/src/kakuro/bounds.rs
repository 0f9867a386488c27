use vstd::prelude::*;

use crate::kakuro::digits::{
    bit, count_below, digits_below, lemma_agree_except, lemma_bit_xor_single, lemma_digits,
    lemma_sum_push, lemma_sum_skip_prev, lemma_sum_take_next, seq_sum, subset_below, total_below,
};

verus! {

/// A set of `k` values drawn from `v` sums to at least the `k` smallest values of `v`
/// and to at most the `k` largest.
pub proof fn lemma_sum_bounds(s: u32, v: u32, n: u32)
    requires
        subset_below(s, v, n),
    ensures
        count_below(s, n) <= count_below(v, n),
        seq_sum(digits_below(v, n).take(count_below(s, n) as int)) <= total_below(s, n),
        total_below(s, n) <= seq_sum(
            digits_below(v, n).skip(count_below(v, n) - count_below(s, n)),
        ),
    decreases n,
{
    lemma_digits(v, n);
    let d = digits_below(v, n);
    if n == 0 {
        assert(d.take(0) =~= Seq::<int>::empty());
        assert(d.skip(0) =~= Seq::<int>::empty());
    } else {
        let p = (n - 1) as u32;
        lemma_sum_bounds(s, v, p);
        lemma_digits(v, p);
        let dp = digits_below(v, p);
        let mp = dp.len() as int;
        let kp = count_below(s, p) as int;
        if bit(s, p) {
            assert(bit(v, p));
            assert(d == dp.push(n as int));
            if kp == mp {
                assert(d.take(kp + 1) =~= d);
                assert(dp.take(kp) =~= dp);
                lemma_sum_push(dp, n as int);
            } else {
                assert(d.take(kp + 1) =~= dp.take(kp + 1));
                lemma_sum_take_next(dp, kp);
            }
            assert(d.skip(mp - kp) =~= dp.skip(mp - kp).push(n as int));
            lemma_sum_push(dp.skip(mp - kp), n as int);
        } else if bit(v, p) {
            assert(d == dp.push(n as int));
            assert(d.take(kp) =~= dp.take(kp));
            if kp == 0 {
                assert(d.skip(mp + 1) =~= Seq::<int>::empty());
                assert(dp.skip(mp) =~= Seq::<int>::empty());
            } else {
                assert(d.skip(mp + 1 - kp) =~= dp.skip(mp + 1 - kp).push(n as int));
                lemma_sum_push(dp.skip(mp + 1 - kp), n as int);
                lemma_sum_skip_prev(dp, mp - kp);
            }
        } else {
            assert(d == dp);
        }
    }
}

/// A set of `k` values from `v` whose sum exceeds the `k` smallest values of `v` by
/// exactly one does not hold the `k`-th smallest value of `v`.
pub proof fn lemma_low_slack(s: u32, v: u32, n: u32)
    requires
        subset_below(s, v, n),
        count_below(s, n) >= 1,
        total_below(s, n) == seq_sum(digits_below(v, n).take(count_below(s, n) as int)) + 1,
    ensures
        count_below(s, n) <= digits_below(v, n).len(),
        !bit(s, (digits_below(v, n)[count_below(s, n) - 1] - 1) as u32),
    decreases n,
{
    lemma_sum_bounds(s, v, n);
    lemma_digits(v, n);
    let d = digits_below(v, n);
    let p = (n - 1) as u32;
    lemma_sum_bounds(s, v, p);
    lemma_digits(v, p);
    let dp = digits_below(v, p);
    let mp = dp.len() as int;
    let kp = count_below(s, p) as int;
    if bit(s, p) {
        assert(bit(v, p));
        assert(d == dp.push(n as int));
        if kp == mp {
            assert(d.take(kp + 1) =~= d);
            lemma_sum_push(dp, n as int);
            assert(dp.skip(0) =~= dp);
            assert(false);
        } else {
            assert(d.take(kp + 1) =~= dp.take(kp + 1));
            lemma_sum_take_next(dp, kp);
            assert(dp[kp] == p);
            if kp < mp - 1 {
                assert(dp[kp] < dp[kp + 1]);
                assert(false);
            }
            let q = (p - 1) as u32;
            assert(bit(v, q));
            assert(dp == digits_below(v, q).push(p as int));
            let dq = digits_below(v, q);
            lemma_digits(v, q);
            assert(dp.take(kp) =~= dq);
            if bit(s, q) {
                lemma_sum_bounds(s, v, q);
                let kq = count_below(s, q) as int;
                assert(kq == kp - 1);
                lemma_sum_take_next(dq, kq);
                assert(dq.take(kq + 1) =~= dq);
                assert(dq[kq] <= q);
                assert(false);
            }
        }
    } else if bit(v, p) {
        assert(d == dp.push(n as int));
        assert(d.take(kp) =~= dp.take(kp));
        lemma_low_slack(s, v, p);
    } else {
        assert(d == dp);
        lemma_low_slack(s, v, p);
    }
}

/// A set of `k` values from `v` whose sum falls short of the `k` largest values of `v`
/// by exactly one does not hold the `k`-th largest value of `v`.
pub proof fn lemma_high_slack(s: u32, v: u32, n: u32)
    requires
        subset_below(s, v, n),
        count_below(s, n) >= 1,
        total_below(s, n) + 1 == seq_sum(
            digits_below(v, n).skip(count_below(v, n) - count_below(s, n)),
        ),
    ensures
        count_below(s, n) <= count_below(v, n),
        !bit(s, (digits_below(v, n)[count_below(v, n) - count_below(s, n)] - 1) as u32),
    decreases n,
{
    lemma_sum_bounds(s, v, n);
    lemma_digits(v, n);
    let d = digits_below(v, n);
    let p = (n - 1) as u32;
    lemma_sum_bounds(s, v, p);
    lemma_digits(v, p);
    let dp = digits_below(v, p);
    let mp = dp.len() as int;
    let kp = count_below(s, p) as int;
    if bit(s, p) {
        assert(bit(v, p));
        assert(d == dp.push(n as int));
        assert(d.skip(mp - kp) =~= dp.skip(mp - kp).push(n as int));
        lemma_sum_push(dp.skip(mp - kp), n as int);
        if kp == 0 {
            assert(dp.skip(mp) =~= Seq::<int>::empty());
            assert(false);
        } else {
            lemma_high_slack(s, v, p);
        }
    } else if bit(v, p) {
        assert(d == dp.push(n as int));
        if kp >= 2 {
            assert(d.skip(mp + 1 - kp) =~= dp.skip(mp + 1 - kp).push(n as int));
            lemma_sum_push(dp.skip(mp + 1 - kp), n as int);
            lemma_sum_skip_prev(dp, mp - kp);
            assert(dp[mp - kp] < dp[mp - 1]);
            assert(false);
        }
    } else {
        assert(d == dp);
        lemma_high_slack(s, v, p);
    }
}

/// A value `b + 1` held by a set of values from `v` is at most the set's total less the
/// smallest values of `v` that make up the rest of the set, and at least its total less
/// the largest such values.
pub proof fn lemma_member_bounds(s: u32, v: u32, b: u32)
    requires
        subset_below(s, v, 9),
        bit(s, b),
        b < 9,
    ensures
        count_below(s, 9) >= 1,
        count_below(s, 9) <= count_below(v, 9),
        total_below(s, 9) - (b + 1) >= seq_sum(
            digits_below(v, 9).take(count_below(s, 9) - 1),
        ),
        total_below(s, 9) - (b + 1) <= seq_sum(
            digits_below(v, 9).skip(count_below(v, 9) - (count_below(s, 9) - 1)),
        ),
{
    let t = s ^ (1u32 << b);
    assert forall|c: u32| c < 32 implies bit(t, c) == if c == b {
        !bit(s, c)
    } else {
        bit(s, c)
    } by {
        lemma_bit_xor_single(s, b, c);
    }
    lemma_agree_except(s, t, b, 9);
    assert(subset_below(t, v, 9));
    lemma_sum_bounds(t, v, 9);
    lemma_sum_bounds(s, v, 9);
}

} // verus!
