use vstd::prelude::*;

use crate::kakuro::bounds::{lemma_high_slack, lemma_low_slack, lemma_member_bounds, lemma_sum_bounds};
use crate::kakuro::dictionary::{
    exact_entry, has_combination, is_combination, limited_entry, limited_keeps, limited_rejects,
    value_possible, value_required, Dictionary, IMPOSSIBLE,
};
use crate::kakuro::digits::{
    bit, count_below, digits_below, lemma_bit_and, lemma_bit_zero_all_ones, lemma_bits_ext9,
    lemma_count_pos_total_pos, lemma_count_total_zero, lemma_count_zero, lemma_digits, lemma_small_ops,
    lemma_sum_skip_prev, lemma_sum_take_next, lemma_rev9, lemma_reversed_counts, rev9,
    seq_sum, subset_below,
};
use crate::kakuro::Cand;

verus! {

/// In the exact entry of a fillable run, every imperative value is allowed and every
/// allowed value is available.
proof fn lemma_possible_entry_bits(e: (Cand, Cand), len: int, sum: int, avail: u32)
    requires
        exact_entry(e, len, sum, avail),
        has_combination(len, sum, avail),
    ensures
        forall|b: u32| b < 9 && #[trigger] bit(e.0, b) ==> bit(e.1, b),
        forall|b: u32| b < 9 && #[trigger] bit(e.1, b) ==> bit(avail, b),
{
    let s0 = choose|s: u32| #[trigger] is_combination(s, len, sum, avail);
    assert forall|b: u32| b < 9 && #[trigger] bit(e.0, b) implies bit(e.1, b) by {
        assert(value_required(len, sum, avail, b));
        assert(bit(s0, b));
        assert(value_possible(len, sum, avail, b));
    }
    assert forall|b: u32| b < 9 && #[trigger] bit(e.1, b) implies bit(avail, b) by {
        assert(value_possible(len, sum, avail, b));
        let s = choose|s: u32| #[trigger] is_combination(s, len, sum, avail) && bit(s, b);
    }
}

/// Every exact entry is `IMPOSSIBLE`, or its imperative values are among its allowed
/// values and its allowed values among the available ones.
pub proof fn lemma_exact_entry_nested(e: (Cand, Cand), len: int, sum: int, avail: u32)
    requires
        exact_entry(e, len, sum, avail),
        avail < 512,
    ensures
        e == IMPOSSIBLE || (e.0 & e.1 == e.0 && e.1 & avail == e.1),
{
    if has_combination(len, sum, avail) {
        lemma_possible_entry_bits(e, len, sum, avail);
        assert forall|c: u32| c < 9 implies bit(e.0 & e.1, c) == bit(e.0, c) && bit(
            e.1 & avail,
            c,
        ) == bit(e.1, c) by {
            lemma_bit_and(e.0, e.1, c);
            lemma_bit_and(e.1, avail, c);
        }
        lemma_small_ops(e.0, e.1, 0);
        lemma_small_ops(e.1, avail, 0);
        lemma_bits_ext9(e.0 & e.1, e.0);
        lemma_bits_ext9(e.1 & avail, e.1);
    }
}

/// No set of values fits a run that the limited dictionary rejects.
proof fn lemma_rejected_unfillable(len: int, sum: int, avail: u32)
    requires
        1 <= len <= 9,
        limited_rejects(len, sum, avail),
    ensures
        !has_combination(len, sum, avail),
{
    if has_combination(len, sum, avail) {
        let s = choose|s: u32| #[trigger] is_combination(s, len, sum, avail);
        let d = digits_below(avail, 9);
        let m = count_below(avail, 9) as int;
        lemma_sum_bounds(s, avail, 9);
        lemma_digits(avail, 9);
        lemma_sum_take_next(d, len - 1);
        lemma_sum_skip_prev(d, m - len);
    }
}

/// A value held by some filling of a run is allowed by the limited dictionary.
proof fn lemma_filling_kept(s: u32, b: u32, len: int, sum: int, avail: u32)
    requires
        1 <= len <= 9,
        is_combination(s, len, sum, avail),
        bit(s, b),
        b < 9,
    ensures
        limited_keeps(len, sum, avail, b),
{
    let d = digits_below(avail, 9);
    let m = count_below(avail, 9) as int;
    lemma_digits(avail, 9);
    lemma_member_bounds(s, avail, b);
    lemma_sum_take_next(d, len - 1);
    lemma_sum_skip_prev(d, m - len);
    lemma_sum_bounds(s, avail, 9);
    if crate::kakuro::dictionary::high_max_of(len, sum, avail) == d[len - 1] + 1 {
        lemma_low_slack(s, avail, 9);
    }
    if crate::kakuro::dictionary::low_min_of(len, sum, avail) == d[m - len] - 1 {
        lemma_high_slack(s, avail, 9);
    }
}

/// In the exact dictionary, every entry is `IMPOSSIBLE`, or its imperative values are
/// among its allowed values and its allowed values among the available ones.
pub proof fn lemma_exact_dictionary_nested(d: &Dictionary, len: int, sum: int, avail: u32)
    requires
        d.is_exact(),
        0 <= len <= 9,
        0 <= sum <= 45,
        avail < 512,
    ensures
        d.entry(len * 46 + sum, avail) == IMPOSSIBLE || (d.entry(len * 46 + sum, avail).0 & d.entry(
            len * 46 + sum,
            avail,
        ).1 == d.entry(len * 46 + sum, avail).0 && d.entry(len * 46 + sum, avail).1 & avail
            == d.entry(len * 46 + sum, avail).1),
{
    lemma_exact_entry_nested(d.entry(len * 46 + sum, avail), len, sum, avail);
}

/// The limited dictionary never contradicts the exact one on a run: where it finds the
/// run unfillable so does the exact one, every value it calls imperative the exact one
/// does too, and every value the exact one allows it allows.
pub proof fn lemma_limited_entry_sound(e: (Cand, Cand), lim: (Cand, Cand), len: int, sum: int, avail: u32)
    requires
        0 <= len <= 9,
        0 <= sum <= 45,
        avail < 512,
        exact_entry(e, len, sum, avail),
        limited_entry(lim, len, sum, avail),
    ensures
        lim == IMPOSSIBLE ==> e == IMPOSSIBLE,
        e.0 & lim.0 == lim.0,
        e.1 & lim.1 == e.1,
{
    let (e0, e1) = e;
    let l1 = lim.1;
    assert(e0 & 0 == 0 && e1 & 0 == 0 && 511u32 & 511u32 == 511u32 && 0u32 & l1 == 0u32)
        by (bit_vector);
    if len == 0 || sum == 0 {
        if len == 0 && sum == 0 {
            if has_combination(len, sum, avail) {
                assert forall|c: u32| c < 9 implies bit(e.1, c) == bit(0u32, c) by {
                    lemma_bit_zero_all_ones(c);
                    if bit(e.1, c) {
                        let s = choose|s: u32| #[trigger] is_combination(s, len, sum, avail) && bit(s, c);
                        lemma_count_zero(s, 9, c);
                    }
                }
                lemma_bits_ext9(e.1, 0);
            }
        } else {
            if has_combination(len, sum, avail) {
                let s = choose|s: u32| #[trigger] is_combination(s, len, sum, avail);
                lemma_count_total_zero(s, 9);
                if len > 0 {
                    lemma_count_pos_total_pos(s, 9);
                }
            }
        }
    } else if limited_rejects(len, sum, avail) {
        lemma_rejected_unfillable(len, sum, avail);
    } else if has_combination(len, sum, avail) {
        assert forall|c: u32| c < 9 implies bit(e.1 & lim.1, c) == bit(e.1, c) by {
            lemma_bit_and(e.1, lim.1, c);
            if bit(e.1, c) {
                assert(value_possible(len, sum, avail, c));
                let s = choose|s: u32| #[trigger] is_combination(s, len, sum, avail) && bit(s, c);
                lemma_filling_kept(s, c, len, sum, avail);
            }
        }
        lemma_small_ops(e.1, lim.1, 0);
        lemma_bits_ext9(e.1 & lim.1, e.1);
    }
}

/// The limited dictionary is sound with respect to the exact one, entry by entry (see
/// `lemma_limited_entry_sound`).
pub proof fn lemma_limited_sound(exact: &Dictionary, limited: &Dictionary, len: int, sum: int, avail: u32)
    requires
        exact.is_exact(),
        limited.is_limited(),
        0 <= len <= 9,
        0 <= sum <= 45,
        avail < 512,
    ensures
        limited.entry(len * 46 + sum, avail) == IMPOSSIBLE ==> exact.entry(len * 46 + sum, avail)
            == IMPOSSIBLE,
        exact.entry(len * 46 + sum, avail).0 & limited.entry(len * 46 + sum, avail).0
            == limited.entry(len * 46 + sum, avail).0,
        exact.entry(len * 46 + sum, avail).1 & limited.entry(len * 46 + sum, avail).1
            == exact.entry(len * 46 + sum, avail).1,
{
    lemma_limited_entry_sound(
        exact.entry(len * 46 + sum, avail),
        limited.entry(len * 46 + sum, avail),
        len,
        sum,
        avail,
    );
}

/// Reversing the values of a filling (`k` becomes `10 - k`) gives a filling of the run of
/// the same length whose sum is ten per cell less, from the reversed available values.
proof fn lemma_reverse_combination(s: u32, len: int, sum: int, avail: u32)
    requires
        is_combination(s, len, sum, avail),
    ensures
        is_combination(rev9(s), len, 10 * len - sum, rev9(avail)),
{
    assert forall|c: u32| c < 9 implies bit(rev9(s), c) == bit(s, (8 - c) as u32) && bit(
        rev9(avail),
        c,
    ) == bit(avail, (8 - c) as u32) by {
        lemma_rev9(s, c);
        lemma_rev9(avail, c);
    }
    lemma_rev9(s, 0);
    lemma_reversed_counts(s, rev9(s));
    assert(subset_below(rev9(s), rev9(avail), 9)) by {
        assert forall|c: u32| c < 9 && #[trigger] bit(rev9(s), c) implies bit(rev9(avail), c) by {
            assert(bit(s, (8 - c) as u32));
        }
    }
}

/// Reversing the values of a filling of the reversed run gives back a filling of the run.
proof fn lemma_unreverse_combination(t: u32, len: int, sum: int, avail: u32)
    requires
        avail < 512,
        is_combination(t, len, 10 * len - sum, rev9(avail)),
    ensures
        is_combination(rev9(t), len, sum, avail),
        rev9(rev9(t)) == t,
{
    lemma_reverse_combination(t, len, 10 * len - sum, rev9(avail));
    lemma_rev9(avail, 0);
    lemma_rev9(t, 0);
}

/// The exact entry of a run read with its values reversed (`k` becomes `10 - k`) is the
/// exact entry of the run of the same length whose sum is ten per cell less, from the
/// reversed available values.
pub proof fn lemma_exact_entry_reversal(
    e: (Cand, Cand),
    f: (Cand, Cand),
    len: int,
    sum: int,
    avail: u32,
)
    requires
        avail < 512,
        exact_entry(e, len, sum, avail),
        exact_entry(f, len, 10 * len - sum, rev9(avail)),
    ensures
        f == (rev9(e.0), rev9(e.1)),
{
    let sum2 = 10 * len - sum;
    let avail2 = rev9(avail);
    if has_combination(len, sum, avail) {
        let s0 = choose|s: u32| #[trigger] is_combination(s, len, sum, avail);
        lemma_reverse_combination(s0, len, sum, avail);
        assert(has_combination(len, sum2, avail2));
    }
    if has_combination(len, sum2, avail2) {
        let t0 = choose|t: u32| #[trigger] is_combination(t, len, sum2, avail2);
        lemma_unreverse_combination(t0, len, sum, avail);
        assert(has_combination(len, sum, avail));
    }
    if has_combination(len, sum, avail) {
        assert forall|c: u32| c < 9 implies bit(f.0, c) == bit(rev9(e.0), c) && bit(f.1, c)
            == bit(rev9(e.1), c) by {
            let c2 = (8 - c) as u32;
            lemma_rev9(e.0, c);
            lemma_rev9(e.1, c);
            // Fillings of the two runs correspond through reversal.
            if value_required(len, sum, avail, c2) {
                assert forall|t: u32| #[trigger] is_combination(t, len, sum2, avail2) implies bit(
                    t,
                    c,
                ) by {
                    lemma_unreverse_combination(t, len, sum, avail);
                    lemma_rev9(t, c2);
                }
            }
            if value_required(len, sum2, avail2, c) {
                assert forall|s: u32| #[trigger] is_combination(s, len, sum, avail) implies bit(
                    s,
                    c2,
                ) by {
                    lemma_reverse_combination(s, len, sum, avail);
                    lemma_rev9(s, c);
                }
            }
            if value_possible(len, sum, avail, c2) {
                let s = choose|s: u32| #[trigger] is_combination(s, len, sum, avail) && bit(s, c2);
                lemma_reverse_combination(s, len, sum, avail);
                lemma_rev9(s, c);
                assert(is_combination(rev9(s), len, sum2, avail2) && bit(rev9(s), c));
            }
            if value_possible(len, sum2, avail2, c) {
                let t = choose|t: u32| #[trigger] is_combination(t, len, sum2, avail2) && bit(t, c);
                lemma_unreverse_combination(t, len, sum, avail);
                lemma_rev9(t, c2);
                assert(is_combination(rev9(t), len, sum, avail) && bit(rev9(t), c2));
            }
        }
        lemma_rev9(e.0, 0);
        lemma_rev9(e.1, 0);
        lemma_bits_ext9(f.0, rev9(e.0));
        lemma_bits_ext9(f.1, rev9(e.1));
    } else {
        assert(rev9(511u32) == 511u32 && rev9(0u32) == 0u32) by (bit_vector);
    }
}

/// The exact dictionary is symmetric under reversing the values (`k` becomes `10 - k`):
/// the run of `len` cells summing to `10 * len - sum` from the reversed available values
/// has the reversed entry of the run summing to `sum`.
pub proof fn lemma_exact_dictionary_reversal(d: &Dictionary, len: int, sum: int, avail: u32)
    requires
        d.is_exact(),
        0 <= len <= 9,
        0 <= sum <= 45,
        0 <= 10 * len - sum <= 45,
        avail < 512,
    ensures
        d.entry(len * 46 + (10 * len - sum), rev9(avail)) == (
            rev9(d.entry(len * 46 + sum, avail).0),
            rev9(d.entry(len * 46 + sum, avail).1),
        ),
{
    lemma_rev9(avail, 0);
    let e = d.entry(len * 46 + sum, avail);
    let f = d.entry(len * 46 + (10 * len - sum), rev9(avail));
    assert(exact_entry(e, len, sum, avail));
    assert(exact_entry(f, len, 10 * len - sum, rev9(avail)));
    lemma_exact_entry_reversal(e, f, len, sum, avail);
}

/// The limited entry of a run of at least one cell allows only available values that fit
/// beside the smallest and beside the largest other values: an allowed value `v` plus the
/// `len - 1` smallest available values is at most the sum, and plus the `len - 1`
/// largest is at least the sum. When the `len` smallest available values sum to one less
/// than the run, no filling holds the `len`-th smallest, and the limited entry does not
/// allow it; when the `len` largest sum to one more, no filling holds the `len`-th
/// largest, and the limited entry does not allow it.
pub proof fn lemma_limited_entry_tight(lim: (Cand, Cand), len: int, sum: int, avail: u32)
    requires
        1 <= len <= 9,
        0 <= sum <= 45,
        avail < 512,
        limited_entry(lim, len, sum, avail),
    ensures
        forall|b: u32|
            b < 9 && #[trigger] bit(lim.1, b) ==> {
                &&& bit(avail, b)
                &&& count_below(avail, 9) >= len
                &&& seq_sum(digits_below(avail, 9).take(len - 1)) + (b + 1) <= sum
                &&& seq_sum(digits_below(avail, 9).skip(count_below(avail, 9) - (len - 1))) + (b
                    + 1) >= sum
            },
        count_below(avail, 9) >= len && seq_sum(digits_below(avail, 9).take(len)) + 1 == sum
            ==> !value_possible(len, sum, avail, (digits_below(avail, 9)[len - 1] - 1) as u32)
            && !bit(lim.1, (digits_below(avail, 9)[len - 1] - 1) as u32),
        count_below(avail, 9) >= len && seq_sum(
            digits_below(avail, 9).skip(count_below(avail, 9) - len),
        ) == sum + 1 ==> !value_possible(
            len,
            sum,
            avail,
            (digits_below(avail, 9)[count_below(avail, 9) - len] - 1) as u32,
        ) && !bit(lim.1, (digits_below(avail, 9)[count_below(avail, 9) - len] - 1) as u32),
{
    let d = digits_below(avail, 9);
    let m = count_below(avail, 9) as int;
    lemma_digits(avail, 9);
    let unkept = sum == 0 || limited_rejects(len, sum, avail);
    if unkept {
        assert(lim == IMPOSSIBLE);
        assert forall|b: u32| b < 9 implies !bit(lim.1, b) by {
            lemma_bit_zero_all_ones(b);
        }
    }
    if m >= len {
        lemma_sum_take_next(d, len - 1);
        lemma_sum_skip_prev(d, m - len);
        if seq_sum(d.take(len)) + 1 == sum {
            let b = (d[len - 1] - 1) as u32;
            if value_possible(len, sum, avail, b) {
                let s = choose|s: u32| #[trigger] is_combination(s, len, sum, avail) && bit(s, b);
                lemma_low_slack(s, avail, 9);
            }
            if !unkept {
                assert(!limited_keeps(len, sum, avail, b));
            }
        }
        if seq_sum(d.skip(m - len)) == sum + 1 {
            let b = (d[m - len] - 1) as u32;
            if value_possible(len, sum, avail, b) {
                let s = choose|s: u32| #[trigger] is_combination(s, len, sum, avail) && bit(s, b);
                lemma_high_slack(s, avail, 9);
            }
            if !unkept {
                assert(!limited_keeps(len, sum, avail, b));
            }
        }
    }
}

/// The limited dictionary's entries are tight in the ways `lemma_limited_entry_tight`
/// names; e.g. a run of 8 cells summing to 37 from all nine values (whose only filling
/// is 1 to 7 with 9) does not allow 8.
pub proof fn lemma_limited_dictionary_tight(limited: &Dictionary, len: int, sum: int, avail: u32)
    requires
        limited.is_limited(),
        1 <= len <= 9,
        0 <= sum <= 45,
        avail < 512,
    ensures
        forall|b: u32|
            b < 9 && #[trigger] bit(limited.entry(len * 46 + sum, avail).1, b) ==> {
                &&& bit(avail, b)
                &&& count_below(avail, 9) >= len
                &&& seq_sum(digits_below(avail, 9).take(len - 1)) + (b + 1) <= sum
                &&& seq_sum(digits_below(avail, 9).skip(count_below(avail, 9) - (len - 1))) + (b
                    + 1) >= sum
            },
        count_below(avail, 9) >= len && seq_sum(digits_below(avail, 9).take(len)) + 1 == sum
            ==> !bit(
            limited.entry(len * 46 + sum, avail).1,
            (digits_below(avail, 9)[len - 1] - 1) as u32,
        ),
        count_below(avail, 9) >= len && seq_sum(
            digits_below(avail, 9).skip(count_below(avail, 9) - len),
        ) == sum + 1 ==> !bit(
            limited.entry(len * 46 + sum, avail).1,
            (digits_below(avail, 9)[count_below(avail, 9) - len] - 1) as u32,
        ),
{
    lemma_limited_entry_tight(limited.entry(len * 46 + sum, avail), len, sum, avail);
}

} // verus!
