use vstd::prelude::*;

use crate::kakuro::digits::{
    bit, count_below, lemma_agree_except, lemma_bit_or, lemma_bit_single, lemma_bit_test,
    lemma_bit_xor_single, lemma_bit_zero_all_ones, lemma_bits_ext9, lemma_bit_and,
    lemma_count_pos_total_pos, lemma_count_total_zero, lemma_count_zero, lemma_no_bits,
    lemma_small_ops, lemma_total_ge_bit, subset_below, total_below, digits_below, seq_sum,
    lemma_bit_low_mask, lemma_bit_not, lemma_count_small, lemma_digits, lemma_sum_take_next,
    lemma_sum_skip_prev, lemma_and_le,
};
use crate::kakuro::{Cand, CAND_ALL, MAX_SUM, MAX_VAL};

verus! {

/// The entry of a run that no set of values can fill: every value "imperative",
/// no value allowed.
pub const IMPOSSIBLE: (Cand, Cand) = (CAND_ALL, 0);

/// Number of entries of a dictionary: a length of 0 to 9, a sum of 0 to 45, and each
/// of the 512 sets of available values.
pub const TABLE_SIZE: usize = 235520;

/// `s` is a set of distinct values 1 to 9, all of them in `avail`, `len` of them,
/// summing to `sum`.
pub open spec fn is_combination(s: u32, len: int, sum: int, avail: u32) -> bool {
    &&& s < 512
    &&& subset_below(s, avail, 9)
    &&& count_below(s, 9) == len
    &&& total_below(s, 9) == sum
}

/// Some set of `len` distinct values from `avail` sums to `sum`.
pub open spec fn has_combination(len: int, sum: int, avail: u32) -> bool {
    exists|s: u32| #[trigger] is_combination(s, len, sum, avail)
}

/// The value `b + 1` belongs to every set of `len` distinct values from `avail`
/// summing to `sum`.
pub open spec fn value_required(len: int, sum: int, avail: u32, b: u32) -> bool {
    forall|s: u32| #[trigger] is_combination(s, len, sum, avail) ==> bit(s, b)
}

/// The value `b + 1` belongs to some set of `len` distinct values from `avail`
/// summing to `sum`.
pub open spec fn value_possible(len: int, sum: int, avail: u32, b: u32) -> bool {
    exists|s: u32| #[trigger] is_combination(s, len, sum, avail) && bit(s, b)
}

/// `e` is the exact entry of a run of `len` cells summing to `sum` whose cells may take
/// the values in `avail`: `IMPOSSIBLE` when no set of values fits, otherwise the values
/// that every fitting set holds and the values that some fitting set holds.
pub open spec fn exact_entry(e: (Cand, Cand), len: int, sum: int, avail: u32) -> bool {
    if has_combination(len, sum, avail) {
        &&& e.0 < 512
        &&& e.1 < 512
        &&& forall|b: u32| b < 9 ==> (#[trigger] bit(e.0, b) <==> value_required(len, sum, avail, b))
        &&& forall|b: u32| b < 9 ==> (#[trigger] bit(e.1, b) <==> value_possible(len, sum, avail, b))
    } else {
        e == IMPOSSIBLE
    }
}

/// The largest value a filling of the run can hold by the limited dictionary's reckoning:
/// the sum less the `len - 1` smallest values of `vals`.
pub open spec fn high_max_of(len: int, sum: int, vals: u32) -> int {
    sum - seq_sum(digits_below(vals, 9).take(len - 1))
}

/// The smallest value a filling of the run can hold by the limited dictionary's
/// reckoning: the sum less the `len - 1` largest values of `vals`.
pub open spec fn low_min_of(len: int, sum: int, vals: u32) -> int {
    sum - seq_sum(digits_below(vals, 9).skip(count_below(vals, 9) - (len - 1)))
}

/// The limited dictionary finds the run (of at least one cell) unfillable: `vals` has
/// fewer than `len` values, or its `len` smallest values sum to more than `sum`, or its
/// `len` largest values to less.
pub open spec fn limited_rejects(len: int, sum: int, vals: u32) -> bool {
    let d = digits_below(vals, 9);
    let m = count_below(vals, 9) as int;
    ||| m < len
    ||| high_max_of(len, sum, vals) < d[len - 1]
    ||| low_min_of(len, sum, vals) > d[m - len]
}

/// The limited dictionary allows the value `b + 1` of `vals` when it lies between
/// `low_min` and `high_max`, and is neither the `len`-th smallest value of `vals` when
/// `high_max` exceeds it by one, nor the `len`-th largest when `low_min` falls short of
/// it by one.
pub open spec fn limited_keeps(len: int, sum: int, vals: u32, b: u32) -> bool {
    let d = digits_below(vals, 9);
    let m = count_below(vals, 9) as int;
    let hi = high_max_of(len, sum, vals);
    let lo = low_min_of(len, sum, vals);
    &&& bit(vals, b)
    &&& b + 1 <= hi
    &&& b + 1 >= lo
    &&& !(hi == d[len - 1] + 1 && b + 1 == d[len - 1])
    &&& !(lo == d[m - len] - 1 && b + 1 == d[m - len])
}

/// `e` is the entry the limited dictionary keeps for a run of `len` cells summing to
/// `sum` with available values `vals`: it claims no imperative value and allows the
/// values `limited_keeps` names, or is `IMPOSSIBLE`.
pub open spec fn limited_entry(e: (Cand, Cand), len: int, sum: int, vals: u32) -> bool {
    if len == 0 || sum == 0 {
        e == if len == 0 && sum == 0 {
            (0u32, 0u32)
        } else {
            IMPOSSIBLE
        }
    } else if limited_rejects(len, sum, vals) {
        e == IMPOSSIBLE
    } else {
        &&& e.0 == 0
        &&& e.1 < 512
        &&& forall|b: u32| b < 9 ==> (#[trigger] bit(e.1, b) <==> limited_keeps(len, sum, vals, b))
    }
}

/// Where the entry of a run of `l` cells summing to `s` with available values `a` is kept.
pub open spec fn key_index(l: int, s: int, a: u32) -> int {
    (l * 46 + s) * 512 + a
}

/// For each run (a length, a sum and the set of available values): the values that
/// must appear in the run and the values that may appear in it.
pub struct Dictionary {
    data: Vec<(Cand, Cand)>,
}

impl Dictionary {
    #[verifier::type_invariant]
    spec fn well_formed(self) -> bool {
        self.data.len() == TABLE_SIZE
    }

    /// The entry kept for the run key `k` (the length times 46 plus the sum) and the
    /// available values `a`.
    pub closed spec fn entry(self, k: int, a: u32) -> (Cand, Cand) {
        self.data@[k * 512 + a]
    }

    /// Every entry is the one the limited dictionary keeps for its run.
    pub open spec fn is_limited(self) -> bool {
        forall|l: int, s: int, a: u32|
            0 <= l <= 9 && 0 <= s <= 45 && a < 512 ==> limited_entry(
                #[trigger] self.entry(l * 46 + s, a),
                l,
                s,
                a,
            )
    }

    /// Every entry is the exact one for its run.
    pub open spec fn is_exact(self) -> bool {
        forall|l: int, s: int, a: u32|
            0 <= l <= 9 && 0 <= s <= 45 && a < 512 ==> exact_entry(
                #[trigger] self.entry(l * 46 + s, a),
                l,
                s,
                a,
            )
    }

    /// The entry kept at position `i` of the table.
    pub closed spec fn slot(self, i: int) -> (Cand, Cand) {
        self.data@[i]
    }

    /// The table has an entry at position `i`.
    pub open spec fn has_slot(i: int) -> bool {
        0 <= i < TABLE_SIZE
    }

    /// The entry of the run of `len` cells summing to `sum` whose cells may take the
    /// values in `available` (read at `slot_of(len, sum, available)`, which for a set of
    /// the nine values is the run's own entry).
    pub fn at(&self, len: i32, sum: i32, available: Cand) -> (r: (Cand, Cand))
        requires
            i32::MIN <= len * 46 <= i32::MAX,
            0 <= len * 46 + sum < 460,
            available < 0x8000_0000,
            Self::has_slot(slot_of(len, sum, available)),
        ensures
            r == self.slot(slot_of(len, sum, available)),
            available <= CAND_ALL ==> r == self.entry(len * 46 + sum, available),
    {
        proof {
            use_type_invariant(self);
        }
        self.data[index(len, sum, available)]
    }

    /// The values that every filling of the run holds.
    pub fn imperative(&self, len: i32, sum: i32, available: Cand) -> (r: Cand)
        requires
            i32::MIN <= len * 46 <= i32::MAX,
            0 <= len * 46 + sum < 460,
            available < 0x8000_0000,
            Self::has_slot(slot_of(len, sum, available)),
        ensures
            r == self.slot(slot_of(len, sum, available)).0,
            available <= CAND_ALL ==> r == self.entry(len * 46 + sum, available).0,
    {
        self.at(len, sum, available).0
    }

    /// The values that some filling of the run holds.
    pub fn allowed(&self, len: i32, sum: i32, available: Cand) -> (r: Cand)
        requires
            i32::MIN <= len * 46 <= i32::MAX,
            0 <= len * 46 + sum < 460,
            available < 0x8000_0000,
            Self::has_slot(slot_of(len, sum, available)),
        ensures
            r == self.slot(slot_of(len, sum, available)).1,
            available <= CAND_ALL ==> r == self.entry(len * 46 + sum, available).1,
    {
        self.at(len, sum, available).1
    }
}

/// Whether an entry is `IMPOSSIBLE`.
fn is_impossible(e: (Cand, Cand)) -> (r: bool)
    ensures
        r == (e == IMPOSSIBLE),
{
    e.0 == CAND_ALL && e.1 == 0
}

/// Where the entry of a run is read: the run key `len * 46 + sum` shifted past the nine
/// value bits, with the available values or-ed in.
pub open spec fn slot_of(len: i32, sum: i32, available: Cand) -> int {
    ((((len * 46 + sum) as u32) << 9u32) | available) as int
}

/// The position of the entry of a run in the table.
fn index(len: i32, sum: i32, available: Cand) -> (r: usize)
    requires
        i32::MIN <= len * 46 <= i32::MAX,
        0 <= len * 46 + sum < 460,
        available < 0x8000_0000,
    ensures
        r == slot_of(len, sum, available),
        available < 512 ==> r == (len * 46 + sum) * 512 + available,
{
    let key: i32 = len * (MAX_SUM + 1) + sum;
    let avail: i32 = available as i32;
    let key_u: u32 = key as u32;
    assert(((key << 9i32) | avail) as u32 == (key_u << 9u32) | available && (key << 9i32) | avail
        >= 0) by (bit_vector)
        requires
            0 <= key < 460,
            key_u == key,
            0 <= avail,
            avail == available,
            available < 0x8000_0000u32,
    ;
    assert(available < 512 ==> (key_u << 9u32) | available == key_u * 512 + available) by (bit_vector)
        requires
            key_u < 460,
    ;
    ((key << MAX_VAL) | avail) as usize
}

// ---------------------------------------------------------------------------
// Building the exact dictionary
// ---------------------------------------------------------------------------
/// Taking the value `b + 1` out of a fitting set leaves a fitting set of the shorter run
/// that may no longer use `b + 1`.
proof fn lemma_split(s: u32, b: u32, len: int, sum: int, vals: u32)
    requires
        is_combination(s, len, sum, vals),
        bit(s, b),
        b < 9,
    ensures
        bit(vals, b),
        sum >= b + 1,
        is_combination(s ^ (1u32 << b), len - 1, sum - (b + 1), vals ^ (1u32 << b)),
        forall|c: u32| c < 32 && c != b ==> bit(s ^ (1u32 << b), c) == bit(s, c),
{
    let t = s ^ (1u32 << b);
    assert forall|c: u32| c < 32 implies bit(t, c) == if c == b {
        !bit(s, c)
    } else {
        bit(s, c)
    } by {
        lemma_bit_xor_single(s, b, c);
    }
    assert forall|c: u32| c < 32 implies bit(vals ^ (1u32 << b), c) == if c == b {
        !bit(vals, c)
    } else {
        bit(vals, c)
    } by {
        lemma_bit_xor_single(vals, b, c);
    }
    lemma_agree_except(s, t, b, 9);
    lemma_total_ge_bit(s, b, 9);
    lemma_small_ops(s, s, b);
}

/// Adding the value `b + 1` to a fitting set of the shorter run that may not use it
/// gives a fitting set of the run.
proof fn lemma_join(t: u32, b: u32, len: int, sum: int, vals: u32)
    requires
        bit(vals, b),
        b < 9,
        is_combination(t, len - 1, sum - (b + 1), vals ^ (1u32 << b)),
    ensures
        !bit(t, b),
        is_combination(t | (1u32 << b), len, sum, vals),
        bit(t | (1u32 << b), b),
        forall|c: u32| c < 32 && c != b ==> bit(t | (1u32 << b), c) == bit(t, c),
{
    let s = t | (1u32 << b);
    assert forall|c: u32| c < 32 implies bit(vals ^ (1u32 << b), c) == if c == b {
        !bit(vals, c)
    } else {
        bit(vals, c)
    } by {
        lemma_bit_xor_single(vals, b, c);
    }
    assert(!bit(t, b));
    assert forall|c: u32| c < 32 implies bit(s, c) == (c == b || bit(t, c)) by {
        lemma_bit_or(t, 1u32 << b, c);
        lemma_bit_single(b, c);
    }
    lemma_agree_except(s, t, b, 9);
    lemma_small_ops(t, t, b);
}

/// An exact entry is `IMPOSSIBLE` just when no set of values fits.
proof fn lemma_exact_impossible(e: (Cand, Cand), len: int, sum: int, avail: u32)
    requires
        exact_entry(e, len, sum, avail),
    ensures
        (e == IMPOSSIBLE) == !has_combination(len, sum, avail),
{
    if has_combination(len, sum, avail) {
        let s0 = choose|s: u32| is_combination(s, len, sum, avail);
        lemma_bit_zero_all_ones(0);
        if bit(s0, 0) {
            assert(value_possible(len, sum, avail, 0));
            assert(bit(e.1, 0));
        } else {
            assert(!value_required(len, sum, avail, 0));
            assert(!bit(e.0, 0));
        }
    }
}

/// Some fitting set holds the value `b + 1` and a value below `k + 1`.
spec fn seen_possible(len: int, sum: int, vals: u32, k: u32, b: u32) -> bool {
    exists|s: u32| #[trigger] is_combination(s, len, sum, vals) && count_below(s, k) > 0 && bit(s, b)
}

/// Every fitting set that holds a value below `k + 1` holds the value `b + 1`.
spec fn seen_required(len: int, sum: int, vals: u32, k: u32, b: u32) -> bool {
    forall|s: u32| #[trigger] is_combination(s, len, sum, vals) && count_below(s, k) > 0 ==> bit(s, b)
}

spec fn partial_entry(imp: Cand, alw: Cand, len: int, sum: int, vals: u32, k: u32) -> bool {
    &&& imp < 512
    &&& alw < 512
    &&& forall|b: u32| b < 9 ==> (#[trigger] bit(alw, b) <==> seen_possible(len, sum, vals, k, b))
    &&& forall|b: u32| b < 9 ==> (#[trigger] bit(imp, b) <==> seen_required(len, sum, vals, k, b))
}

/// The value `k + 1` cannot be used: nothing changes when it is considered.
proof fn lemma_step_skipped(imp: Cand, alw: Cand, len: int, sum: int, vals: u32, k: u32)
    requires
        k < 9,
        !(bit(vals, k) && sum >= k + 1),
        partial_entry(imp, alw, len, sum, vals, k),
    ensures
        partial_entry(imp, alw, len, sum, vals, (k + 1) as u32),
{
    assert forall|s: u32| #[trigger] is_combination(s, len, sum, vals) implies count_below(
        s,
        (k + 1) as u32,
    ) == count_below(s, k) by {
        if bit(s, k) {
            lemma_split(s, k, len, sum, vals);
        }
    }
    assert forall|b: u32| b < 9 implies seen_possible(len, sum, vals, k, b) == seen_possible(
        len,
        sum,
        vals,
        (k + 1) as u32,
        b,
    ) by {
        if seen_possible(len, sum, vals, (k + 1) as u32, b) {
            let s = choose|s: u32|
                #[trigger] is_combination(s, len, sum, vals) && count_below(s, (k + 1) as u32) > 0
                    && bit(s, b);
            assert(count_below(s, k) > 0);
        }
    }
    assert forall|b: u32| b < 9 implies seen_required(len, sum, vals, k, b) == seen_required(
        len,
        sum,
        vals,
        (k + 1) as u32,
        b,
    ) by {
        if !seen_required(len, sum, vals, (k + 1) as u32, b) {
            let s = choose|s: u32|
                !(#[trigger] is_combination(s, len, sum, vals) && count_below(s, (k + 1) as u32)
                    > 0 ==> bit(s, b));
            assert(count_below(s, k) > 0);
        }
    }
}

/// The value `k + 1` can be used: the entry of the shorter run without it is merged in.
proof fn lemma_step_taken(
    imp: Cand,
    alw: Cand,
    nxt: (Cand, Cand),
    len: int,
    sum: int,
    vals: u32,
    k: u32,
)
    requires
        k < 9,
        vals < 512,
        bit(vals, k),
        sum >= k + 1,
        exact_entry(nxt, len - 1, sum - (k + 1), vals ^ (1u32 << k)),
        partial_entry(imp, alw, len, sum, vals, k),
    ensures
        nxt != IMPOSSIBLE ==> partial_entry(
            imp & (nxt.0 | (1u32 << k)),
            alw | (nxt.1 | (1u32 << k)),
            len,
            sum,
            vals,
            (k + 1) as u32,
        ),
        nxt == IMPOSSIBLE ==> partial_entry(imp, alw, len, sum, vals, (k + 1) as u32),
{
    let vk = vals ^ (1u32 << k);
    let len2 = len - 1;
    let sum2 = sum - (k + 1);
    lemma_exact_impossible(nxt, len2, sum2, vk);
    // The sets that hold `k + 1` are exactly the sets of the shorter run with `k + 1` added.
    assert forall|s: u32| #[trigger]
        is_combination(s, len, sum, vals) implies (count_below(s, (k + 1) as u32) > 0) == (
    count_below(s, k) > 0 || bit(s, k)) by {}
    if nxt == IMPOSSIBLE {
        assert forall|s: u32| #[trigger] is_combination(s, len, sum, vals) implies !bit(s, k) by {
            if bit(s, k) {
                lemma_split(s, k, len, sum, vals);
            }
        }
        lemma_step_skipped_core(imp, alw, len, sum, vals, k);
    } else {
        let imp2 = imp & (nxt.0 | (1u32 << k));
        let alw2 = alw | (nxt.1 | (1u32 << k));
        lemma_small_ops(nxt.0, nxt.0, k);
        lemma_small_ops(nxt.1, nxt.1, k);
        lemma_small_ops(imp, nxt.0 | (1u32 << k), k);
        lemma_small_ops(alw, nxt.1 | (1u32 << k), k);
        assert forall|b: u32| b < 9 implies (#[trigger] bit(alw2, b) <==> seen_possible(
            len,
            sum,
            vals,
            (k + 1) as u32,
            b,
        )) by {
            lemma_bit_or(alw, nxt.1 | (1u32 << k), b);
            lemma_bit_or(nxt.1, 1u32 << k, b);
            lemma_bit_single(k, b);
            if seen_possible(len, sum, vals, (k + 1) as u32, b) {
                let s = choose|s: u32|
                    #[trigger] is_combination(s, len, sum, vals) && count_below(s, (k + 1) as u32)
                        > 0 && bit(s, b);
                if !seen_possible(len, sum, vals, k, b) {
                    assert(bit(s, k));
                    lemma_split(s, k, len, sum, vals);
                    if b != k {
                        assert(is_combination(s ^ (1u32 << k), len2, sum2, vk));
                        assert(value_possible(len2, sum2, vk, b));
                    }
                }
            }
            if bit(alw2, b) && !bit(alw, b) {
                if b == k {
                    let t = choose|t: u32| #[trigger] is_combination(t, len2, sum2, vk);
                    lemma_join(t, k, len, sum, vals);
                    lemma_total_ge_bit(t | (1u32 << k), k, (k + 1) as u32);
                    assert(is_combination(t | (1u32 << k), len, sum, vals));
                } else {
                    assert(value_possible(len2, sum2, vk, b));
                    let t = choose|t: u32| #[trigger] is_combination(t, len2, sum2, vk) && bit(t, b);
                    lemma_join(t, k, len, sum, vals);
                    lemma_total_ge_bit(t | (1u32 << k), k, (k + 1) as u32);
                    assert(is_combination(t | (1u32 << k), len, sum, vals));
                }
            }
        }
        assert forall|b: u32| b < 9 implies (#[trigger] bit(imp2, b) <==> seen_required(
            len,
            sum,
            vals,
            (k + 1) as u32,
            b,
        )) by {
            lemma_bit_and(imp, nxt.0 | (1u32 << k), b);
            lemma_bit_or(nxt.0, 1u32 << k, b);
            lemma_bit_single(k, b);
            if seen_required(len, sum, vals, k, b) && (b == k || value_required(len2, sum2, vk, b)) {
                assert forall|s: u32| #[trigger]
                    is_combination(s, len, sum, vals) && count_below(s, (k + 1) as u32)
                        > 0 implies bit(s, b) by {
                    if count_below(s, k) == 0 {
                        assert(bit(s, k));
                        if b != k {
                            lemma_split(s, k, len, sum, vals);
                            assert(is_combination(s ^ (1u32 << k), len2, sum2, vk));
                        }
                    }
                }
            }
            if seen_required(len, sum, vals, (k + 1) as u32, b) {
                assert forall|s: u32| #[trigger]
                    is_combination(s, len, sum, vals) && count_below(s, k) > 0 implies bit(s, b) by {
                    assert(count_below(s, (k + 1) as u32) > 0);
                }
                if b != k {
                    assert forall|t: u32| #[trigger] is_combination(t, len2, sum2, vk) implies bit(t, b) by {
                        lemma_join(t, k, len, sum, vals);
                        lemma_total_ge_bit(t | (1u32 << k), k, (k + 1) as u32);
                        assert(is_combination(t | (1u32 << k), len, sum, vals));
                        assert(bit(t | (1u32 << k), b));
                    }
                }
            }
        }
    }
}

/// When no fitting set holds `k + 1`, the partial entry carries over unchanged.
proof fn lemma_step_skipped_core(imp: Cand, alw: Cand, len: int, sum: int, vals: u32, k: u32)
    requires
        k < 9,
        forall|s: u32| #[trigger] is_combination(s, len, sum, vals) ==> !bit(s, k),
        partial_entry(imp, alw, len, sum, vals, k),
    ensures
        partial_entry(imp, alw, len, sum, vals, (k + 1) as u32),
{
    assert forall|b: u32| b < 9 implies seen_possible(len, sum, vals, k, b) == seen_possible(
        len,
        sum,
        vals,
        (k + 1) as u32,
        b,
    ) by {
        if seen_possible(len, sum, vals, (k + 1) as u32, b) {
            let s = choose|s: u32|
                #[trigger] is_combination(s, len, sum, vals) && count_below(s, (k + 1) as u32) > 0
                    && bit(s, b);
            assert(count_below(s, k) > 0);
        }
    }
    assert forall|b: u32| b < 9 implies seen_required(len, sum, vals, k, b) == seen_required(
        len,
        sum,
        vals,
        (k + 1) as u32,
        b,
    ) by {
        if !seen_required(len, sum, vals, (k + 1) as u32, b) {
            let s = choose|s: u32|
                !(#[trigger] is_combination(s, len, sum, vals) && count_below(s, (k + 1) as u32)
                    > 0 ==> bit(s, b));
            assert(count_below(s, k) > 0);
        }
    }
}

/// The entry of a run built from the exact entries of the runs one cell shorter: a value
/// must appear when every way of using some value `i` leaves a shorter run in which it
/// must appear, and may appear when some way does.
fn combine_entry(data: &Vec<(Cand, Cand)>, len: i32, sum: i32, vals: Cand) -> (r: (Cand, Cand))
    requires
        data.len() == TABLE_SIZE,
        1 <= len <= 9,
        1 <= sum <= 45,
        vals < 512,
        forall|s: int, a: u32|
            0 <= s <= 45 && a < 512 ==> exact_entry(
                #[trigger] data@[key_index(len - 1, s, a)],
                len - 1,
                s,
                a,
            ),
    ensures
        exact_entry(r, len as int, sum as int, vals),
{
    let mut imperative: Cand = CAND_ALL;
    let mut allowed: Cand = 0;
    proof {
        assert forall|s: u32| #[trigger] count_below(s, 0) == 0 by {}
        assert forall|b: u32| b < 9 implies (#[trigger] bit(allowed, b) <==> seen_possible(
            len as int,
            sum as int,
            vals,
            0,
            b,
        )) by {
            lemma_bit_zero_all_ones(b);
        }
        assert forall|b: u32| b < 9 implies (#[trigger] bit(imperative, b) <==> seen_required(
            len as int,
            sum as int,
            vals,
            0,
            b,
        )) by {
            lemma_bit_zero_all_ones(b);
        }
        assert(partial_entry(imperative, allowed, len as int, sum as int, vals, 0));
    }
    for i in 1..(MAX_VAL + 1)
        invariant
            data.len() == TABLE_SIZE,
            1 <= len <= 9,
            1 <= sum <= 45,
            vals < 512,
            forall|s: int, a: u32|
                0 <= s <= 45 && a < 512 ==> exact_entry(
                    #[trigger] data@[key_index(len - 1, s, a)],
                    len - 1,
                    s,
                    a,
                ),
            partial_entry(imperative, allowed, len as int, sum as int, vals, (i - 1) as u32),
    {
        let k: u32 = (i - 1) as u32;
        let bitmask: Cand = 1 << k;
        proof {
            lemma_bit_test(vals, k);
            lemma_small_ops(vals, vals, k);
        }
        if (vals & bitmask) != 0 && sum >= i {
            let nxt = data[index(len - 1, sum - i, vals ^ bitmask)];
            proof {
                assert(nxt == data@[key_index(len - 1, sum - i, vals ^ bitmask)]);
                lemma_step_taken(imperative, allowed, nxt, len as int, sum as int, vals, k);
            }
            if !is_impossible(nxt) {
                imperative &= nxt.0 | bitmask;
                allowed |= nxt.1 | bitmask;
            }
        } else {
            proof {
                lemma_step_skipped(imperative, allowed, len as int, sum as int, vals, k);
            }
        }
    }
    proof {
        let l = len as int;
        let t = sum as int;
        assert forall|b: u32| b < 9 implies seen_possible(l, t, vals, 9, b) == value_possible(
            l,
            t,
            vals,
            b,
        ) by {
            if value_possible(l, t, vals, b) {
                let s = choose|s: u32| #[trigger] is_combination(s, l, t, vals) && bit(s, b);
                assert(count_below(s, 9) > 0);
            }
        }
        assert forall|b: u32| b < 9 implies seen_required(l, t, vals, 9, b) == value_required(
            l,
            t,
            vals,
            b,
        ) by {
            if !value_required(l, t, vals, b) {
                let s = choose|s: u32| !(#[trigger] is_combination(s, l, t, vals) ==> bit(s, b));
                assert(count_below(s, 9) > 0);
            }
        }
        if !has_combination(l, t, vals) {
            assert forall|c: u32| c < 9 implies bit(allowed, c) == bit(0u32, c) && bit(
                imperative,
                c,
            ) == bit(511u32, c) by {
                lemma_bit_zero_all_ones(c);
            }
            lemma_bits_ext9(allowed, 0);
            lemma_bits_ext9(imperative, 511);
        }
    }
    (imperative, allowed)
}

/// Every run whose length or sum (but not both) is zero has no fitting set.
proof fn lemma_trivial_runs(l: int, s: int, a: u32)
    requires
        (l == 0) != (s == 0),
    ensures
        !has_combination(l, s, a),
{
    if has_combination(l, s, a) {
        let c = choose|c: u32| #[trigger] is_combination(c, l, s, a);
        lemma_count_total_zero(c, 9);
        if l > 0 {
            lemma_count_pos_total_pos(c, 9);
        }
    }
}

/// The empty run with sum zero is filled by the empty set only: nothing is imperative,
/// nothing is allowed.
proof fn lemma_empty_run(a: u32)
    ensures
        exact_entry((0u32, 0u32), 0, 0, a),
{
    assert forall|c: u32| c < 9 implies !bit(0u32, c) by {
        lemma_bit_zero_all_ones(c);
    }
    lemma_no_bits(0u32, 9);
    assert(is_combination(0u32, 0, 0, a));
    assert forall|b: u32| b < 9 implies (#[trigger] bit(0u32, b) <==> value_required(
        0,
        0,
        a,
        b,
    )) by {
        assert(is_combination(0u32, 0, 0, a));
    }
    assert forall|b: u32| b < 9 implies (#[trigger] bit(0u32, b) <==> value_possible(
        0,
        0,
        a,
        b,
    )) by {
        if value_possible(0, 0, a, b) {
            let c = choose|c: u32| #[trigger] is_combination(c, 0, 0, a) && bit(c, b);
            lemma_count_zero(c, 9, b);
        }
    }
}

/// The entry `e` is the one the exact dictionary (or, with `limited`, the limited
/// dictionary) keeps for its run.
spec fn entry_ok(limited: bool, e: (Cand, Cand), l: int, s: int, a: u32) -> bool {
    if limited {
        limited_entry(e, l, s, a)
    } else {
        exact_entry(e, l, s, a)
    }
}

/// Entries of the runs before `cur` (in table order) are the ones kept; the others are
/// still `IMPOSSIBLE`.
spec fn built_upto(data: Seq<(Cand, Cand)>, cur: int, limited: bool) -> bool {
    &&& data.len() == TABLE_SIZE
    &&& forall|l: int, s: int, a: u32|
        0 <= l <= 9 && 0 <= s <= 45 && a < 512 ==> (key_index(l, s, a) < cur ==> entry_ok(
            limited,
            #[trigger] data[key_index(l, s, a)],
            l,
            s,
            a,
        )) && (key_index(l, s, a) >= cur ==> data[key_index(l, s, a)] == IMPOSSIBLE)
}

proof fn lemma_key_injective(l: int, s: int, a: u32, l2: int, s2: int, a2: u32)
    requires
        0 <= l <= 9,
        0 <= s <= 45,
        a < 512,
        0 <= l2 <= 9,
        0 <= s2 <= 45,
        a2 < 512,
        key_index(l, s, a) == key_index(l2, s2, a2),
    ensures
        l == l2,
        s == s2,
        a == a2,
{
    let k = l * 46 + s;
    let k2 = l2 * 46 + s2;
    if k < k2 {
        assert(k * 512 + a < k2 * 512);
    }
    if k2 < k {
        assert(k2 * 512 + a2 < k * 512);
    }
    assert(k == k2);
}

/// Writing the exact entry of the next run extends the built prefix by one.
proof fn lemma_built_step(
    data: Seq<(Cand, Cand)>,
    l0: int,
    s0: int,
    a0: u32,
    e: (Cand, Cand),
    limited: bool,
)
    requires
        0 <= l0 <= 9,
        0 <= s0 <= 45,
        a0 < 512,
        built_upto(data, key_index(l0, s0, a0), limited),
        entry_ok(limited, e, l0, s0, a0),
    ensures
        built_upto(data.update(key_index(l0, s0, a0), e), key_index(l0, s0, a0) + 1, limited),
{
    let cur = key_index(l0, s0, a0);
    let data2 = data.update(cur, e);
    assert forall|l: int, s: int, a: u32|
        0 <= l <= 9 && 0 <= s <= 45 && a < 512 implies (key_index(l, s, a) < cur + 1
        ==> entry_ok(limited, #[trigger] data2[key_index(l, s, a)], l, s, a)) && (key_index(l, s, a)
        >= cur + 1 ==> data2[key_index(l, s, a)] == IMPOSSIBLE) by {
        if key_index(l, s, a) == cur {
            lemma_key_injective(l, s, a, l0, s0, a0);
        } else {
            assert(data2[key_index(l, s, a)] == data[key_index(l, s, a)]);
        }
    }
}

/// Runs with no fitting set need no writing: their `IMPOSSIBLE` entries are exact.
proof fn lemma_skip_trivial(data: Seq<(Cand, Cand)>, cur: int, next: int, limited: bool)
    requires
        built_upto(data, cur, limited),
        cur <= next,
        forall|l: int, s: int, a: u32|
            0 <= l <= 9 && 0 <= s <= 45 && a < 512 && cur <= #[trigger] key_index(l, s, a) < next
                ==> (l == 0) != (s == 0),
    ensures
        built_upto(data, next, limited),
{
    assert forall|l: int, s: int, a: u32|
        0 <= l <= 9 && 0 <= s <= 45 && a < 512 implies (key_index(l, s, a) < next
        ==> entry_ok(limited, #[trigger] data[key_index(l, s, a)], l, s, a)) && (key_index(l, s, a)
        >= next ==> data[key_index(l, s, a)] == IMPOSSIBLE) by {
        if cur <= key_index(l, s, a) < next {
            lemma_trivial_runs(l, s, a);
        }
    }
}

impl Dictionary {
    /// The dictionary of exact entries: for each run, `IMPOSSIBLE` when no set of
    /// distinct values fits it, otherwise the values in every fitting set and the values
    /// in some fitting set.
    pub fn default() -> (d: Dictionary)
        ensures
            d.is_exact(),
    {
        let mut data: Vec<(Cand, Cand)> = Vec::new();
        while data.len() < TABLE_SIZE
            invariant
                data.len() <= TABLE_SIZE,
                forall|j: int| 0 <= j < data.len() ==> data@[j] == IMPOSSIBLE,
            decreases TABLE_SIZE - data.len(),
        {
            data.push(IMPOSSIBLE);
        }
        assert(built_upto(data@, 0, false));
        for vals in 0..(CAND_ALL + 1)
            invariant
                built_upto(data@, key_index(0, 0, vals), false),
        {
            proof {
                lemma_empty_run(vals);
                lemma_built_step(data@, 0, 0, vals, (0u32, 0u32), false);
            }
            data.set(vals as usize, (0, 0));
        }
        proof {
            lemma_skip_trivial(data@, key_index(0, 1, 0), key_index(1, 0, 0), false);
        }
        for len in 1..(MAX_VAL + 1)
            invariant
                built_upto(data@, key_index(len as int, 0, 0), false),
        {
            proof {
                lemma_skip_trivial(data@, key_index(len as int, 0, 0), key_index(len as int, 1, 0), false);
            }
            for sum in 1..(MAX_SUM + 1)
                invariant
                    1 <= len <= 9,
                    built_upto(data@, key_index(len as int, sum as int, 0), false),
            {
                for vals in 0..(CAND_ALL + 1)
                    invariant
                        1 <= len <= 9,
                        1 <= sum <= 45,
                        built_upto(data@, key_index(len as int, sum as int, vals), false),
                {
                    proof {
                        assert forall|s: int, a: u32| 0 <= s <= 45 && a < 512 implies exact_entry(
                            #[trigger] data@[key_index(len - 1, s, a)],
                            len - 1,
                            s,
                            a,
                        ) by {
                            assert(key_index(len - 1, s, a) < key_index(len as int, sum as int, vals));
                        }
                    }
                    let entry = combine_entry(&data, len, sum, vals);
                    let idx = index(len, sum, vals);
                    proof {
                        lemma_built_step(data@, len as int, sum as int, vals, entry, false);
                    }
                    data.set(idx, entry);
                }
            }
        }
        let d = Dictionary { data };
        proof {
            assert forall|l: int, s: int, a: u32|
                0 <= l <= 9 && 0 <= s <= 45 && a < 512 implies exact_entry(
                #[trigger] d.entry(l * 46 + s, a),
                l,
                s,
                a,
            ) by {
                assert(d.entry(l * 46 + s, a) == d.data@[key_index(l, s, a)]);
                assert(key_index(l, s, a) < key_index(10, 0, 0));
            }
        }
        d
    }
}

/// The number of values of the mask `x` (its bits set among the 32).
fn count_ones(x: u32) -> (r: u32)
    ensures
        r == count_below(x, 32),
{
    let mut count: u32 = 0;
    let mut i: u32 = 0;
    while i < 32
        invariant
            i <= 32,
            count == count_below(x, i),
            count <= i,
        decreases 32 - i,
    {
        proof {
            lemma_bit_test(x, i);
        }
        if (x & (1u32 << i)) != 0 {
            count += 1;
        }
        i += 1;
    }
    count
}

/// The limited dictionary's entry for a run of at least one cell with a positive sum.
fn limited_run_entry(len: i32, sum: i32, vals: Cand) -> (r: (Cand, Cand))
    requires
        1 <= len <= 9,
        1 <= sum <= 45,
        vals < 512,
    ensures
        limited_entry(r, len as int, sum as int, vals),
{
    let ghost d = digits_below(vals, 9);
    let ghost m = count_below(vals, 9) as int;
    proof {
        lemma_count_small(vals, 32);
        lemma_digits(vals, 9);
    }
    if count_ones(vals) < len as u32 {
        return IMPOSSIBLE;
    }
    let mut cand: Vec<i32> = Vec::new();
    let mut i: i32 = 1;
    while i <= MAX_VAL
        invariant
            1 <= i <= 10,
            vals < 512,
            cand@.len() == digits_below(vals, (i - 1) as u32).len(),
            forall|j: int|
                0 <= j < cand@.len() ==> cand@[j] as int == #[trigger] digits_below(
                    vals,
                    (i - 1) as u32,
                )[j],
        decreases 10 - i,
    {
        proof {
            lemma_bit_test(vals, (i - 1) as u32);
        }
        let ghost prev = cand@;
        let ghost before = digits_below(vals, (i - 1) as u32);
        if (vals & (1 << ((i - 1) as Cand))) != 0 {
            cand.push(i);
        }
        proof {
            let next = digits_below(vals, i as u32);
            assert(next == if bit(vals, (i - 1) as u32) {
                before.push(i as int)
            } else {
                before
            });
            assert forall|j: int| 0 <= j < cand@.len() implies cand@[j] as int == #[trigger] next[j] by {
                if j < prev.len() {
                    assert(cand@[j] == prev[j]);
                    assert(prev[j] as int == before[j]);
                    assert(next[j] == before[j]);
                } else {
                    assert(cand@[j] == i);
                    assert(next[j] == i as int);
                }
            }
        }
        i += 1;
    }
    assert(cand@.len() == d.len());
    let imperative: Cand = 0;
    let mut allowed: Cand = vals;

    let mut sum_low: i32 = 0;
    for i in 0..(len - 1)
        invariant
            1 <= len <= 9,
            m >= len,
            d.len() == m,
            cand@.len() == d.len(),
            forall|j: int| 0 <= j < cand@.len() ==> cand@[j] as int == #[trigger] d[j],
            forall|j: int| 0 <= j < d.len() ==> 1 <= #[trigger] d[j] <= 9,
            sum_low == seq_sum(d.take(i as int)),
            0 <= sum_low <= 9 * i,
    {
        proof {
            lemma_sum_take_next(d, i as int);
        }
        sum_low += cand[i as usize];
    }
    let high_max = sum - sum_low;
    if high_max < cand[(len - 1) as usize] {
        return IMPOSSIBLE;
    }
    let ghost hi = high_max as int;
    let ghost dl = d[len - 1];
    assert(hi == high_max_of(len as int, sum as int, vals));
    if high_max < MAX_VAL {
        let ghost before = allowed;
        proof {
            assert forall|b: u32| b < 32 implies #[trigger] bit(((1u32 << (high_max as u32)) - 1) as u32, b)
                == (b < high_max) by {
                lemma_bit_low_mask(high_max as u32, b);
            }
            lemma_bit_low_mask(high_max as u32, 0);
        }
        allowed &= (1 << (high_max as Cand)) - 1;
        proof {
            lemma_and_le(before, ((1u32 << (high_max as u32)) - 1) as u32);
            assert forall|b: u32| b < 9 implies bit(allowed, b) == (bit(before, b) && b + 1
                <= hi) by {
                lemma_bit_and(before, ((1u32 << (high_max as u32)) - 1) as u32, b);
            }
        }
    }
    assert forall|b: u32| b < 9 implies bit(allowed, b) == (bit(vals, b) && b + 1 <= hi) by {}
    if high_max == cand[(len - 1) as usize] + 1 {
        let ghost before = allowed;
        allowed &= !(1 << (high_max as Cand - 2));
        proof {
            lemma_and_le(before, !(1u32 << (high_max as u32 - 2) as u32));
            assert forall|b: u32| b < 9 implies bit(allowed, b) == (bit(before, b) && b + 1
                != dl) by {
                lemma_bit_and(before, !(1u32 << (high_max as u32 - 2) as u32), b);
                lemma_bit_not(1u32 << (high_max as u32 - 2) as u32, b);
                lemma_bit_single((high_max as u32 - 2) as u32, b);
            }
        }
    }
    assert forall|b: u32| b < 9 implies bit(allowed, b) == (bit(vals, b) && b + 1 <= hi && !(hi
        == dl + 1 && b + 1 == dl)) by {}

    let n = cand.len();
    let mut sum_high: i32 = 0;
    for i in 0..(len - 1)
        invariant
            1 <= len <= 9,
            m >= len,
            d.len() == m,
            n == m,
            cand@.len() == d.len(),
            forall|j: int| 0 <= j < cand@.len() ==> cand@[j] as int == #[trigger] d[j],
            forall|j: int| 0 <= j < d.len() ==> 1 <= #[trigger] d[j] <= 9,
            sum_high == seq_sum(d.skip(m - i)),
            0 <= sum_high <= 9 * i,
    {
        proof {
            lemma_sum_skip_prev(d, m - i - 1);
        }
        sum_high += cand[n - 1 - i as usize];
    }
    let low_min = sum - sum_high;
    if low_min > cand[n - len as usize] {
        return IMPOSSIBLE;
    }
    let ghost lo = low_min as int;
    let ghost dh = d[m - len];
    assert(lo == low_min_of(len as int, sum as int, vals));
    assert(!limited_rejects(len as int, sum as int, vals));
    if low_min > 1 {
        let ghost before = allowed;
        proof {
            lemma_bit_low_mask((low_min - 1) as u32, 0);
        }
        allowed &= !((1 << (low_min as Cand - 1)) - 1);
        proof {
            lemma_and_le(before, !(((1u32 << (low_min as u32 - 1) as u32) - 1) as u32));
            assert forall|b: u32| b < 9 implies bit(allowed, b) == (bit(before, b) && b + 1
                >= lo) by {
                let mask = ((1u32 << (low_min as u32 - 1) as u32) - 1) as u32;
                lemma_bit_and(before, !mask, b);
                lemma_bit_not(mask, b);
                lemma_bit_low_mask((low_min as u32 - 1) as u32, b);
            }
        }
    }
    if low_min == cand[n - len as usize] - 1 {
        let ghost before = allowed;
        allowed &= !(1 << (low_min as Cand));
        proof {
            lemma_and_le(before, !(1u32 << (low_min as u32)));
            assert forall|b: u32| b < 9 implies bit(allowed, b) == (bit(before, b) && b + 1
                != dh) by {
                lemma_bit_and(before, !(1u32 << (low_min as u32)), b);
                lemma_bit_not(1u32 << (low_min as u32), b);
                lemma_bit_single(low_min as u32, b);
            }
        }
    }
    proof {
        assert forall|b: u32| b < 9 implies (#[trigger] bit(allowed, b) <==> limited_keeps(
            len as int,
            sum as int,
            vals,
            b,
        )) by {}
        lemma_small_ops(vals, vals, 0);
    }
    (imperative, allowed)
}

impl Dictionary {
    /// A cheaper dictionary that only bounds the values of a run: it never names an
    /// imperative value, and allows the values of `vals` that the smallest and largest
    /// sums leave room for.
    pub fn limited() -> (d: Dictionary)
        ensures
            d.is_limited(),
    {
        let mut data: Vec<(Cand, Cand)> = Vec::new();
        while data.len() < TABLE_SIZE
            invariant
                data.len() <= TABLE_SIZE,
                forall|j: int| 0 <= j < data.len() ==> data@[j] == IMPOSSIBLE,
            decreases TABLE_SIZE - data.len(),
        {
            data.push(IMPOSSIBLE);
        }
        assert(built_upto(data@, 0, true));
        for vals in 0..(CAND_ALL + 1)
            invariant
                built_upto(data@, key_index(0, 0, vals), true),
        {
            proof {
                lemma_built_step(data@, 0, 0, vals, (0u32, 0u32), true);
            }
            data.set(vals as usize, (0, 0));
        }
        proof {
            lemma_skip_trivial(data@, key_index(0, 1, 0), key_index(1, 0, 0), true);
        }
        for len in 1..(MAX_VAL + 1)
            invariant
                built_upto(data@, key_index(len as int, 0, 0), true),
        {
            proof {
                lemma_skip_trivial(
                    data@,
                    key_index(len as int, 0, 0),
                    key_index(len as int, 1, 0),
                    true,
                );
            }
            for sum in 1..(MAX_SUM + 1)
                invariant
                    1 <= len <= 9,
                    built_upto(data@, key_index(len as int, sum as int, 0), true),
            {
                for vals in 0..(CAND_ALL + 1)
                    invariant
                        1 <= len <= 9,
                        1 <= sum <= 45,
                        built_upto(data@, key_index(len as int, sum as int, vals), true),
                {
                    let entry = limited_run_entry(len, sum, vals);
                    let idx = index(len, sum, vals);
                    proof {
                        lemma_built_step(data@, len as int, sum as int, vals, entry, true);
                    }
                    data.set(idx, entry);
                }
            }
        }
        let d = Dictionary { data };
        proof {
            assert forall|l: int, s: int, a: u32|
                0 <= l <= 9 && 0 <= s <= 45 && a < 512 implies limited_entry(
                #[trigger] d.entry(l * 46 + s, a),
                l,
                s,
                a,
            ) by {
                assert(d.entry(l * 46 + s, a) == d.data@[key_index(l, s, a)]);
                assert(key_index(l, s, a) < key_index(10, 0, 0));
            }
        }
        d
    }
}

} // verus!
