use vstd::prelude::*;

verus! {

/// Whether bit `b` of the mask `m` is set; bit `b` stands for the value `b + 1`.
pub open spec fn bit(m: u32, b: u32) -> bool {
    (m >> b) & 1u32 == 1u32
}

/// The number of bits of `m` that are set below position `n`.
pub open spec fn count_below(m: u32, n: u32) -> nat
    decreases n,
{
    if n == 0 {
        0
    } else {
        count_below(m, (n - 1) as u32) + if bit(m, (n - 1) as u32) {
            1nat
        } else {
            0nat
        }
    }
}

/// The sum of the values whose bits are set in `m` below position `n`
/// (bit `b` counts as the value `b + 1`).
pub open spec fn total_below(m: u32, n: u32) -> nat
    decreases n,
{
    if n == 0 {
        0
    } else {
        total_below(m, (n - 1) as u32) + if bit(m, (n - 1) as u32) {
            n as nat
        } else {
            0nat
        }
    }
}

/// Every bit below position `n` that is set in `s` is set in `v`.
pub open spec fn subset_below(s: u32, v: u32, n: u32) -> bool {
    forall|b: u32| b < n && #[trigger] bit(s, b) ==> bit(v, b)
}

/// The values held by the mask `m` below the value `n + 1`, in ascending order.
pub open spec fn digits_below(m: u32, n: u32) -> Seq<int>
    decreases n,
{
    if n == 0 {
        Seq::empty()
    } else if bit(m, (n - 1) as u32) {
        digits_below(m, (n - 1) as u32).push(n as int)
    } else {
        digits_below(m, (n - 1) as u32)
    }
}

/// The sum of a sequence of integers.
pub open spec fn seq_sum(s: Seq<int>) -> int
    decreases s.len(),
{
    if s.len() == 0 {
        0
    } else {
        seq_sum(s.drop_last()) + s.last()
    }
}

// ---------------------------------------------------------------------------
// Single bits
// ---------------------------------------------------------------------------
pub proof fn lemma_bit_and(x: u32, y: u32, c: u32)
    requires
        c < 32,
    ensures
        bit(x & y, c) == (bit(x, c) && bit(y, c)),
{
    assert(((x & y) >> c) & 1u32 == 1u32 <==> (((x >> c) & 1u32 == 1u32) && ((y >> c) & 1u32
        == 1u32))) by (bit_vector)
        requires
            c < 32,
    ;
}

pub proof fn lemma_bit_or(x: u32, y: u32, c: u32)
    requires
        c < 32,
    ensures
        bit(x | y, c) == (bit(x, c) || bit(y, c)),
{
    assert(((x | y) >> c) & 1u32 == 1u32 <==> (((x >> c) & 1u32 == 1u32) || ((y >> c) & 1u32
        == 1u32))) by (bit_vector)
        requires
            c < 32,
    ;
}

pub proof fn lemma_bit_single(b: u32, c: u32)
    requires
        b < 32,
        c < 32,
    ensures
        bit(1u32 << b, c) == (b == c),
{
    assert((((1u32 << b) >> c) & 1u32 == 1u32) == (b == c)) by (bit_vector)
        requires
            b < 32,
            c < 32,
    ;
}

pub proof fn lemma_bit_not(x: u32, c: u32)
    requires
        c < 32,
    ensures
        bit(!x, c) == !bit(x, c),
{
    assert((((!x) >> c) & 1u32 == 1u32) == !((x >> c) & 1u32 == 1u32)) by (bit_vector)
        requires
            c < 32,
    ;
}

pub proof fn lemma_bit_xor_single(x: u32, b: u32, c: u32)
    requires
        b < 32,
        c < 32,
    ensures
        bit(x ^ (1u32 << b), c) == if c == b {
            !bit(x, c)
        } else {
            bit(x, c)
        },
{
    assert(((((x ^ (1u32 << b)) >> c) & 1u32) == 1u32) == if c == b {
        !(((x >> c) & 1u32) == 1u32)
    } else {
        ((x >> c) & 1u32) == 1u32
    }) by (bit_vector)
        requires
            b < 32,
            c < 32,
    ;
}

/// Testing a mask against a single bit reads that bit.
pub proof fn lemma_bit_test(x: u32, b: u32)
    requires
        b < 32,
    ensures
        ((x & (1u32 << b)) != 0) == bit(x, b),
{
    assert(((x & (1u32 << b)) != 0) == (((x >> b) & 1u32) == 1u32)) by (bit_vector)
        requires
            b < 32,
    ;
}

/// The bits below `n` of `(1 << n) - 1` are set, the others are not.
pub proof fn lemma_bit_low_mask(n: u32, c: u32)
    requires
        n < 32,
        c < 32,
    ensures
        1u32 << n >= 1,
        bit(((1u32 << n) - 1) as u32, c) == (c < n),
{
    assert(1u32 << n >= 1u32) by (bit_vector)
        requires
            n < 32,
    ;
    assert(((((((1u32 << n) - 1u32) as u32) >> c) & 1u32) == 1u32) == (c < n)) by (bit_vector)
        requires
            n < 32,
            c < 32,
    ;
}

/// A mask below 512 has no bit set at position 9 or above.
pub proof fn lemma_small_high_bit(x: u32, c: u32)
    requires
        x < 512,
        9 <= c < 32,
    ensures
        !bit(x, c),
{
    assert(!(((x >> c) & 1u32) == 1u32)) by (bit_vector)
        requires
            x < 512,
            9 <= c < 32,
    ;
}

pub proof fn lemma_small_ops(x: u32, y: u32, b: u32)
    requires
        x < 512,
        y < 512,
        b < 9,
    ensures
        x & y < 512,
        x | y < 512,
        x & y <= x,
        x ^ (1u32 << b) < 512,
        x | (1u32 << b) < 512,
        (1u32 << b) < 512,
{
    assert(x & y < 512 && x | y < 512 && x & y <= x && x ^ (1u32 << b) < 512 && x | (1u32 << b)
        < 512 && (1u32 << b) < 512) by (bit_vector)
        requires
            x < 512,
            y < 512,
            b < 9,
    ;
}

/// Two masks below 512 that agree on bits 0 to 8 are equal.
pub proof fn lemma_bits_ext9(x: u32, y: u32)
    requires
        x < 512,
        y < 512,
        forall|c: u32| c < 9 ==> bit(x, c) == bit(y, c),
    ensures
        x == y,
{
    assert(bit(x, 0) == bit(y, 0));
    assert(bit(x, 1) == bit(y, 1));
    assert(bit(x, 2) == bit(y, 2));
    assert(bit(x, 3) == bit(y, 3));
    assert(bit(x, 4) == bit(y, 4));
    assert(bit(x, 5) == bit(y, 5));
    assert(bit(x, 6) == bit(y, 6));
    assert(bit(x, 7) == bit(y, 7));
    assert(bit(x, 8) == bit(y, 8));
    assert(x == y) by (bit_vector)
        requires
            x < 512,
            y < 512,
            ((x >> 0u32) & 1u32 == 1u32) == ((y >> 0u32) & 1u32 == 1u32),
            ((x >> 1u32) & 1u32 == 1u32) == ((y >> 1u32) & 1u32 == 1u32),
            ((x >> 2u32) & 1u32 == 1u32) == ((y >> 2u32) & 1u32 == 1u32),
            ((x >> 3u32) & 1u32 == 1u32) == ((y >> 3u32) & 1u32 == 1u32),
            ((x >> 4u32) & 1u32 == 1u32) == ((y >> 4u32) & 1u32 == 1u32),
            ((x >> 5u32) & 1u32 == 1u32) == ((y >> 5u32) & 1u32 == 1u32),
            ((x >> 6u32) & 1u32 == 1u32) == ((y >> 6u32) & 1u32 == 1u32),
            ((x >> 7u32) & 1u32 == 1u32) == ((y >> 7u32) & 1u32 == 1u32),
            ((x >> 8u32) & 1u32 == 1u32) == ((y >> 8u32) & 1u32 == 1u32),
    ;
}

pub proof fn lemma_bit_zero_all_ones(c: u32)
    requires
        c < 9,
    ensures
        !bit(0, c),
        bit(511, c),
{
    assert(!(((0u32 >> c) & 1u32) == 1u32) && (((511u32 >> c) & 1u32) == 1u32)) by (bit_vector)
        requires
            c < 9,
    ;
}

// ---------------------------------------------------------------------------
// Counts and totals
// ---------------------------------------------------------------------------
/// Masks that agree below `n` have the same count, total and values below `n`.
pub proof fn lemma_agree_below(s: u32, t: u32, n: u32)
    requires
        forall|c: u32| c < n ==> bit(s, c) == bit(t, c),
    ensures
        count_below(s, n) == count_below(t, n),
        total_below(s, n) == total_below(t, n),
        digits_below(s, n) == digits_below(t, n),
    decreases n,
{
    if n > 0 {
        lemma_agree_below(s, t, (n - 1) as u32);
        assert(bit(s, (n - 1) as u32) == bit(t, (n - 1) as u32));
    }
}

/// Masks that agree below `n` except at `b`, where `s` has the bit and `t` does not.
pub proof fn lemma_agree_except(s: u32, t: u32, b: u32, n: u32)
    requires
        b < n,
        bit(s, b),
        !bit(t, b),
        forall|c: u32| c < n && c != b ==> bit(s, c) == bit(t, c),
    ensures
        count_below(s, n) == count_below(t, n) + 1,
        total_below(s, n) == total_below(t, n) + b + 1,
    decreases n,
{
    if n - 1 == b {
        lemma_agree_below(s, t, b);
    } else {
        lemma_agree_except(s, t, b, (n - 1) as u32);
        assert(bit(s, (n - 1) as u32) == bit(t, (n - 1) as u32));
    }
}

/// A mask holding the value `b + 1` below `n` has a total of at least `b + 1`.
pub proof fn lemma_total_ge_bit(s: u32, b: u32, n: u32)
    requires
        b < n,
        bit(s, b),
    ensures
        total_below(s, n) >= b + 1,
        count_below(s, n) >= 1,
    decreases n,
{
    if n - 1 != b {
        lemma_total_ge_bit(s, b, (n - 1) as u32);
    }
}

/// A mask with no bit below `n` counted has none set there.
pub proof fn lemma_count_zero(s: u32, n: u32, c: u32)
    requires
        count_below(s, n) == 0,
        c < n,
    ensures
        !bit(s, c),
{
    if bit(s, c) {
        lemma_total_ge_bit(s, c, n);
    }
}

/// Every mask counts at most `n` bits below `n` and totals 0 when it counts none.
pub proof fn lemma_count_total_zero(s: u32, n: u32)
    ensures
        count_below(s, n) == 0 ==> total_below(s, n) == 0,
    decreases n,
{
    if n > 0 {
        lemma_count_total_zero(s, (n - 1) as u32);
    }
}

/// For a mask below 512 the bits from 9 on add nothing to the count.
pub proof fn lemma_count_small(x: u32, n: u32)
    requires
        x < 512,
        9 <= n <= 32,
    ensures
        count_below(x, n) == count_below(x, 9),
    decreases n,
{
    if n > 9 {
        lemma_count_small(x, (n - 1) as u32);
        lemma_small_high_bit(x, (n - 1) as u32);
    }
}

// ---------------------------------------------------------------------------
// The ascending sequence of values
// ---------------------------------------------------------------------------
/// The values below `n + 1` are strictly ascending, lie in `1..=n`, are held by `m`,
/// and there are as many as bits counted.
pub proof fn lemma_digits(m: u32, n: u32)
    ensures
        digits_below(m, n).len() == count_below(m, n),
        forall|i: int|
            0 <= i < digits_below(m, n).len() ==> 1 <= #[trigger] digits_below(m, n)[i] <= n,
        forall|i: int|
            0 <= i < digits_below(m, n).len() ==> bit(m, (#[trigger] digits_below(m, n)[i] - 1) as u32),
        forall|i: int, j: int|
            0 <= i < j < digits_below(m, n).len() ==> #[trigger] digits_below(m, n)[i]
                < #[trigger] digits_below(m, n)[j],
    decreases n,
{
    if n > 0 {
        lemma_digits(m, (n - 1) as u32);
    }
}

pub proof fn lemma_sum_push(s: Seq<int>, x: int)
    ensures
        seq_sum(s.push(x)) == seq_sum(s) + x,
{
    assert(s.push(x).drop_last() =~= s);
}

pub proof fn lemma_sum_take_next(s: Seq<int>, k: int)
    requires
        0 <= k < s.len(),
    ensures
        seq_sum(s.take(k + 1)) == seq_sum(s.take(k)) + s[k],
{
    assert(s.take(k + 1).drop_last() =~= s.take(k));
}

pub proof fn lemma_sum_prepend(x: int, s: Seq<int>)
    ensures
        seq_sum(seq![x] + s) == x + seq_sum(s),
    decreases s.len(),
{
    if s.len() > 0 {
        assert((seq![x] + s).drop_last() =~= seq![x] + s.drop_last());
        assert((seq![x] + s).last() == s.last());
        lemma_sum_prepend(x, s.drop_last());
    } else {
        assert(seq![x] + s =~= seq![x]);
        assert(seq![x].drop_last() =~= Seq::<int>::empty());
        assert(seq_sum(seq![x]) == seq_sum(Seq::<int>::empty()) + x);
    }
}

pub proof fn lemma_sum_skip_prev(s: Seq<int>, j: int)
    requires
        0 <= j < s.len(),
    ensures
        seq_sum(s.skip(j)) == s[j] + seq_sum(s.skip(j + 1)),
{
    assert(s.skip(j) =~= seq![s[j]] + s.skip(j + 1));
    lemma_sum_prepend(s[j], s.skip(j + 1));
}


/// A mask with no bit set below `n` counts and totals nothing there.
pub proof fn lemma_no_bits(s: u32, n: u32)
    requires
        forall|c: u32| c < n ==> !bit(s, c),
    ensures
        count_below(s, n) == 0,
        total_below(s, n) == 0,
    decreases n,
{
    if n > 0 {
        lemma_no_bits(s, (n - 1) as u32);
    }
}

/// A mask that counts some bit below `n` totals at least one there.
pub proof fn lemma_count_pos_total_pos(s: u32, n: u32)
    requires
        count_below(s, n) > 0,
    ensures
        total_below(s, n) > 0,
    decreases n,
{
    if n > 0 && !bit(s, (n - 1) as u32) {
        lemma_count_pos_total_pos(s, (n - 1) as u32);
    }
}

pub proof fn lemma_and_le(x: u32, y: u32)
    ensures
        x & y <= x,
{
    assert(x & y <= x) by (bit_vector);
}

/// The mask `a` with its nine value bits reversed: the value `k` becomes `10 - k`.
pub open spec fn rev9(a: u32) -> u32 {
    ((a >> 8u32) & 1u32) | (((a >> 7u32) & 1u32) << 1u32) | (((a >> 6u32) & 1u32) << 2u32) | (((
    a >> 5u32) & 1u32) << 3u32) | (((a >> 4u32) & 1u32) << 4u32) | (((a >> 3u32) & 1u32) << 5u32)
        | (((a >> 2u32) & 1u32) << 6u32) | (((a >> 1u32) & 1u32) << 7u32) | ((a & 1u32) << 8u32)
}

/// Reversing moves bit `c` to bit `8 - c`, keeps a mask below 512, and undoes itself.
pub proof fn lemma_rev9(a: u32, c: u32)
    requires
        c < 9,
    ensures
        bit(rev9(a), c) == bit(a, (8 - c) as u32),
        rev9(a) < 512,
        a < 512 ==> rev9(rev9(a)) == a,
{
    assert((((rev9(a) >> c) & 1u32) == 1u32) == (((a >> ((8 - c) as u32)) & 1u32) == 1u32))
        by (bit_vector)
        requires
            c < 9,
    ;
    assert(rev9(a) < 512) by (bit_vector);
    assert(a < 512 ==> rev9(rev9(a)) == a) by (bit_vector);
}

/// 1 for true, 0 for false.
pub open spec fn ind(b: bool) -> int {
    if b {
        1
    } else {
        0
    }
}

/// The count and total of a mask over the nine values, written out.
pub proof fn lemma_count9(s: u32)
    ensures
        count_below(s, 9) == ind(bit(s, 0)) + ind(bit(s, 1)) + ind(bit(s, 2)) + ind(bit(s, 3)) + ind(bit(s, 4)) + ind(bit(s, 5)) + ind(bit(s, 6)) + ind(bit(s, 7)) + ind(bit(s, 8)),
        total_below(s, 9) == 1 * ind(bit(s, 0)) + 2 * ind(bit(s, 1)) + 3 * ind(bit(s, 2)) + 4 * ind(bit(s, 3)) + 5 * ind(bit(s, 4)) + 6 * ind(bit(s, 5)) + 7 * ind(bit(s, 6)) + 8 * ind(bit(s, 7)) + 9 * ind(bit(s, 8)),
{
    assert(count_below(s, 1) == count_below(s, 0) + ind(bit(s, 0)));
    assert(total_below(s, 1) == total_below(s, 0) + 1 * ind(bit(s, 0)));
    assert(count_below(s, 2) == count_below(s, 1) + ind(bit(s, 1)));
    assert(total_below(s, 2) == total_below(s, 1) + 2 * ind(bit(s, 1)));
    assert(count_below(s, 3) == count_below(s, 2) + ind(bit(s, 2)));
    assert(total_below(s, 3) == total_below(s, 2) + 3 * ind(bit(s, 2)));
    assert(count_below(s, 4) == count_below(s, 3) + ind(bit(s, 3)));
    assert(total_below(s, 4) == total_below(s, 3) + 4 * ind(bit(s, 3)));
    assert(count_below(s, 5) == count_below(s, 4) + ind(bit(s, 4)));
    assert(total_below(s, 5) == total_below(s, 4) + 5 * ind(bit(s, 4)));
    assert(count_below(s, 6) == count_below(s, 5) + ind(bit(s, 5)));
    assert(total_below(s, 6) == total_below(s, 5) + 6 * ind(bit(s, 5)));
    assert(count_below(s, 7) == count_below(s, 6) + ind(bit(s, 6)));
    assert(total_below(s, 7) == total_below(s, 6) + 7 * ind(bit(s, 6)));
    assert(count_below(s, 8) == count_below(s, 7) + ind(bit(s, 7)));
    assert(total_below(s, 8) == total_below(s, 7) + 8 * ind(bit(s, 7)));
    assert(count_below(s, 9) == count_below(s, 8) + ind(bit(s, 8)));
    assert(total_below(s, 9) == total_below(s, 8) + 9 * ind(bit(s, 8)));
}

/// A mask whose bits are those of `s` reversed has as many values, summing to ten for
/// each value less the total of `s`.
pub proof fn lemma_reversed_counts(s: u32, t: u32)
    requires
        forall|c: u32| c < 9 ==> bit(t, c) == bit(s, (8 - c) as u32),
    ensures
        count_below(t, 9) == count_below(s, 9),
        total_below(t, 9) == 10 * count_below(s, 9) - total_below(s, 9),
{
    lemma_count9(s);
    lemma_count9(t);
    assert(bit(t, 0) == bit(s, 8));
    assert(bit(t, 1) == bit(s, 7));
    assert(bit(t, 2) == bit(s, 6));
    assert(bit(t, 3) == bit(s, 5));
    assert(bit(t, 4) == bit(s, 4));
    assert(bit(t, 5) == bit(s, 3));
    assert(bit(t, 6) == bit(s, 2));
    assert(bit(t, 7) == bit(s, 1));
    assert(bit(t, 8) == bit(s, 0));
}

} // verus!
