use puzrs::kakuro::dictionary::{Dictionary, IMPOSSIBLE};
use puzrs::kakuro::{Cand, CAND_ALL, MAX_SUM, MAX_VAL};

#[test]
fn test_dictionary_default() {
    let dic = Dictionary::default();

    assert_eq!(dic.at(1, 0, CAND_ALL), IMPOSSIBLE);
    assert_eq!(dic.at(1, 1, CAND_ALL), (0b000000001, 0b000000001));
    assert_eq!(dic.at(1, 8, CAND_ALL), (0b010000000, 0b010000000));
    assert_eq!(dic.at(1, 9, CAND_ALL), (0b100000000, 0b100000000));
    assert_eq!(dic.at(1, 10, CAND_ALL), IMPOSSIBLE);
    assert_eq!(dic.at(2, 2, CAND_ALL), IMPOSSIBLE);
    assert_eq!(dic.at(2, 3, CAND_ALL), (0b000000011, 0b000000011));
    assert_eq!(dic.at(2, 4, CAND_ALL), (0b000000101, 0b000000101));
    assert_eq!(dic.at(2, 5, CAND_ALL), (0b000000000, 0b000001111));
    assert_eq!(dic.at(2, 16, CAND_ALL), (0b101000000, 0b101000000));
    assert_eq!(dic.at(2, 17, CAND_ALL), (0b110000000, 0b110000000));
    assert_eq!(dic.at(2, 18, CAND_ALL), IMPOSSIBLE);
    assert_eq!(dic.at(3, 7, CAND_ALL), (0b000001011, 0b000001011));
    assert_eq!(dic.at(3, 8, CAND_ALL), (0b000000001, 0b000011111));
    assert_eq!(dic.at(3, 24, CAND_ALL), (0b111000000, 0b111000000));
    assert_eq!(dic.at(4, 10, CAND_ALL), (0b000001111, 0b000001111));
    assert_eq!(dic.at(4, 12, CAND_ALL), (0b000000011, 0b000111111));
    assert_eq!(dic.at(9, 44, CAND_ALL), IMPOSSIBLE);
    assert_eq!(dic.at(9, 45, CAND_ALL), (0b111111111, 0b111111111));
}

#[test]
fn test_dictionary_limited_soundness() {
    let dic_default = Dictionary::default();
    let dic_limited = Dictionary::limited();

    for len in 0..(MAX_VAL + 1) {
        for sum in 1..(MAX_SUM + 1) {
            for vals in 0..(1 << MAX_VAL) {
                let (imperative, allowed) = dic_default.at(len, sum, vals);
                let (imperative_lim, allowed_lim) = dic_limited.at(len, sum, vals);

                if (imperative_lim, allowed_lim) == IMPOSSIBLE {
                    assert_eq!((imperative, allowed), IMPOSSIBLE);
                }
                assert_eq!(imperative & imperative_lim, imperative_lim);
                assert_eq!(allowed & allowed_lim, allowed);
            }
        }
    }
}

#[test]
fn imperative_and_allowed_read_the_entry() {
    let dic = Dictionary::default();
    for len in 0..(MAX_VAL + 1) {
        for sum in 0..(MAX_SUM + 1) {
            for vals in [0u32, 0b101, 0b110110, 0b111100000, CAND_ALL] {
                let (imp, alw) = dic.at(len, sum, vals);
                assert_eq!(dic.imperative(len, sum, vals), imp);
                assert_eq!(dic.allowed(len, sum, vals), alw);
            }
        }
    }
}

#[test]
fn default_respects_available_values() {
    let dic = Dictionary::default();
    // 3 cells summing to 8 without the value 1: {2, ...} cannot reach 8 with 3 cells
    // (2 + 3 + 4 = 9), so the run is unfillable.
    assert_eq!(dic.at(3, 8, CAND_ALL & !1), IMPOSSIBLE);
    // 2 cells summing to 10 from {1, 2, 3, 7, 8, 9}: {1, 9}, {2, 8}, {3, 7}.
    let avail: Cand = 0b111000111;
    assert_eq!(dic.at(2, 10, avail), (0, avail));
    // 2 cells summing to 10 from {1, 4, 9}: only {1, 9}.
    assert_eq!(dic.at(2, 10, 0b100001001), (0b100000001, 0b100000001));
    // The empty run with sum 0 is filled by nothing.
    assert_eq!(dic.at(0, 0, CAND_ALL), (0, 0));
    assert_eq!(dic.at(0, 5, CAND_ALL), IMPOSSIBLE);
}

#[test]
fn limited_entries() {
    let dic = Dictionary::limited();
    // Rejected: too few values, smallest sum too large, largest sum too small.
    assert_eq!(dic.at(3, 6, 0b11), IMPOSSIBLE);
    assert_eq!(dic.at(2, 2, CAND_ALL), IMPOSSIBLE);
    assert_eq!(dic.at(3, 25, CAND_ALL), IMPOSSIBLE);
    // Bounded above by the sum less the smallest values.
    assert_eq!(dic.at(2, 5, CAND_ALL), (0, 0b1111));
    // One to spare above: the second smallest value cannot appear.
    assert_eq!(dic.at(2, 4, CAND_ALL), (0, 0b101));
    // Bounded below, and one to spare below: 7 cannot appear.
    assert_eq!(dic.at(3, 23, CAND_ALL), (0, 0b110100000));
    // The empty run.
    assert_eq!(dic.at(0, 0, CAND_ALL), (0, 0));
    assert_eq!(dic.at(0, 3, CAND_ALL), IMPOSSIBLE);
    assert_eq!(dic.at(4, 0, CAND_ALL), IMPOSSIBLE);
}

#[test]
fn exact_entries_are_nested() {
    let dic = Dictionary::default();
    for len in 0..(MAX_VAL + 1) {
        for sum in 0..(MAX_SUM + 1) {
            for vals in 0..(CAND_ALL + 1) {
                let (imp, alw) = dic.at(len, sum, vals);
                if (imp, alw) != IMPOSSIBLE {
                    assert_eq!(imp & alw, imp);
                    assert_eq!(alw & vals, alw);
                }
            }
        }
    }
}

#[test]
fn at_reads_the_shifted_key() {
    let dic = Dictionary::default();
    // A mask past the nine values reaches into the next run's entries.
    assert_eq!(dic.at(0, 0, 512), dic.at(0, 1, 0));
    assert_eq!(dic.at(0, 0, 512), IMPOSSIBLE);
    assert_eq!(dic.at(1, 0, 512 + 1), (1, 1));
    // A sum past 45 reaches the next length.
    assert_eq!(dic.at(0, 46, CAND_ALL), dic.at(1, 0, CAND_ALL));
    assert_eq!(dic.imperative(2, 17, CAND_ALL), 0b110000000);
    assert_eq!(dic.allowed(3, 8, CAND_ALL), 0b000011111);
}

fn rev9(a: Cand) -> Cand {
    let mut r = 0;
    for b in 0..9 {
        if a & (1 << b) != 0 {
            r |= 1 << (8 - b);
        }
    }
    r
}

#[test]
fn exact_dictionary_is_symmetric_under_reversal() {
    let dic = Dictionary::default();
    // 2 cells summing to 4 from {1..9}: {1, 3}; reversed, 2 cells summing to 16: {7, 9}.
    assert_eq!(dic.at(2, 16, CAND_ALL), (rev9(0b101), rev9(0b101)));
    for len in 0..(MAX_VAL + 1) {
        for sum in 0..(MAX_SUM + 1) {
            let other = 10 * len - sum;
            if !(0..=MAX_SUM).contains(&other) {
                continue;
            }
            for vals in 0..(CAND_ALL + 1) {
                let (imp, alw) = dic.at(len, sum, vals);
                assert_eq!(dic.at(len, other, rev9(vals)), (rev9(imp), rev9(alw)));
            }
        }
    }
}
