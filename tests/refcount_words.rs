use roc_refcount::helper::{build_decrement_helper, FreeAt};
use roc_refcount::refcount::{
    decrement_word, increment_word, is_big_and_non_empty, refcount_1, refcount_is_one_comparison,
    DecrementOutcome, REFCOUNT_MAX,
};

#[test]
fn refcount_one_is_the_most_negative_word() {
    assert_eq!(refcount_1(1), -128);
    assert_eq!(refcount_1(2), -32768);
    assert_eq!(refcount_1(4), -2147483648);
    assert_eq!(refcount_1(8), i64::MIN);
}

#[test]
fn refcount_is_one_only_at_the_most_negative_word() {
    assert!(refcount_is_one_comparison(8, i64::MIN));
    assert!(!refcount_is_one_comparison(8, i64::MIN + 1));
    assert!(!refcount_is_one_comparison(8, 0));
    assert!(refcount_is_one_comparison(4, -2147483648));
}

#[test]
fn increment_adds_to_the_count() {
    // count 1 plus 2 gives count 3
    assert_eq!(increment_word(i64::MIN, 2, 8), i64::MIN + 2);
    assert_eq!(increment_word(-128, 5, 1), -123);
}

#[test]
fn increment_wraps_in_the_word_width() {
    assert_eq!(increment_word(-1, 1, 1), 0);
    assert_eq!(increment_word(-2, 3, 1), 1);
    assert_eq!(increment_word(-1, 1, 8), 0);
}

#[test]
fn static_cell_is_never_incremented() {
    assert_eq!(increment_word(REFCOUNT_MAX as i64, 7, 8), 0);
    assert_eq!(increment_word(0, 1, 2), 0);
}

#[test]
fn decrement_at_count_one_frees() {
    assert_eq!(decrement_word(i64::MIN, 8), DecrementOutcome::Freed);
    assert_eq!(decrement_word(-128, 1), DecrementOutcome::Freed);
}

#[test]
fn decrement_above_one_stores_one_less() {
    assert_eq!(decrement_word(i64::MIN + 1, 8), DecrementOutcome::Stored(i64::MIN));
    assert_eq!(decrement_word(-5, 4), DecrementOutcome::Stored(-6));
}

#[test]
fn decrement_of_static_cell_does_nothing() {
    assert_eq!(decrement_word(0, 8), DecrementOutcome::Static);
    assert_eq!(decrement_word(0, 1), DecrementOutcome::Static);
}

#[test]
fn increment_then_decrements_restore_the_word() {
    let start = i64::MIN + 4;
    let mut w = increment_word(start, 3, 8);
    for _ in 0..3 {
        w = match decrement_word(w, 8) {
            DecrementOutcome::Stored(v) => v,
            other => panic!("unexpected {:?}", other),
        };
    }
    assert_eq!(w, start);
    let mut s = increment_word(0, 3, 8);
    for _ in 0..3 {
        if let DecrementOutcome::Stored(v) = decrement_word(s, 8) {
            s = v;
        }
    }
    assert_eq!(s, 0);
}

#[test]
fn counts_stay_valid_across_operations() {
    let mut w = refcount_1(2);
    w = increment_word(w, 100, 2);
    assert!(w < 0);
    for _ in 0..100 {
        match decrement_word(w, 2) {
            DecrementOutcome::Stored(v) => {
                assert!(v < 0);
                w = v;
            }
            other => panic!("unexpected {:?}", other),
        }
    }
    assert_eq!(decrement_word(w, 2), DecrementOutcome::Freed);
}

#[test]
fn small_strings_have_no_cell() {
    // "hi" stored inline: the length word has its high bit set
    let small_len: u64 = 0x8000_0000_0000_0000 | 2;
    assert!(!is_big_and_non_empty(small_len, 8));
    assert!(!is_big_and_non_empty(0, 8));
    assert!(is_big_and_non_empty(2, 8));
    assert!(!is_big_and_non_empty(0x80 | 2, 1));
    assert!(is_big_and_non_empty(0x7f, 1));
}

#[test]
fn decrement_helper_frees_by_alignment() {
    assert_eq!(build_decrement_helper(8, 8, false).free_at, FreeAt::RefcountWord);
    assert_eq!(build_decrement_helper(16, 8, false).free_at, FreeAt::WordBefore);
    assert_eq!(build_decrement_helper(8, 8, true).free_at, FreeAt::Nothing);
    assert_eq!(build_decrement_helper(4, 4, false).alignment, 4);
}
