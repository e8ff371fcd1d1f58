use cipher_search::alphabet_analysis::{
    common_word_score, contains_keyword, score_alphabet, score_substring,
};
use cipher_search::candidate::SCORE_ONE;
use cipher_search::scoring::score_text;

#[test]
fn empty_text_scores_zero() {
    assert_eq!(score_text(""), 0);
}

#[test]
fn score_is_the_mean_letter_weight() {
    assert_eq!(score_text("E"), 12_700_000);
    assert_eq!(score_text("EA"), 10_435_000);
    assert_eq!(score_text("E!"), 6_350_000);
    assert_eq!(score_text("ABC"), 4_150_000);
    assert_eq!(score_text("BCD"), 2_843_333);
    assert_eq!(score_text("ea"), score_text("EA"));
}

#[test]
fn score_is_repeatable() {
    let s = "OBKRUOXOGHULBSOLIFBBWFLRVQQPRNGKSSOTWTQSJQSSEKZZWATJKLUDIAWINFBNYPVTTMZFPK";
    let first = score_text(s);
    for _ in 0..5 {
        assert_eq!(score_text(s), first);
    }
    assert!(first <= 12_700_000);
}

#[test]
fn keyword_containment() {
    assert!(contains_keyword("KRYPTOSABC", "PTO"));
    assert!(contains_keyword("KRYPTOSABC", "KRY"));
    assert!(contains_keyword("KRYPTOSABC", "ABC"));
    assert!(!contains_keyword("KRYPTOSABC", "XYZ"));
    assert!(contains_keyword("KRYPTOSABC", ""));
    assert!(!contains_keyword("AB", "ABC"));
}

#[test]
fn substrings_are_upper_cased_before_lookup() {
    assert_eq!(score_substring("the"), SCORE_ONE);
    assert_eq!(score_substring("Kryptos"), SCORE_ONE);
    assert_eq!(score_substring("THEE"), 0);
    assert_eq!(common_word_score("THE"), SCORE_ONE);
    assert_eq!(common_word_score("the"), 0);
}

#[test]
fn alphabet_score_is_the_mean_window_score() {
    assert_eq!(score_alphabet("THE"), SCORE_ONE);
    assert_eq!(score_alphabet("AB"), 0);
    assert_eq!(score_alphabet(""), 0);
    assert_eq!(score_alphabet("XTHEX"), SCORE_ONE / 6);
    assert_eq!(score_alphabet("xthex"), SCORE_ONE / 6);
}
