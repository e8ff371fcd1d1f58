use cipher_search::substitution::{
    generate_shifted_alphabets, monoalphabetic_substitution, polyalphabetic_substitution,
};
use cipher_search::transposition::{columnar_transposition, route_transposition};

fn sorted_chars(s: &str) -> Vec<char> {
    let mut v: Vec<char> = s.chars().collect();
    v.sort_unstable();
    v
}

#[test]
fn monoalphabetic_falls_back_to_identity_after_the_key() {
    assert_eq!(monoalphabetic_substitution("ABCDE", "XY", "ABCDE"), "XYCDE");
    assert_eq!(monoalphabetic_substitution("EDCBA", "XY", "ABCDE"), "EDCYX");
}

#[test]
fn monoalphabetic_keeps_symbols_outside_the_alphabet() {
    assert_eq!(monoalphabetic_substitution("A-B! c", "XY", "ABCDE"), "X-Y! c");
}

#[test]
fn monoalphabetic_uses_the_last_occurrence_of_a_symbol() {
    assert_eq!(monoalphabetic_substitution("AB", "XYZ", "ABA"), "ZY");
    assert_eq!(monoalphabetic_substitution("AB", "XY", "ABA"), "AY");
}

#[test]
fn polyalphabetic_shifts_by_key_positions() {
    assert_eq!(polyalphabetic_substitution("ABC", "B", "ABCDE"), "BCD");
    assert_eq!(polyalphabetic_substitution("E", "B", "ABCDE"), "A");
    assert_eq!(polyalphabetic_substitution("AAAA", "AB", "ABCDE"), "ABAB");
}

#[test]
fn polyalphabetic_passes_other_symbols_and_still_advances_the_key() {
    assert_eq!(polyalphabetic_substitution("A A", "BC", "ABCDE"), "B B");
    assert_eq!(polyalphabetic_substitution("AZ", "B", "ABCDE"), "BZ");
}

#[test]
fn polyalphabetic_with_no_usable_key_is_identity() {
    assert_eq!(polyalphabetic_substitution("ABC", "", "ABCDE"), "ABC");
    assert_eq!(polyalphabetic_substitution("ABC", "Q", "ABCDE"), "ABC");
}

#[test]
fn shifted_alphabets_one_row_per_shift() {
    assert_eq!(generate_shifted_alphabets("B", "ABC"), vec!["BCA", "BCA", "BCA"]);
    assert_eq!(generate_shifted_alphabets("AB", "ABC"), vec!["ACC", "BBA", "ACC"]);
    assert!(generate_shifted_alphabets("AB", "").is_empty());
    assert_eq!(generate_shifted_alphabets("", "AB"), vec!["AB", "AB"]);
}

#[test]
fn columnar_reads_columns_in_key_order() {
    assert_eq!(columnar_transposition("ABCDEF", "BA"), "BDFACE");
    assert_eq!(columnar_transposition("ABCDEF", "AA"), "ACEBDF");
    assert_eq!(columnar_transposition("ABCDE", "CAB"), "BECAD");
    assert_eq!(columnar_transposition("AB", "ZYXW"), "BA");
    assert_eq!(columnar_transposition("ABCDE", ""), "ABCDE");
}

#[test]
fn route_reads_alternate_columns_down_and_up() {
    assert_eq!(route_transposition("ABCDEFG", "XYZ"), "ADGEBCF");
    assert_eq!(route_transposition("ABCDEF", "K"), "ABCDEF");
    assert_eq!(route_transposition("ABCD", ""), "ABCD");
}

#[test]
fn every_transform_preserves_length_and_sets_every_position() {
    let base = "THEQUICKBROWNFOXJUMPSOVERTHELAZYDOG";
    let keys = ["", "K", "KR", "KRY", "KRYPTOS", "ZZZZ", "ABCDEFGHIJKLMNOPQRSTUVWXYZAB"];
    for n in 0..base.len() {
        let text = &base[..n];
        for key in keys {
            let c = columnar_transposition(text, key);
            let r = route_transposition(text, key);
            assert_eq!(c.chars().count(), n);
            assert_eq!(r.chars().count(), n);
            assert_eq!(sorted_chars(&c), sorted_chars(text));
            assert_eq!(sorted_chars(&r), sorted_chars(text));
            let m = monoalphabetic_substitution(text, key, "ABCDEFGHIJKLMNOPQRSTUVWXYZ");
            let p = polyalphabetic_substitution(text, key, "ABCDEFGHIJKLMNOPQRSTUVWXYZ");
            assert_eq!(m.chars().count(), n);
            assert_eq!(p.chars().count(), n);
        }
    }
}
