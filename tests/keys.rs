use cipher_search::key_generation::{
    astronomical_key_generator, decimate_alphabet, generate_alphabets, generate_keywords,
    grid_key_from_cells, grid_key_generator, keyword_from_draws, select_keywords, BASE_ALPHABET,
};

#[test]
fn alphabets_cycle_the_base_alphabet() {
    assert_eq!(generate_alphabets(3, Some(5)), vec!["NGHIJ", "GHIJL", "HIJLM"]);
    let full = generate_alphabets(34, None);
    assert_eq!(full.len(), 34);
    assert_eq!(full[0], BASE_ALPHABET);
    assert_eq!(full[32], full[0]);
    assert_eq!(full[33], full[1]);
    assert_eq!(full[31], "LNGHIJLMNQUVWXZKRYPTOSABCDEFGHIJ");
    assert_eq!(generate_alphabets(1, Some(35))[0], format!("{}NGH", BASE_ALPHABET));
    assert!(generate_alphabets(0, Some(5)).is_empty());
}

#[test]
fn decimation_strides_by_keyword_length() {
    assert_eq!(decimate_alphabet("ABCDE", "XY", 6), "ACEBDA");
    assert_eq!(decimate_alphabet("ABCDE", "", 3), "AAA");
    assert_eq!(decimate_alphabet("", "XY", 3), "");
}

#[test]
fn astronomical_key_is_fixed() {
    assert_eq!(astronomical_key_generator(), "ASTRONOMICALDATAFORYOURKEY");
}

#[test]
fn grid_keys_spell_cells_from_a() {
    assert_eq!(grid_key_from_cells(&vec![0, 1, 30]), "AB_");
    let k = grid_key_generator();
    assert_eq!(k.chars().count(), 25);
    assert!(k.chars().all(|c| ('A'..='_').contains(&c)));
}

#[test]
fn random_keywords_draw_from_the_base_alphabet() {
    assert_eq!(keyword_from_draws(&vec![0, 1, 31]), "NGL");
    let ks = generate_keywords(4, 11);
    assert_eq!(ks.len(), 4);
    for k in &ks {
        assert_eq!(k.chars().count(), 11);
        assert!(k.chars().all(|c| BASE_ALPHABET.contains(c)));
    }
}

#[test]
fn word_list_keywords_match_length_and_are_upper_case() {
    let words: Vec<String> = ["apple", "Hello", "hi", "WORLD!", "zebra"]
        .iter()
        .map(|s| s.to_string())
        .collect();
    assert_eq!(select_keywords(&words, 5), vec!["APPLE", "HELLO", "ZEBRA"]);
    assert_eq!(select_keywords(&words, 6), vec!["WORLD!"]);
    assert!(select_keywords(&words, 9).is_empty());
}
