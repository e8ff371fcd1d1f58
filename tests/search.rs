use cipher_search::search::{
    evaluate_shard, evaluation_count, progress_interval, progress_percent, substituted_alphabets,
    NO_TRANSPOSITION, POLYALPHABETIC,
};
use cipher_search::tracker::Tracker;

#[test]
fn empty_search_reports_nothing_and_finds_nothing() {
    let total = evaluation_count(0, 5);
    assert_eq!(total, 0);
    assert_eq!(progress_interval(total), 1);
    assert_eq!(progress_percent(0, 0, total), None);
    assert_eq!(progress_percent(0, 3, total), None);
    let keys: Vec<String> = Vec::new();
    assert!(substituted_alphabets(&vec!["ABC".to_string()], &keys).is_empty());
    let shard = evaluate_shard("ABC", &keys, "ABCDE", 0, 250);
    let mut global = Tracker::new(250);
    global.merge(&shard);
    assert!(global.snapshot().is_empty());
}

#[test]
fn progress_interval_is_one_percent_and_at_least_one() {
    assert_eq!(progress_interval(0), 1);
    assert_eq!(progress_interval(99), 1);
    assert_eq!(progress_interval(100), 1);
    assert_eq!(progress_interval(1000), 10);
    assert_eq!(progress_interval(12345), 123);
}

#[test]
fn progress_is_due_when_a_boundary_is_crossed() {
    assert_eq!(progress_percent(9, 10, 1000), Some(1));
    assert_eq!(progress_percent(10, 15, 1000), None);
    assert_eq!(progress_percent(15, 25, 1000), Some(2));
    assert_eq!(progress_percent(0, 1000, 1000), Some(100));
    assert_eq!(progress_percent(0, 1, 50), Some(2));
    assert_eq!(progress_percent(40, 60, 50), Some(100));
}

#[test]
fn evaluation_count_saturates() {
    assert_eq!(evaluation_count(3, 4), 12);
    assert_eq!(evaluation_count(usize::MAX, 2), usize::MAX);
}

#[test]
fn shard_keeps_its_best_evaluations() {
    let keys = vec!["A".to_string(), "B".to_string()];
    let shard = evaluate_shard("ABC", &keys, "ABCDE", 7, 1);
    let snap = shard.snapshot();
    assert_eq!(snap.len(), 1);
    assert_eq!(snap[0].plaintext, "ABC");
    assert_eq!(snap[0].score, 4_150_000);
    assert_eq!(snap[0].keyword, "A");
    assert_eq!(snap[0].alphabet, "ABCDE");
    assert_eq!(snap[0].alphabet_index, 7);
    assert_eq!(snap[0].transposition, NO_TRANSPOSITION);
    assert_eq!(snap[0].substitution, POLYALPHABETIC);
    let both = evaluate_shard("ABC", &keys, "ABCDE", 7, 5).snapshot();
    assert_eq!(both.len(), 2);
    assert_eq!(both[1].plaintext, "BCD");
    assert_eq!(both[1].score, 2_843_333);
}

#[test]
fn substituted_alphabets_enumerate_bases_then_keys() {
    let bases = vec!["ABC".to_string(), "XYZ".to_string()];
    let keys = vec!["A".to_string(), "B".to_string()];
    assert_eq!(
        substituted_alphabets(&bases, &keys),
        vec!["ABC", "BCA", "XYZ", "XYZ"]
    );
    let keys = vec!["A".to_string(), "Y".to_string()];
    assert_eq!(
        substituted_alphabets(&bases, &keys),
        vec!["ABC", "ABC", "XYZ", "YZX"]
    );
}
