use cipher_search::candidate::{Candidate, SCORE_ONE};
use cipher_search::tracker::{track_top_candidates, Tracker};

fn cand(score: u64, tag: &str) -> Candidate {
    Candidate::new(score, tag.to_string(), 0, 1, 0, tag.to_string(), String::new())
}

fn scores(v: &[Candidate]) -> Vec<u64> {
    v.iter().map(|c| c.score).collect()
}

fn hundredths(x: u64) -> u64 {
    x * SCORE_ONE / 100
}

fn permutations(items: &[u64]) -> Vec<Vec<u64>> {
    if items.len() <= 1 {
        return vec![items.to_vec()];
    }
    let mut out = Vec::new();
    for i in 0..items.len() {
        let mut rest = items.to_vec();
        let x = rest.remove(i);
        for mut p in permutations(&rest) {
            p.insert(0, x);
            out.push(p);
        }
    }
    out
}

#[test]
fn capacity_two_keeps_the_two_best_in_any_order() {
    let stream = [hundredths(50), hundredths(90), hundredths(30), hundredths(95)];
    let mut t = Tracker::new(2);
    for (i, s) in stream.iter().enumerate() {
        t.insert(cand(*s, &i.to_string()));
    }
    assert_eq!(scores(&t.snapshot()), vec![hundredths(95), hundredths(90)]);
    for p in permutations(&stream) {
        let mut t = Tracker::new(2);
        for s in &p {
            t.insert(cand(*s, "x"));
        }
        assert_eq!(scores(&t.snapshot()), vec![hundredths(95), hundredths(90)]);
    }
}

#[test]
fn insert_reports_acceptance() {
    let mut t = Tracker::new(2);
    assert!(t.insert(cand(50, "a")));
    assert!(t.insert(cand(90, "b")));
    assert!(!t.insert(cand(30, "c")));
    assert!(t.insert(cand(95, "d")));
    assert!(!t.insert(cand(90, "e")));
    assert_eq!(t.len(), 2);
    assert_eq!(t.capacity(), 2);
}

#[test]
fn bounded_retention_on_a_longer_stream() {
    let stream: Vec<u64> = (0..40u64).map(|i| (i * 37 + 11) % 23).collect();
    for cap in 0..8usize {
        let mut t = Tracker::new(cap);
        for (i, s) in stream.iter().enumerate() {
            t.insert(cand(*s, &i.to_string()));
        }
        let kept = scores(&t.snapshot());
        assert_eq!(kept.len(), cap.min(stream.len()));
        let mut sorted = stream.clone();
        sorted.sort_unstable_by(|a, b| b.cmp(a));
        assert_eq!(kept, sorted[..kept.len()].to_vec());
        let mut discarded = stream.clone();
        for k in &kept {
            let pos = discarded.iter().position(|d| d == k).unwrap();
            discarded.remove(pos);
        }
        for k in &kept {
            for d in &discarded {
                assert!(k >= d);
            }
        }
    }
}

#[test]
fn zero_capacity_discards_everything() {
    let mut t = Tracker::new(0);
    assert!(!t.insert(cand(SCORE_ONE, "a")));
    assert!(!t.insert(cand(0, "b")));
    assert!(t.snapshot().is_empty());
    assert!(t.is_empty());
    assert!(t.best().is_none());
}

#[test]
fn earliest_inserted_wins_ties() {
    let mut t = Tracker::new(2);
    t.insert(cand(5, "first"));
    t.insert(cand(5, "second"));
    assert!(!t.insert(cand(5, "third")));
    let snap = t.snapshot();
    assert_eq!(snap[0].plaintext, "first");
    assert_eq!(snap[1].plaintext, "second");
    assert!(t.insert(cand(6, "fourth")));
    let snap = t.snapshot();
    assert_eq!(snap[0].plaintext, "fourth");
    assert_eq!(snap[1].plaintext, "first");
}

#[test]
fn snapshot_is_sorted_and_leaves_the_tracker() {
    let mut t = Tracker::new(5);
    for (i, s) in [3u64, 9, 1, 9, 4].iter().enumerate() {
        t.insert(cand(*s, &i.to_string()));
    }
    let snap = t.snapshot();
    assert_eq!(scores(&snap), vec![9, 9, 4, 3, 1]);
    assert_eq!(snap[0].plaintext, "1");
    assert_eq!(snap[1].plaintext, "3");
    assert_eq!(t.len(), 5);
    assert_eq!(t.best().unwrap().score, 9);
    assert_eq!(scores(&t.into_sorted()), vec![9, 9, 4, 3, 1]);
}

#[test]
fn merge_is_commutative_on_scores() {
    let build = |xs: &[u64], tag: &str| {
        let mut t = Tracker::new(3);
        for s in xs {
            t.insert(cand(*s, tag));
        }
        t
    };
    let mut ab = build(&[7, 2, 9, 4], "a");
    ab.merge(&build(&[8, 1, 9], "b"));
    let mut ba = build(&[8, 1, 9], "b");
    ba.merge(&build(&[4, 9, 2, 7], "a"));
    assert_eq!(scores(&ab.snapshot()), vec![9, 9, 8]);
    assert_eq!(scores(&ab.snapshot()), scores(&ba.snapshot()));
}

#[test]
fn two_shards_merge_into_the_global_best_three() {
    let mut shard1 = Tracker::new(3);
    for s in [10u64, 20, 30] {
        shard1.insert(cand(hundredths(s), "one"));
    }
    let mut shard2 = Tracker::new(3);
    for s in [25u64, 40, 50] {
        shard2.insert(cand(hundredths(s), "two"));
    }
    let mut global = Tracker::new(3);
    global.merge(&shard1);
    global.merge(&shard2);
    assert_eq!(
        scores(&global.snapshot()),
        vec![hundredths(50), hundredths(40), hundredths(30)]
    );
}

#[test]
fn track_top_candidates_keeps_a_sorted_vector() {
    let mut v: Vec<Candidate> = Vec::new();
    for s in [4u64, 8, 6, 1, 9] {
        track_top_candidates(&mut v, cand(s, "v"), 3);
    }
    assert_eq!(scores(&v), vec![9, 8, 6]);
}
