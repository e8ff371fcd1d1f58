//! The search coordinator's own logic: evaluating one shard of the search
//! space into a local tracker, building the substituted alphabets that make
//! up the shards, and deciding when progress is due. Running shards in
//! parallel and merging their trackers under a lock is left to the caller.

use vstd::prelude::*;
use crate::candidate::Candidate;
use crate::scoring::{score_chars, text_score};
use crate::substitution::{poly_chars, poly_spec};
use crate::text::{chars_of, string_of};
use crate::tracker::{Tracker, after_insert, insert_all};

verus! {

/// Provenance tag: no transposition was applied.
pub const NO_TRANSPOSITION: usize = 0;

/// Provenance tag: the polyalphabetic substitution was applied.
pub const POLYALPHABETIC: usize = 1;

/// `c` is what evaluating `key` against `ciphertext` under alphabet number
/// `alphabet_index`, `alphabet`, yields: the polyalphabetic decryption,
/// its score, and its provenance.
pub open spec fn is_evaluation(
    c: Candidate,
    ciphertext: Seq<char>,
    key: Seq<char>,
    alphabet: Seq<char>,
    alphabet_index: usize,
) -> bool {
    &&& c.plaintext@ == poly_spec(ciphertext, key, alphabet)
    &&& c.score == text_score(c.plaintext@)
    &&& c.transposition == NO_TRANSPOSITION
    &&& c.substitution == POLYALPHABETIC
    &&& c.alphabet_index == alphabet_index
    &&& c.keyword@ == key
    &&& c.alphabet@ == alphabet
}

/// Evaluates every key of a shard against `ciphertext` under one alphabet,
/// and keeps the best `capacity` candidates in a tracker of its own. The
/// tracker holds what offering the evaluations, in key order, to an empty
/// tracker of that capacity leaves.
pub fn evaluate_shard(
    ciphertext: &str,
    keys: &Vec<String>,
    alphabet: &str,
    alphabet_index: usize,
    capacity: usize,
) -> (r: Tracker)
    ensures
        r.cap() == capacity,
        r.valid(),
        exists|stream: Seq<Candidate>|
            #![trigger insert_all(Seq::empty(), capacity as nat, stream)]
            stream.len() == keys.len() && (forall|i: int|
                0 <= i < keys.len() ==> #[trigger] is_evaluation(
                    stream[i],
                    ciphertext@,
                    keys[i]@,
                    alphabet@,
                    alphabet_index,
                )) && r@ == insert_all(Seq::empty(), capacity as nat, stream),
{
    let text = chars_of(ciphertext);
    let a = chars_of(alphabet);
    let mut tracker = Tracker::new(capacity);
    let ghost mut stream: Seq<Candidate> = Seq::empty();
    for i in 0..keys.len()
        invariant
            text@ == ciphertext@,
            a@ == alphabet@,
            stream.len() == i,
            forall|j: int|
                0 <= j < i ==> #[trigger] is_evaluation(
                    stream[j],
                    ciphertext@,
                    keys[j]@,
                    alphabet@,
                    alphabet_index,
                ),
            tracker@ == insert_all(Seq::empty(), capacity as nat, stream),
            tracker.cap() == capacity,
            tracker.valid(),
    {
        let key = chars_of(keys[i].as_str());
        let plain = poly_chars(&text, &key, &a);
        let score = score_chars(&plain);
        let c = Candidate::new(
            score,
            string_of(&plain),
            NO_TRANSPOSITION,
            POLYALPHABETIC,
            alphabet_index,
            keys[i].clone(),
            string_of(&a),
        );
        proof {
            let s2 = stream.push(c);
            assert(s2.drop_last() =~= stream);
            assert(after_insert(tracker@, capacity as nat, c) == insert_all(
                Seq::empty(),
                capacity as nat,
                s2,
            ));
            stream = s2;
        }
        tracker.insert(c);
    }
    tracker
}


/// Every substituted alphabet that seeds a shard: for each base alphabet,
/// and each key in turn, the base alphabet enciphered polyalphabetically
/// under the key, with the base alphabet itself as the alphabet. Entry
/// `i * keys.len() + j` comes from base `i` and key `j`.
pub fn substituted_alphabets(bases: &Vec<String>, keys: &Vec<String>) -> (r: Vec<String>)
    ensures
        r.len() == bases.len() * keys.len(),
        forall|i: int, j: int|
            0 <= i < bases.len() && 0 <= j < keys.len() ==> #[trigger] r[i * keys.len() + j]@
                == poly_spec(bases[i]@, keys[j]@, bases[i]@),
{
    let nk = keys.len();
    let mut r: Vec<String> = Vec::new();
    proof {
        assert(0 * nk == 0);
    }
    for i in 0..bases.len()
        invariant
            nk == keys.len(),
            r.len() == i * nk,
            forall|x: int, y: int|
                0 <= x < i && 0 <= y < nk ==> #[trigger] r[x * nk + y]@ == poly_spec(
                    bases[x]@,
                    keys[y]@,
                    bases[x]@,
                ),
    {
        let base = chars_of(bases[i].as_str());
        for j in 0..nk
            invariant
                nk == keys.len(),
                i < bases.len(),
                base@ == bases[i as int]@,
                r.len() == i * nk + j,
                forall|x: int, y: int|
                    (0 <= x < i && 0 <= y < nk) || (x == i && 0 <= y < j) ==> #[trigger] r[x * nk
                        + y]@ == poly_spec(bases[x]@, keys[y]@, bases[x]@),
        {
            let key = chars_of(keys[j].as_str());
            let out = poly_chars(&base, &key, &base);
            let ghost before = r@;
            r.push(string_of(&out));
            proof {
                assert forall|x: int, y: int|
                    (0 <= x < i && 0 <= y < nk) || (x == i && 0 <= y < j + 1) implies #[trigger] r[x
                        * nk + y]@ == poly_spec(bases[x]@, keys[y]@, bases[x]@) by {
                    if x < i {
                        assert(x * nk + y < i * nk) by (nonlinear_arith)
                            requires
                                x < i,
                                y < nk,
                        ;
                        assert(r[x * nk + y] == before[x * nk + y]);
                    } else if y < j {
                        assert(r[x * nk + y] == before[x * nk + y]);
                    }
                }
            }
        }
        proof {
            assert(i * nk + nk == (i + 1) * nk) by (nonlinear_arith);
        }
    }
    r
}

/// How many evaluations lie between two progress reports: one hundredth of
/// the total, and at least 1, so that an empty search divides by nothing.
pub open spec fn interval_spec(total: nat) -> nat {
    if total < 100 {
        1
    } else {
        total / 100
    }
}

pub fn progress_interval(total: usize) -> (r: usize)
    ensures
        r == interval_spec(total as nat),
        r >= 1,
{
    if total < 100 {
        1
    } else {
        total / 100
    }
}

/// The percentage to report when the count of finished evaluations moves
/// from `before` to `after`, if that move crosses a multiple of the
/// progress interval; a search of no evaluations reports nothing.
pub open spec fn progress_spec(before: nat, after: nat, total: nat) -> Option<nat> {
    if total > 0 && after / interval_spec(total) > before / interval_spec(total) {
        Some((if after <= total {
            after
        } else {
            total
        }) * 100 / total)
    } else {
        None
    }
}

pub fn progress_percent(before: usize, after: usize, total: usize) -> (r: Option<usize>)
    ensures
        r matches Some(p) ==> progress_spec(before as nat, after as nat, total as nat) == Some(
            p as nat,
        ),
        r is None ==> progress_spec(before as nat, after as nat, total as nat) is None,
        r matches Some(p) ==> p <= 100,
{
    if total == 0 {
        return None;
    }
    let step = progress_interval(total);
    if after / step > before / step {
        let done: usize = if after <= total {
            after
        } else {
            total
        };
        let pct = (done as u128) * 100 / (total as u128);
        proof {
            assert(pct <= 100) by (nonlinear_arith)
                requires
                    pct == (done as int) * 100 / (total as int),
                    done <= total,
                    total > 0,
            {
                vstd::arithmetic::div_mod::lemma_div_is_ordered(
                    (done as int) * 100,
                    (total as int) * 100,
                    total as int,
                );
                vstd::arithmetic::div_mod::lemma_div_by_multiple(100, total as int);
            }
        }
        Some(pct as usize)
    } else {
        None
    }
}

/// The number of evaluations in a search of `alphabets` alphabets and
/// `keys` keys, saturating at the largest `usize`.
pub fn evaluation_count(alphabets: usize, keys: usize) -> (r: usize)
    ensures
        r == (if alphabets * keys <= usize::MAX {
            alphabets * keys
        } else {
            usize::MAX as int
        }),
{
    proof {
        let a = alphabets as u128;
        let k = keys as u128;
        assert(a * k <= u128::MAX) by (nonlinear_arith)
            requires
                a <= usize::MAX,
                k <= usize::MAX,
                usize::MAX < 0x1_0000_0000_0000_0000,
        ;
    }
    let p = (alphabets as u128) * (keys as u128);
    if p > usize::MAX as u128 {
        usize::MAX
    } else {
        p as usize
    }
}

} // verus!
