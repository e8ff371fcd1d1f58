//! Substitution transforms over a configured alphabet. Symbols that are not
//! in the alphabet pass through unchanged.

use vstd::prelude::*;
use crate::text::{chars_of, string_of};

verus! {

/// Where `c` first occurs in `a`, if it does.
pub fn find_first(a: &Vec<char>, c: char) -> (r: Option<usize>)
    ensures
        r matches Some(i) ==> a@.index_of_first(c) == Some(i as int),
        r is None ==> a@.index_of_first(c) is None,
{
    proof {
        a@.index_of_first_ensures(c);
    }
    let mut i: usize = 0;
    while i < a.len()
        invariant
            i <= a.len(),
            forall|j: int| 0 <= j < i ==> a@[j] != c,
        decreases a.len() - i,
    {
        if a[i] == c {
            proof {
                a@.index_of_first_ensures(c);
                if let Some(k) = a@.index_of_first(c) {
                    assert(k == i);
                }
            }
            return Some(i);
        }
        i = i + 1;
    }
    proof {
        a@.index_of_first_ensures(c);
    }
    None
}

/// Where `c` last occurs in `a`, if it does.
pub fn find_last(a: &Vec<char>, c: char) -> (r: Option<usize>)
    ensures
        r matches Some(i) ==> a@.index_of_last(c) == Some(i as int),
        r is None ==> a@.index_of_last(c) is None,
{
    proof {
        a@.index_of_last_ensures(c);
    }
    let mut i: usize = a.len();
    while i > 0
        invariant
            i <= a.len(),
            forall|j: int| i <= j < a.len() ==> a@[j] != c,
        decreases i,
    {
        if a[i - 1] == c {
            proof {
                a@.index_of_last_ensures(c);
                if let Some(k) = a@.index_of_last(c) {
                    assert(k == i - 1);
                }
            }
            return Some(i - 1);
        }
        i = i - 1;
    }
    proof {
        a@.index_of_last_ensures(c);
    }
    None
}

/// The monoalphabetic image of `c`: the key symbol at the position where
/// `c` last occurs in the alphabet, or `c` itself when that position is
/// past the end of the key or `c` is not in the alphabet.
pub open spec fn mono_char(alphabet: Seq<char>, key: Seq<char>, c: char) -> char {
    match alphabet.index_of_last(c) {
        Some(j) => if j < key.len() {
            key[j]
        } else {
            c
        },
        None => c,
    }
}

pub open spec fn mono_spec(text: Seq<char>, key: Seq<char>, alphabet: Seq<char>) -> Seq<char> {
    text.map_values(|c: char| mono_char(alphabet, key, c))
}

/// Maps each alphabet symbol to the key symbol at its position; once the
/// key is exhausted the remaining symbols map to themselves.
pub fn monoalphabetic_substitution(text: &str, key: &str, alphabet: &str) -> (r: String)
    ensures
        r@ == mono_spec(text@, key@, alphabet@),
        r@.len() == text@.len(),
{
    let t = chars_of(text);
    let k = chars_of(key);
    let a = chars_of(alphabet);
    let mut out: Vec<char> = Vec::new();
    for i in 0..t.len()
        invariant
            t@ == text@,
            k@ == key@,
            a@ == alphabet@,
            out@ == mono_spec(t@, k@, a@).take(i as int),
    {
        let c = t[i];
        let m = match find_last(&a, c) {
            Some(j) => if j < k.len() {
                k[j]
            } else {
                c
            },
            None => c,
        };
        out.push(m);
        proof {
            assert(mono_spec(t@, k@, a@).take(i + 1) =~= mono_spec(t@, k@, a@).take(i as int).push(m));
        }
    }
    proof {
        assert(mono_spec(t@, k@, a@).take(t@.len() as int) =~= mono_spec(t@, k@, a@));
    }
    string_of(&out)
}

/// How far the key symbol for position `i` shifts: its first position in the
/// alphabet, with key symbols taken in turn. An empty key, or a key symbol
/// that is not in the alphabet, shifts by nothing.
pub open spec fn key_shift(alphabet: Seq<char>, key: Seq<char>, i: int) -> int {
    if key.len() == 0 {
        0
    } else {
        match alphabet.index_of_first(key[i % (key.len() as int)]) {
            Some(p) => p,
            None => 0,
        }
    }
}

/// The polyalphabetic image of `c` at position `i`: `c` moved forward in the
/// alphabet, cyclically, by the key shift for `i`.
pub open spec fn poly_char(alphabet: Seq<char>, key: Seq<char>, i: int, c: char) -> char {
    match alphabet.index_of_first(c) {
        Some(p) => alphabet[(p + key_shift(alphabet, key, i)) % (alphabet.len() as int)],
        None => c,
    }
}

pub open spec fn poly_spec(text: Seq<char>, key: Seq<char>, alphabet: Seq<char>) -> Seq<char> {
    text.map(|i: int, c: char| poly_char(alphabet, key, i, c))
}

/// The alphabet position of each key symbol, 0 for one not in the alphabet.
fn key_positions(key: &Vec<char>, alphabet: &Vec<char>) -> (r: Vec<usize>)
    ensures
        r.len() == key.len(),
        forall|j: int| 0 <= j < key.len() ==> r[j] == key_shift(alphabet@, key@, j),
        forall|j: int| 0 <= j < key.len() ==> r[j] < alphabet.len() || r[j] == 0,
{
    let mut r: Vec<usize> = Vec::new();
    for j in 0..key.len()
        invariant
            r.len() == j,
            forall|m: int| 0 <= m < j ==> r[m] == key_shift(alphabet@, key@, m),
            forall|m: int| 0 <= m < j ==> r[m] < alphabet.len() || r[m] == 0,
    {
        proof {
            alphabet@.index_of_first_ensures(key@[j as int]);
            vstd::arithmetic::div_mod::lemma_small_mod(j as nat, key@.len());
        }
        match find_first(alphabet, key[j]) {
            Some(p) => r.push(p),
            None => r.push(0),
        }
    }
    r
}

/// `(p + s) % n` for `p, s < n`, without overflow.
fn add_mod(p: usize, s: usize, n: usize) -> (r: usize)
    requires
        p < n,
        s < n,
    ensures
        r == (p + s) % (n as int),
        r < n,
{
    let room = n - p;
    if s >= room {
        proof {
            assert((p + s) % (n as int) == p + s - n) by (nonlinear_arith)
                requires
                    p < n,
                    s < n,
                    p + s >= n,
            {
                vstd::arithmetic::div_mod::lemma_fundamental_div_mod((p + s) as int, n as int);
            }
        }
        s - room
    } else {
        proof {
            vstd::arithmetic::div_mod::lemma_small_mod((p + s) as nat, n as nat);
        }
        p + s
    }
}

/// The polyalphabetic substitution on characters.
pub(crate) fn poly_chars(text: &Vec<char>, key: &Vec<char>, alphabet: &Vec<char>) -> (r: Vec<char>)
    ensures
        r@ == poly_spec(text@, key@, alphabet@),
{
    let shifts = key_positions(key, alphabet);
    let mut out: Vec<char> = Vec::new();
    for i in 0..text.len()
        invariant
            shifts.len() == key.len(),
            forall|j: int| 0 <= j < key.len() ==> shifts[j] == key_shift(alphabet@, key@, j),
            forall|j: int| 0 <= j < key.len() ==> shifts[j] < alphabet.len() || shifts[j] == 0,
            out@ == poly_spec(text@, key@, alphabet@).take(i as int),
    {
        let c = text[i];
        let m = match find_first(alphabet, c) {
            Some(p) => {
                let s: usize = if key.len() == 0 {
                    0
                } else {
                    shifts[i % key.len()]
                };
                proof {
                    alphabet@.index_of_first_ensures(c);
                    if key.len() > 0 {
                        let j = (i as int) % (key.len() as int);
                        assert(key_shift(alphabet@, key@, j) == key_shift(alphabet@, key@, i as int)) by {
                            vstd::arithmetic::div_mod::lemma_mod_twice(i as int, key.len() as int);
                        }
                    }
                }
                alphabet[add_mod(p, s, alphabet.len())]
            },
            None => c,
        };
        out.push(m);
        proof {
            assert(poly_spec(text@, key@, alphabet@).take(i + 1) =~= poly_spec(
                text@,
                key@,
                alphabet@,
            ).take(i as int).push(m));
        }
    }
    proof {
        assert(poly_spec(text@, key@, alphabet@).take(text@.len() as int) =~= poly_spec(
            text@,
            key@,
            alphabet@,
        ));
    }
    out
}

/// Shifts each symbol forward in the alphabet, cyclically, by the alphabet
/// position of the key symbol for its position, taking key symbols in turn.
pub fn polyalphabetic_substitution(text: &str, key: &str, alphabet: &str) -> (r: String)
    ensures
        r@ == poly_spec(text@, key@, alphabet@),
        r@.len() == text@.len(),
{
    let t = chars_of(text);
    let k = chars_of(key);
    let a = chars_of(alphabet);
    let out = poly_chars(&t, &k, &a);
    string_of(&out)
}


/// Symbol `i` of the alphabet shifted for row `shift`: the symbol moved
/// forward, cyclically, by the key shift for position `i + shift`.
pub open spec fn shifted_char(alphabet: Seq<char>, key: Seq<char>, shift: int, i: int) -> char {
    alphabet[(i + key_shift(alphabet, key, i + shift)) % (alphabet.len() as int)]
}

/// Row `shift` of the table of shifted alphabets.
pub open spec fn shifted_row(alphabet: Seq<char>, key: Seq<char>, shift: int) -> Seq<char> {
    Seq::new(alphabet.len(), |i: int| shifted_char(alphabet, key, shift, i))
}

/// One shifted alphabet for each shift `0..alphabet.len()`.
pub fn generate_shifted_alphabets(key: &str, alphabet: &str) -> (r: Vec<String>)
    ensures
        r.len() == alphabet@.len(),
        forall|shift: int| 0 <= shift < r.len() ==> #[trigger] r[shift]@ == shifted_row(alphabet@, key@, shift),
{
    let k = chars_of(key);
    let a = chars_of(alphabet);
    let shifts = key_positions(&k, &a);
    let n = a.len();
    let mut rows: Vec<String> = Vec::new();
    for shift in 0..n
        invariant
            k@ == key@,
            a@ == alphabet@,
            n == a.len(),
            shifts.len() == k.len(),
            forall|j: int| 0 <= j < k.len() ==> shifts[j] == key_shift(a@, k@, j),
            forall|j: int| 0 <= j < k.len() ==> shifts[j] < a.len() || shifts[j] == 0,
            rows.len() == shift,
            forall|m: int| 0 <= m < shift ==> #[trigger] rows[m]@ == shifted_row(a@, k@, m),
    {
        let mut row: Vec<char> = Vec::new();
        for i in 0..n
            invariant
                k@ == key@,
                a@ == alphabet@,
                n == a.len(),
                shift < n,
                shifts.len() == k.len(),
                forall|j: int| 0 <= j < k.len() ==> shifts[j] == key_shift(a@, k@, j),
                forall|j: int| 0 <= j < k.len() ==> shifts[j] < a.len() || shifts[j] == 0,
                row@ == shifted_row(a@, k@, shift as int).take(i as int),
        {
            let s: usize = if k.len() == 0 {
                0
            } else {
                let kl = k.len();
                let j = add_mod(i % kl, shift % kl, kl);
                proof {
                    vstd::arithmetic::div_mod::lemma_add_mod_noop(i as int, shift as int, kl as int);
                    vstd::arithmetic::div_mod::lemma_mod_twice((i + shift) as int, kl as int);
                }
                shifts[j]
            };
            let ch = a[add_mod(i, s, n)];
            row.push(ch);
            proof {
                assert(shifted_row(a@, k@, shift as int).take(i + 1) =~= shifted_row(
                    a@,
                    k@,
                    shift as int,
                ).take(i as int).push(ch));
            }
        }
        proof {
            assert(shifted_row(a@, k@, shift as int).take(n as int) =~= shifted_row(a@, k@, shift as int));
        }
        rows.push(string_of(&row));
    }
    rows
}

} // verus!
