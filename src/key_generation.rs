//! Alphabets and keys for the search: cycled and decimated alphabets,
//! random and fixed keys, and keywords taken from a word list.

use vstd::prelude::*;
use rand::Rng;
use crate::text::{chars_of, string_of};

verus! {

/// The symbol domain: the alphabet every generated alphabet and random key
/// is drawn from.
pub const BASE_ALPHABET: &'static str = "NGHIJLMNQUVWXZKRYPTOSABCDEFGHIJL";

/// The number of symbols in `BASE_ALPHABET`.
pub const BASE_LEN: usize = 32;

/// The width and height of the square grid behind a grid key.
pub const GRID_SIZE: usize = 5;

/// Grid cells take values below this bound.
pub const GRID_CELL_BOUND: usize = 31;

pub open spec fn base_spec() -> Seq<char> {
    BASE_ALPHABET@
}

proof fn lemma_base_len()
    ensures
        base_spec().len() == BASE_LEN,
{
    reveal_strlit("NGHIJLMNQUVWXZKRYPTOSABCDEFGHIJL");
}

/// Relies on `rand::thread_rng` and `Rng::gen_range`: a value drawn from
/// `0..bound`. `gen_range` panics on an empty range, hence `bound > 0`.
#[verifier::external_body]
fn draw_below(bound: usize) -> (r: usize)
    requires
        bound > 0,
    ensures
        r < bound,
{
    rand::thread_rng().gen_range(0..bound)
}

/// Alphabet `i` of a cycled run: the base alphabet, cycled without end,
/// from position `i` on, `len` symbols long.
pub open spec fn cycled_alphabet(i: int, len: nat) -> Seq<char> {
    Seq::new(len, |j: int| base_spec()[(i + j) % (BASE_LEN as int)])
}

/// `n` alphabets, the `i`-th the base alphabet cycled from position `i`;
/// each is `length` symbols long, or as long as the base alphabet.
pub fn generate_alphabets(n: usize, length: Option<usize>) -> (r: Vec<String>)
    ensures
        r.len() == n,
        forall|i: int|
            0 <= i < n ==> #[trigger] r[i]@ == cycled_alphabet(
                i,
                (match length {
                    Some(l) => l,
                    None => BASE_LEN,
                }) as nat,
            ),
{
    proof {
        lemma_base_len();
    }
    let base = chars_of(BASE_ALPHABET);
    let len = match length {
        Some(l) => l,
        None => BASE_LEN,
    };
    let mut r: Vec<String> = Vec::new();
    for i in 0..n
        invariant
            base@ == base_spec(),
            base.len() == BASE_LEN,
            r.len() == i,
            forall|m: int| 0 <= m < i ==> #[trigger] r[m]@ == cycled_alphabet(m, len as nat),
    {
        let start = i % BASE_LEN;
        let mut a: Vec<char> = Vec::new();
        for j in 0..len
            invariant
                base@ == base_spec(),
                base.len() == BASE_LEN,
                start == i % BASE_LEN,
                a@ == cycled_alphabet(i as int, len as nat).take(j as int),
        {
            let idx = (start + j % BASE_LEN) % BASE_LEN;
            proof {
                vstd::arithmetic::div_mod::lemma_add_mod_noop(i as int, j as int, BASE_LEN as int);
                vstd::arithmetic::div_mod::lemma_mod_twice(i as int, BASE_LEN as int);
                vstd::arithmetic::div_mod::lemma_mod_twice(j as int, BASE_LEN as int);
                assert(cycled_alphabet(i as int, len as nat).take(j + 1) =~= cycled_alphabet(
                    i as int,
                    len as nat,
                ).take(j as int).push(base@[idx as int]));
            }
            a.push(base[idx]);
        }
        proof {
            assert(cycled_alphabet(i as int, len as nat).take(len as int) =~= cycled_alphabet(
                i as int,
                len as nat,
            ));
        }
        r.push(string_of(&a));
    }
    r
}

/// The decimation of `alphabet` by `keyword`: symbol `i` is the alphabet
/// symbol at `(i * keyword length) % alphabet length`. An empty alphabet
/// has nothing to decimate and gives the empty string.
pub open spec fn decimated(alphabet: Seq<char>, keyword: Seq<char>, length: nat) -> Seq<char> {
    if alphabet.len() == 0 {
        Seq::empty()
    } else {
        Seq::new(length, |i: int| alphabet[(i * keyword.len()) % (alphabet.len() as int)])
    }
}

pub fn decimate_alphabet(alphabet: &str, keyword: &str, ciphertext_length: usize) -> (r: String)
    ensures
        r@ == decimated(alphabet@, keyword@, ciphertext_length as nat),
{
    let a = chars_of(alphabet);
    let klen = keyword.unicode_len();
    let mut out: Vec<char> = Vec::new();
    if a.len() == 0 {
        return string_of(&out);
    }
    let alen = a.len();
    for i in 0..ciphertext_length
        invariant
            a@ == alphabet@,
            alen == a.len(),
            alen > 0,
            klen == keyword@.len(),
            out@ == decimated(alphabet@, keyword@, ciphertext_length as nat).take(i as int),
    {
        proof {
            assert((i as u128) * (klen as u128) <= u128::MAX) by (nonlinear_arith)
                requires
                    i <= usize::MAX,
                    klen <= usize::MAX,
                    usize::MAX < 0x1_0000_0000_0000_0000,
            ;
        }
        let idx = ((i as u128) * (klen as u128) % (alen as u128)) as usize;
        proof {
            assert(decimated(alphabet@, keyword@, ciphertext_length as nat).take(i + 1)
                =~= decimated(alphabet@, keyword@, ciphertext_length as nat).take(i as int).push(
                a@[idx as int],
            ));
        }
        out.push(a[idx]);
    }
    proof {
        assert(decimated(alphabet@, keyword@, ciphertext_length as nat).take(
            ciphertext_length as int,
        ) =~= decimated(alphabet@, keyword@, ciphertext_length as nat));
    }
    string_of(&out)
}

/// The fixed key of the astronomical generator.
pub fn astronomical_key_generator() -> (r: String)
    ensures
        r@ == "ASTRONOMICALDATAFORYOURKEY"@,
{
    String::from_str("ASTRONOMICALDATAFORYOURKEY")
}

/// The key spelled by grid cells read row by row: each cell value `v`
/// becomes the character `'A' + v`.
pub fn grid_key_from_cells(cells: &Vec<usize>) -> (r: String)
    requires
        forall|i: int| 0 <= i < cells.len() ==> cells[i] < GRID_CELL_BOUND,
    ensures
        r@.len() == cells.len(),
        forall|i: int| 0 <= i < cells.len() ==> #[trigger] r@[i] as u32 == 'A' as u32 + cells[i],
{
    let mut out: Vec<char> = Vec::new();
    for i in 0..cells.len()
        invariant
            forall|m: int| 0 <= m < cells.len() ==> cells[m] < GRID_CELL_BOUND,
            out.len() == i,
            forall|m: int| 0 <= m < i ==> #[trigger] out@[m] as u32 == 'A' as u32 + cells[m],
    {
        let v = cells[i] as u8;
        out.push((v + 65) as char);
    }
    string_of(&out)
}

/// A random key from a `GRID_SIZE` by `GRID_SIZE` grid of cells drawn from
/// `0..GRID_CELL_BOUND`, read row by row.
pub fn grid_key_generator() -> (r: String)
    ensures
        r@.len() == GRID_SIZE * GRID_SIZE,
        forall|i: int|
            0 <= i < r@.len() ==> ('A' as u32) <= (#[trigger] r@[i] as u32) && (r@[i] as u32) < (
            'A' as u32) + GRID_CELL_BOUND,
{
    let mut cells: Vec<usize> = Vec::new();
    for i in 0..GRID_SIZE * GRID_SIZE
        invariant
            cells.len() == i,
            forall|m: int| 0 <= m < cells.len() ==> cells[m] < GRID_CELL_BOUND,
    {
        cells.push(draw_below(GRID_CELL_BOUND));
    }
    grid_key_from_cells(&cells)
}

/// The keyword spelled by positions of the base alphabet.
pub fn keyword_from_draws(draws: &Vec<usize>) -> (r: String)
    requires
        forall|i: int| 0 <= i < draws.len() ==> draws[i] < BASE_LEN,
    ensures
        r@ == draws@.map_values(|d: usize| base_spec()[d as int]),
{
    proof {
        lemma_base_len();
    }
    let base = chars_of(BASE_ALPHABET);
    let mut out: Vec<char> = Vec::new();
    for i in 0..draws.len()
        invariant
            base@ == base_spec(),
            base.len() == BASE_LEN,
            forall|m: int| 0 <= m < draws.len() ==> draws[m] < BASE_LEN,
            out@ == draws@.take(i as int).map_values(|d: usize| base_spec()[d as int]),
    {
        out.push(base[draws[i]]);
        proof {
            assert(draws@.take(i + 1).map_values(|d: usize| base_spec()[d as int]) =~= draws@.take(
                i as int,
            ).map_values(|d: usize| base_spec()[d as int]).push(base_spec()[draws[i as int] as int]));
        }
    }
    proof {
        assert(draws@.take(draws.len() as int) =~= draws@);
    }
    string_of(&out)
}

/// `n` random keys of `length` symbols, each symbol drawn uniformly from the
/// positions of the base alphabet.
pub fn generate_keywords(n: usize, length: usize) -> (r: Vec<String>)
    ensures
        r.len() == n,
        forall|i: int| 0 <= i < n ==> (#[trigger] r[i])@.len() == length,
        forall|i: int, j: int|
            0 <= i < n && 0 <= j < length ==> base_spec().contains(#[trigger] r[i]@[j]),
{
    proof {
        lemma_base_len();
    }
    let mut r: Vec<String> = Vec::new();
    for i in 0..n
        invariant
            base_spec().len() == BASE_LEN,
            r.len() == i,
            forall|m: int| 0 <= m < i ==> (#[trigger] r[m])@.len() == length,
            forall|m: int, j: int|
                0 <= m < i && 0 <= j < length ==> base_spec().contains(#[trigger] r[m]@[j]),
    {
        let mut draws: Vec<usize> = Vec::new();
        for j in 0..length
            invariant
                draws.len() == j,
                forall|m: int| 0 <= m < draws.len() ==> draws[m] < BASE_LEN,
        {
            draws.push(draw_below(BASE_LEN));
        }
        let k = keyword_from_draws(&draws);
        proof {
            assert forall|j: int| 0 <= j < length implies base_spec().contains(#[trigger] k@[j]) by {
                assert(k@[j] == base_spec()[draws[j] as int]);
            }
        }
        r.push(k);
    }
    r
}


/// `c` in upper case, for ASCII letters; any other character is kept.
pub open spec fn ascii_upper(c: char) -> char {
    if 'a' <= c && c <= 'z' {
        ((c as u32 - 32) as u8) as char
    } else {
        c
    }
}

pub open spec fn ascii_upper_all(s: Seq<char>) -> Seq<char> {
    s.map_values(|c: char| ascii_upper(c))
}

/// The words of exactly `length` characters, in upper case, in list order.
pub open spec fn keywords_of_length(words: Seq<Seq<char>>, length: nat) -> Seq<Seq<char>>
    decreases words.len(),
{
    if words.len() == 0 {
        Seq::empty()
    } else {
        let earlier = keywords_of_length(words.drop_last(), length);
        if words.last().len() == length {
            earlier.push(ascii_upper_all(words.last()))
        } else {
            earlier
        }
    }
}

pub open spec fn views(v: Seq<String>) -> Seq<Seq<char>> {
    v.map_values(|s: String| s@)
}

fn upper_char(c: char) -> (r: char)
    ensures
        r == ascii_upper(c),
{
    if 'a' <= c && c <= 'z' {
        ((c as u32 - 32) as u8) as char
    } else {
        c
    }
}

/// Keeps the words of a word list that are exactly `length` characters
/// long, normalised to upper case.
pub fn select_keywords(words: &Vec<String>, length: usize) -> (r: Vec<String>)
    ensures
        views(r@) == keywords_of_length(views(words@), length as nat),
{
    let mut r: Vec<String> = Vec::new();
    for i in 0..words.len()
        invariant
            views(r@) == keywords_of_length(views(words@.take(i as int)), length as nat),
    {
        proof {
            assert(views(words@.take(i + 1)).drop_last() =~= views(words@.take(i as int)));
        }
        let w = chars_of(words[i].as_str());
        if w.len() == length {
            let mut up: Vec<char> = Vec::new();
            for j in 0..w.len()
                invariant
                    up@ == ascii_upper_all(w@).take(j as int),
            {
                let u = upper_char(w[j]);
                proof {
                    assert(ascii_upper_all(w@).take(j + 1) =~= ascii_upper_all(w@).take(j as int).push(u));
                }
                up.push(u);
            }
            proof {
                assert(ascii_upper_all(w@).take(w.len() as int) =~= ascii_upper_all(w@));
            }
            let ghost before = r@;
            r.push(string_of(&up));
            proof {
                assert(views(r@) =~= views(before).push(ascii_upper_all(w@)));
            }
        }
    }
    proof {
        assert(words@.take(words.len() as int) =~= words@);
    }
    r
}

} // verus!
