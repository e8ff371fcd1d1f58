//! How much of an alphabet reads as common words: every window of three to
//! six symbols is looked up, upper-cased, in a list of common words.

use vstd::prelude::*;
use crate::candidate::SCORE_ONE;
use crate::text::chars_of;

verus! {

/// The shortest window that is looked up.
pub const MIN_WINDOW: usize = 3;

/// The longest window that is looked up.
pub const MAX_WINDOW: usize = 6;

/// Whether `keyword` occurs in `alphabet` as a contiguous run of symbols.
pub open spec fn occurs_in(alphabet: Seq<char>, keyword: Seq<char>) -> bool {
    exists|i: int|
        0 <= i && i + keyword.len() <= alphabet.len() && #[trigger] alphabet.subrange(
            i,
            i + keyword.len(),
        ) == keyword
}

/// Whether `a[i..i + k.len()]` equals `k`, compared symbol by symbol.
fn matches_at(a: &Vec<char>, k: &Vec<char>, i: usize) -> (r: bool)
    requires
        i + k.len() <= a.len(),
    ensures
        r == (a@.subrange(i as int, i + k.len()) == k@),
{
    for j in 0..k.len()
        invariant
            i + k.len() <= a.len(),
            forall|m: int| 0 <= m < j ==> a@[i + m] == k@[m],
    {
        if a[i + j] != k[j] {
            proof {
                assert(a@.subrange(i as int, i + k.len())[j as int] != k@[j as int]);
            }
            return false;
        }
    }
    proof {
        assert(a@.subrange(i as int, i + k.len()) =~= k@);
    }
    true
}

pub fn contains_keyword(alphabet: &str, keyword: &str) -> (r: bool)
    ensures
        r == occurs_in(alphabet@, keyword@),
{
    let a = chars_of(alphabet);
    let k = chars_of(keyword);
    if k.len() > a.len() {
        return false;
    }
    let last = a.len() - k.len();
    let mut i: usize = 0;
    loop
        invariant
            a@ == alphabet@,
            k@ == keyword@,
            last == a.len() - k.len(),
            i <= last,
            forall|m: int| 0 <= m < i ==> #[trigger] a@.subrange(m, m + k.len()) != k@,
        decreases last - i,
    {
        if matches_at(&a, &k, i) {
            return true;
        }
        if i == last {
            return false;
        }
        i = i + 1;
    }
}

/// A name for what `str::to_uppercase` returns: the Unicode upper-case form
/// of a text, which depends on the text alone.
pub uninterp spec fn upper_of(s: Seq<char>) -> Seq<char>;

/// Relies on `str::to_uppercase`: the upper-case form of `s`.
#[verifier::external_body]
fn to_upper(s: &str) -> (r: String)
    ensures
        r@ == upper_of(s@),
{
    s.to_uppercase()
}

/// The common words, in upper case.
pub open spec fn common_words() -> Seq<Seq<char>> {
    seq![
        "THE"@, "AND"@, "THAT"@, "HAVE"@, "FOR"@, "NOT"@, "WITH"@, "YOU"@, "THIS"@, "BUT"@,
        "KRYPTOS"@, "ABSCICCA"@, "PALIMPSEST"@, "AGENTS"@, "BETWEEN"@, "CLOCK"@, "SHADOW"@,
        "FORTY"@, "IT"@, "IS"@, "BERLIN"@, "NORTH"@, "EAST"@, "SOUTH"@, "WEST"@, "FOLLOW"@,
        "LEFT"@, "HAND"@, "PATH"@, "NORTHEAST"@, "SOUTHEAST"@, "SOUTHWEST"@, "NORTHWEST"@,
        "RIGHT"@, "PARASYSTOLE"@, "LETHEAN"@, "AN"@,
    ]
}

/// `SCORE_ONE` for a common word, 0 for anything else.
pub open spec fn word_score(w: Seq<char>) -> u64 {
    if common_words().contains(w) {
        SCORE_ONE
    } else {
        0
    }
}

/// The score of a text that is already in upper case.
pub fn common_word_score(upper: &str) -> (r: u64)
    ensures
        r == word_score(upper@),
{
    let words: Vec<&str> = vec![
        "THE", "AND", "THAT", "HAVE", "FOR", "NOT", "WITH", "YOU", "THIS", "BUT",
        "KRYPTOS", "ABSCICCA", "PALIMPSEST", "AGENTS", "BETWEEN", "CLOCK", "SHADOW",
        "FORTY", "IT", "IS", "BERLIN", "NORTH", "EAST", "SOUTH", "WEST", "FOLLOW",
        "LEFT", "HAND", "PATH", "NORTHEAST", "SOUTHEAST", "SOUTHWEST", "NORTHWEST",
        "RIGHT", "PARASYSTOLE", "LETHEAN", "AN",
    ];
    proof {
        assert(words@.map_values(|w: &str| w@) =~= common_words());
    }
    let u = chars_of(upper);
    for i in 0..words.len()
        invariant
            u@ == upper@,
            words@.map_values(|w: &str| w@) == common_words(),
            forall|m: int| 0 <= m < i ==> common_words()[m] != u@,
    {
        let w = chars_of(words[i]);
        if w.len() == u.len() && matches_at(&u, &w, 0) {
            proof {
                assert(u@.subrange(0, u@.len() as int) =~= u@);
                assert(common_words()[i as int] == u@);
            }
            return SCORE_ONE;
        }
        proof {
            if w.len() == u.len() {
                assert(u@.subrange(0, u@.len() as int) =~= u@);
            }
        }
    }
    proof {
        if common_words().contains(u@) {
            let m = choose|m: int| 0 <= m < common_words().len() && common_words()[m] == u@;
            assert(common_words()[m] != u@);
        }
    }
    0
}

/// `SCORE_ONE` when `substring`, upper-cased, is a common word; 0 otherwise.
pub fn score_substring(substring: &str) -> (r: u64)
    ensures
        r == word_score(upper_of(substring@)),
{
    let u = to_upper(substring);
    common_word_score(u.as_str())
}


/// How many windows of `len` symbols a text of `n` symbols has.
pub open spec fn window_count(n: nat, len: nat) -> nat {
    if n >= len {
        (n - len + 1) as nat
    } else {
        0
    }
}

/// The summed scores of the windows of `len` symbols starting before `m`.
pub open spec fn window_total(a: Seq<char>, len: nat, m: nat) -> nat
    decreases m,
{
    if m == 0 {
        0
    } else {
        window_total(a, len, (m - 1) as nat) + word_score(
            upper_of(a.subrange(m - 1, m - 1 + len)),
        ) as nat
    }
}

/// The summed scores of all windows whose length is from `MIN_WINDOW` up to,
/// not including, `upto`.
pub open spec fn total_upto(a: Seq<char>, upto: nat) -> nat
    decreases upto,
{
    if upto <= MIN_WINDOW {
        0
    } else {
        let len = (upto - 1) as nat;
        total_upto(a, len) + window_total(a, len, window_count(a.len(), len))
    }
}

/// The number of windows whose length is from `MIN_WINDOW` up to, not
/// including, `upto`.
pub open spec fn count_upto(n: nat, upto: nat) -> nat
    decreases upto,
{
    if upto <= MIN_WINDOW {
        0
    } else {
        let len = (upto - 1) as nat;
        count_upto(n, len) + window_count(n, len)
    }
}

/// The mean window score of `a`, rounded down; 0 when it has no window.
pub open spec fn alphabet_score(a: Seq<char>) -> nat {
    let count = count_upto(a.len(), (MAX_WINDOW + 1) as nat);
    if count > 0 {
        total_upto(a, (MAX_WINDOW + 1) as nat) / count
    } else {
        0
    }
}

/// The mean score of the windows of three to six symbols of `alphabet`.
pub fn score_alphabet(alphabet: &str) -> (r: u64)
    ensures
        r == alphabet_score(alphabet@),
        r <= SCORE_ONE,
{
    let n = alphabet.unicode_len();
    let mut total: u128 = 0;
    let mut count: u128 = 0;
    for len in MIN_WINDOW..MAX_WINDOW + 1
        invariant
            n == alphabet@.len(),
            total == total_upto(alphabet@, len as nat),
            count == count_upto(n as nat, len as nat),
            total <= SCORE_ONE * count,
            count <= len * n,
    {
        if n >= len {
            let windows = n - len + 1;
            let ghost before = total;
            proof {
                assert(count + windows <= 7 * n) by (nonlinear_arith)
                    requires
                        count <= len * n,
                        len <= 6,
                        windows <= n,
                ;
            }
            for i in 0..windows
                invariant
                    n == alphabet@.len(),
                    len <= n,
                    windows == n - len + 1,
                    total == before + window_total(alphabet@, len as nat, i as nat),
                    window_total(alphabet@, len as nat, i as nat) <= SCORE_ONE * i,
                    before <= SCORE_ONE * count,
                    count <= len * n,
                    len <= MAX_WINDOW,
                    count + windows <= 7 * n,
                    n <= usize::MAX,
            {
                let sub = alphabet.substring_char(i, i + len);
                let s = score_substring(sub);
                assert(s <= SCORE_ONE);
                assert(total + s <= SCORE_ONE * (count + windows));
                total = total + s as u128;
            }
            count = count + windows as u128;
            proof {
                assert(count <= (len + 1) * n) by (nonlinear_arith)
                    requires
                        count <= len * n + (n - len + 1),
                        len >= 1,
                ;
            }
        } else {
            proof {
                assert(count <= (len + 1) * n) by (nonlinear_arith)
                    requires
                        count <= len * n,
                ;
            }
        }
    }
    if count > 0 {
        proof {
            assert(total / count <= SCORE_ONE) by (nonlinear_arith)
                requires
                    total <= SCORE_ONE * count,
                    count > 0,
            {
                vstd::arithmetic::div_mod::lemma_div_is_ordered(
                    total as int,
                    SCORE_ONE * count,
                    count as int,
                );
                vstd::arithmetic::div_mod::lemma_div_by_multiple(SCORE_ONE as int, count as int);
            }
        }
        (total / count) as u64
    } else {
        0
    }
}

} // verus!
