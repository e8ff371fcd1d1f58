//! English-likeness of a text: the mean letter-frequency weight of its characters.

use vstd::prelude::*;

verus! {

/// The largest weight of any letter (that of `E`).
pub const MAX_LETTER_WEIGHT: u64 = 12_700_000;

/// The English letter frequency of `c`, in score units, case ignored;
/// anything that is not a Latin letter weighs nothing.
pub open spec fn letter_weight(c: char) -> u64 {
    match c {
        'A' | 'a' => 8_170_000,
        'B' | 'b' => 1_500_000,
        'C' | 'c' => 2_780_000,
        'D' | 'd' => 4_250_000,
        'E' | 'e' => 12_700_000,
        'F' | 'f' => 2_230_000,
        'G' | 'g' => 2_020_000,
        'H' | 'h' => 6_090_000,
        'I' | 'i' => 6_970_000,
        'J' | 'j' => 150_000,
        'K' | 'k' => 770_000,
        'L' | 'l' => 4_030_000,
        'M' | 'm' => 2_410_000,
        'N' | 'n' => 6_750_000,
        'O' | 'o' => 7_510_000,
        'P' | 'p' => 1_930_000,
        'Q' | 'q' => 100_000,
        'R' | 'r' => 5_990_000,
        'S' | 's' => 6_330_000,
        'T' | 't' => 9_060_000,
        'U' | 'u' => 2_760_000,
        'V' | 'v' => 980_000,
        'W' | 'w' => 2_360_000,
        'X' | 'x' => 150_000,
        'Y' | 'y' => 1_970_000,
        'Z' | 'z' => 70_000,
        _ => 0,
    }
}

/// The sum of the letter weights of `s`.
pub open spec fn weight_sum(s: Seq<char>) -> nat
    decreases s.len(),
{
    if s.len() == 0 {
        0
    } else {
        weight_sum(s.drop_last()) + letter_weight(s.last()) as nat
    }
}

/// The mean letter weight of `s`, rounded down; 0 for the empty text.
pub open spec fn text_score(s: Seq<char>) -> nat {
    if s.len() == 0 {
        0
    } else {
        weight_sum(s) / s.len()
    }
}

fn weight_of(c: char) -> (r: u64)
    ensures
        r == letter_weight(c),
        r <= MAX_LETTER_WEIGHT,
{
    match c {
        'A' | 'a' => 8_170_000,
        'B' | 'b' => 1_500_000,
        'C' | 'c' => 2_780_000,
        'D' | 'd' => 4_250_000,
        'E' | 'e' => 12_700_000,
        'F' | 'f' => 2_230_000,
        'G' | 'g' => 2_020_000,
        'H' | 'h' => 6_090_000,
        'I' | 'i' => 6_970_000,
        'J' | 'j' => 150_000,
        'K' | 'k' => 770_000,
        'L' | 'l' => 4_030_000,
        'M' | 'm' => 2_410_000,
        'N' | 'n' => 6_750_000,
        'O' | 'o' => 7_510_000,
        'P' | 'p' => 1_930_000,
        'Q' | 'q' => 100_000,
        'R' | 'r' => 5_990_000,
        'S' | 's' => 6_330_000,
        'T' | 't' => 9_060_000,
        'U' | 'u' => 2_760_000,
        'V' | 'v' => 980_000,
        'W' | 'w' => 2_360_000,
        'X' | 'x' => 150_000,
        'Y' | 'y' => 1_970_000,
        'Z' | 'z' => 70_000,
        _ => 0,
    }
}

/// The score of a text given as characters.
pub(crate) fn score_chars(s: &Vec<char>) -> (r: u64)
    ensures
        r == text_score(s@),
        r <= MAX_LETTER_WEIGHT,
{
    let mut sum: u128 = 0;
    for i in 0..s.len()
        invariant
            sum == weight_sum(s@.take(i as int)),
            sum <= MAX_LETTER_WEIGHT * i,
    {
        proof {
            assert(s@.take(i + 1).drop_last() =~= s@.take(i as int));
        }
        sum = sum + weight_of(s[i]) as u128;
    }
    proof {
        assert(s@.take(s@.len() as int) =~= s@);
    }
    if s.len() == 0 {
        0
    } else {
        let n = s.len() as u128;
        proof {
            assert(sum / n <= MAX_LETTER_WEIGHT) by (nonlinear_arith)
                requires
                    sum <= MAX_LETTER_WEIGHT * n,
                    n > 0,
            {
                vstd::arithmetic::div_mod::lemma_div_is_ordered(
                    sum as int,
                    MAX_LETTER_WEIGHT * n,
                    n as int,
                );
                vstd::arithmetic::div_mod::lemma_div_by_multiple(MAX_LETTER_WEIGHT as int, n as int);
            }
        }
        (sum / n) as u64
    }
}

/// The mean letter weight of `text`: the same text always gets the same
/// score, and the empty text scores 0.
pub fn score_text(text: &str) -> (r: u64)
    ensures
        r == text_score(text@),
        r <= MAX_LETTER_WEIGHT,
        text@.len() == 0 ==> r == 0,
{
    let s = crate::text::chars_of(text);
    score_chars(&s)
}

} // verus!
