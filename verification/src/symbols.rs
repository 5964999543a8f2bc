//! The dictionary: the symbols of the chemical elements.
//!
//! A symbol is one capital letter, or a capital letter and a small one. The tables
//! below hold the 118 symbols of the periodic table, hydrogen to oganesson.

use vstd::prelude::*;
use crate::text::chars_of;

verus! {

/// Whether the single letter `c` is the symbol of an element.
pub open spec fn one_letter_symbol(c: char) -> bool {
    c == 'B' || c == 'C' || c == 'F' || c == 'H' || c == 'I' || c == 'K' || c == 'N' || c == 'O'
        || c == 'P' || c == 'S' || c == 'U' || c == 'V' || c == 'W' || c == 'Y'
}

/// Whether the letters `first` and `second`, in this order, are the symbol of an element.
pub open spec fn two_letter_symbol(first: char, second: char) -> bool {
    match first {
        'A' => second == 'c' || second == 'g' || second == 'l' || second == 'm' || second == 'r'
            || second == 's' || second == 't' || second == 'u',
        'B' => second == 'a' || second == 'e' || second == 'h' || second == 'i' || second == 'k'
            || second == 'r',
        'C' => second == 'a' || second == 'd' || second == 'e' || second == 'f' || second == 'l'
            || second == 'm' || second == 'n' || second == 'o' || second == 'r' || second == 's'
            || second == 'u',
        'D' => second == 'b' || second == 's' || second == 'y',
        'E' => second == 'r' || second == 's' || second == 'u',
        'F' => second == 'e' || second == 'l' || second == 'm' || second == 'r',
        'G' => second == 'a' || second == 'd' || second == 'e',
        'H' => second == 'e' || second == 'f' || second == 'g' || second == 'o' || second == 's',
        'I' => second == 'n' || second == 'r',
        'K' => second == 'r',
        'L' => second == 'a' || second == 'i' || second == 'r' || second == 'u' || second == 'v',
        'M' => second == 'c' || second == 'd' || second == 'g' || second == 'n' || second == 'o'
            || second == 't',
        'N' => second == 'a' || second == 'b' || second == 'd' || second == 'e' || second == 'h'
            || second == 'i' || second == 'o' || second == 'p',
        'O' => second == 'g' || second == 's',
        'P' => second == 'a' || second == 'b' || second == 'd' || second == 'm' || second == 'o'
            || second == 'r' || second == 't' || second == 'u',
        'R' => second == 'a' || second == 'b' || second == 'e' || second == 'f' || second == 'g'
            || second == 'h' || second == 'n' || second == 'u',
        'S' => second == 'b' || second == 'c' || second == 'e' || second == 'g' || second == 'i'
            || second == 'm' || second == 'n' || second == 'r',
        'T' => second == 'a' || second == 'b' || second == 'c' || second == 'e' || second == 'h'
            || second == 'i' || second == 'l' || second == 'm' || second == 's',
        'X' => second == 'e',
        'Y' => second == 'b',
        'Z' => second == 'n' || second == 'r',
        _ => false,
    }
}

/// Whether `token` is in the dictionary: whether it is, letter for letter and case for
/// case, the symbol of an element.
pub open spec fn is_symbol(token: Seq<char>) -> bool {
    ||| token.len() == 1 && one_letter_symbol(token[0])
    ||| token.len() == 2 && two_letter_symbol(token[0], token[1])
}

/// Tells whether the single letter `c` is the symbol of an element.
pub fn is_one_letter_symbol(c: char) -> (found: bool)
    ensures
        found == one_letter_symbol(c),
{
    c == 'B' || c == 'C' || c == 'F' || c == 'H' || c == 'I' || c == 'K' || c == 'N' || c == 'O'
        || c == 'P' || c == 'S' || c == 'U' || c == 'V' || c == 'W' || c == 'Y'
}

/// Tells whether `first` followed by `second` is the symbol of an element.
pub fn is_two_letter_symbol(first: char, second: char) -> (found: bool)
    ensures
        found == two_letter_symbol(first, second),
{
    match first {
        'A' => second == 'c' || second == 'g' || second == 'l' || second == 'm' || second == 'r'
            || second == 's' || second == 't' || second == 'u',
        'B' => second == 'a' || second == 'e' || second == 'h' || second == 'i' || second == 'k'
            || second == 'r',
        'C' => second == 'a' || second == 'd' || second == 'e' || second == 'f' || second == 'l'
            || second == 'm' || second == 'n' || second == 'o' || second == 'r' || second == 's'
            || second == 'u',
        'D' => second == 'b' || second == 's' || second == 'y',
        'E' => second == 'r' || second == 's' || second == 'u',
        'F' => second == 'e' || second == 'l' || second == 'm' || second == 'r',
        'G' => second == 'a' || second == 'd' || second == 'e',
        'H' => second == 'e' || second == 'f' || second == 'g' || second == 'o' || second == 's',
        'I' => second == 'n' || second == 'r',
        'K' => second == 'r',
        'L' => second == 'a' || second == 'i' || second == 'r' || second == 'u' || second == 'v',
        'M' => second == 'c' || second == 'd' || second == 'g' || second == 'n' || second == 'o'
            || second == 't',
        'N' => second == 'a' || second == 'b' || second == 'd' || second == 'e' || second == 'h'
            || second == 'i' || second == 'o' || second == 'p',
        'O' => second == 'g' || second == 's',
        'P' => second == 'a' || second == 'b' || second == 'd' || second == 'm' || second == 'o'
            || second == 'r' || second == 't' || second == 'u',
        'R' => second == 'a' || second == 'b' || second == 'e' || second == 'f' || second == 'g'
            || second == 'h' || second == 'n' || second == 'u',
        'S' => second == 'b' || second == 'c' || second == 'e' || second == 'g' || second == 'i'
            || second == 'm' || second == 'n' || second == 'r',
        'T' => second == 'a' || second == 'b' || second == 'c' || second == 'e' || second == 'h'
            || second == 'i' || second == 'l' || second == 'm' || second == 's',
        'X' => second == 'e',
        'Y' => second == 'b',
        'Z' => second == 'n' || second == 'r',
        _ => false,
    }
}

/// Tells whether `candidate` is in the dictionary. The test is exact: `"He"` is a
/// symbol, `"he"` and `"HE"` are not.
pub fn contains(candidate: &str) -> (found: bool)
    ensures
        found == is_symbol(candidate@),
{
    let letters = chars_of(candidate);
    if letters.len() == 1 {
        is_one_letter_symbol(letters[0])
    } else if letters.len() == 2 {
        is_two_letter_symbol(letters[0], letters[1])
    } else {
        false
    }
}

/// A symbol has one or two letters, starts with a capital, and goes on, if it goes
/// on, with a small letter.
pub proof fn lemma_symbol_shape(token: Seq<char>)
    requires
        is_symbol(token),
    ensures
        1 <= token.len() <= 2,
        crate::text::is_upper(token[0]),
        token.len() == 2 ==> crate::text::is_lower(token[1]),
{
}

} // verus!
