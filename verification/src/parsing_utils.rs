//! The segmentation engine: every way to write a word as a row of element symbols.
//!
//! A word is cut into parts of one or two letters. A part stands for the token that
//! is the part with its first letter capitalised; a cut in which every token is in the
//! dictionary is a tiling of the word. A tiling is written down as its tokens with
//! single spaces between them.

use vstd::prelude::*;
use crate::symbols::{is_one_letter_symbol, is_symbol, is_two_letter_symbol, lemma_symbol_shape};
use crate::text::{
    chars_of,
    is_whitespace,
    string_of,
    to_upper,
    trim,
    trim_end,
    trim_range,
    trim_start,
    upper,
    uppercased,
    without_spaces,
};
use crate::tiling_laws::{lemma_segmentation_keeps_letters, lemma_tilings_sound};

verus! {

/// The token that a part of the word stands for: the part with its first letter as a
/// capital and the rest as it is.
pub open spec fn token_of(part: Seq<char>) -> Seq<char> {
    if part.len() == 0 {
        part
    } else {
        part.update(0, to_upper(part[0]))
    }
}

/// The tokens with one space between each two of them.
pub open spec fn joined(tokens: Seq<Seq<char>>) -> Seq<char>
    decreases tokens.len(),
{
    if tokens.len() == 0 {
        Seq::empty()
    } else if tokens.len() == 1 {
        tokens[0]
    } else {
        tokens[0] + seq![' '] + joined(tokens.drop_first())
    }
}

/// The tokens that the parts stand for, in the order of the parts.
pub open spec fn tokens_of(parts: Seq<Seq<char>>) -> Seq<Seq<char>> {
    Seq::new(parts.len(), |i: int| token_of(parts[i]))
}

/// How a cut of the word is written down: the tokens of its parts, joined by spaces.
pub open spec fn rendering(parts: Seq<Seq<char>>) -> Seq<char> {
    joined(tokens_of(parts))
}

/// Whether `parts` is a tiling of `word`: the parts, one after the other, are the
/// word, and the token of each part is in the dictionary.
pub open spec fn is_tiling(parts: Seq<Seq<char>>, word: Seq<char>) -> bool {
    &&& parts.flatten() == word
    &&& forall|i: int| 0 <= i < parts.len() ==> is_symbol(token_of(#[trigger] parts[i]))
}

/// Whether the first `n` letters of `word` make a token of the dictionary.
pub open spec fn fits(word: Seq<char>, n: int) -> bool {
    0 < n <= word.len() && is_symbol(token_of(word.take(n)))
}

/// Each of `tails` with `head` put in front as one more part.
pub open spec fn led_by(head: Seq<char>, tails: Seq<Seq<Seq<char>>>) -> Seq<Seq<Seq<char>>> {
    Seq::new(tails.len(), |i: int| seq![head] + tails[i])
}

/// The tilings of `word` in the order in which they are found: those that start with
/// a token of one letter before those that start with a token of two, and so again
/// for what follows the first token.
pub open spec fn tilings(word: Seq<char>) -> Seq<Seq<Seq<char>>>
    decreases word.len(),
{
    if word.len() == 0 {
        seq![Seq::empty()]
    } else {
        let short = if fits(word, 1) {
            led_by(word.take(1), tilings(word.skip(1)))
        } else {
            Seq::empty()
        };
        let long = if fits(word, 2) {
            led_by(word.take(2), tilings(word.skip(2)))
        } else {
            Seq::empty()
        };
        short + long
    }
}

/// Each of `cuts` written down, in the same order.
pub open spec fn renderings(cuts: Seq<Seq<Seq<char>>>) -> Seq<Seq<char>> {
    Seq::new(cuts.len(), |i: int| rendering(cuts[i]))
}

/// The tilings of `word`, each written down, in the order of `tilings`.
pub open spec fn segmentations(word: Seq<char>) -> Seq<Seq<char>> {
    renderings(tilings(word))
}

/// A token put before what is already written of the rest: the two with a space
/// between them, and what whitespace then stands at either end taken off.
pub open spec fn combined(start: Seq<char>, rest: Seq<char>) -> Seq<char> {
    trim(start + seq![' '] + rest)
}

/// `start` combined with each of `rests`.
pub open spec fn all_combined(start: Seq<char>, rests: Seq<Seq<char>>) -> Seq<Seq<char>> {
    Seq::new(rests.len(), |i: int| combined(start, rests[i]))
}

/// Puts `start` before each of `remaining`: for each of them the string `start`, a
/// space and that string, trimmed of whitespace at both ends.
pub fn process_possibilities(start: String, remaining: Vec<String>) -> (result: Vec<String>)
    ensures
        result.deep_view() == all_combined(start@, remaining.deep_view()),
{
    let head = chars_of(start.as_str());
    let mut result: Vec<String> = Vec::new();
    let mut i: usize = 0;
    while i < remaining.len()
        invariant
            i <= remaining.len(),
            head@ == start@,
            result.len() == i,
            forall|j: int| 0 <= j < i ==> (#[trigger] result[j])@ == combined(start@, remaining[j]@),
        decreases remaining.len() - i,
    {
        let mut line = head.clone();
        line.push(' ');
        let mut tail = chars_of(remaining[i].as_str());
        line.append(&mut tail);
        assert(line@ =~= start@ + seq![' '] + remaining[i as int]@);
        let (from, to) = trim_range(&line);
        result.push(string_of(&line, from, to));
        i += 1;
    }
    assert(result.deep_view() =~= all_combined(start@, remaining.deep_view()));
    result
}

/// Tokens of the dictionary, joined, begin and end with a letter.
proof fn lemma_joined_ends(tokens: Seq<Seq<char>>)
    requires
        tokens.len() > 0,
        forall|i: int| 0 <= i < tokens.len() ==> is_symbol(#[trigger] tokens[i]),
    ensures
        joined(tokens).len() > 0,
        !is_whitespace(joined(tokens).first()),
        !is_whitespace(joined(tokens).last()),
    decreases tokens.len(),
{
    lemma_symbol_shape(tokens[0]);
    if tokens.len() > 1 {
        let rest = tokens.drop_first();
        assert forall|i: int| 0 <= i < rest.len() implies is_symbol(#[trigger] rest[i]) by {
            assert(rest[i] == tokens[i + 1]);
        }
        lemma_joined_ends(rest);
    }
}

/// Trimming leaves alone what neither begins nor ends with whitespace.
proof fn lemma_trim_nothing(s: Seq<char>)
    requires
        s.len() > 0,
        !is_whitespace(s.first()),
        !is_whitespace(s.last()),
    ensures
        trim(s) == s,
{
}

/// Combining the token of a part with a written tiling writes down the tiling that
/// the part leads.
proof fn lemma_combined_rendering(head: Seq<char>, tail: Seq<Seq<char>>)
    requires
        is_symbol(token_of(head)),
        forall|i: int| 0 <= i < tail.len() ==> is_symbol(token_of(#[trigger] tail[i])),
    ensures
        combined(token_of(head), rendering(tail)) == rendering(seq![head] + tail),
{
    let token = token_of(head);
    let tokens = tokens_of(tail);
    let all = tokens_of(seq![head] + tail);
    lemma_symbol_shape(token);
    assert(all.drop_first() =~= tokens);
    assert(all[0] == token);
    if tail.len() == 0 {
        let line = token + seq![' '] + Seq::<char>::empty();
        assert(trim_start(line) == line);
        assert(line.drop_last() =~= token);
        assert(trim_end(token) == token);
        assert(trim_end(line) == token);
    } else {
        assert forall|i: int| 0 <= i < tokens.len() implies is_symbol(#[trigger] tokens[i]) by {
            assert(tokens[i] == token_of(tail[i]));
        }
        lemma_joined_ends(tokens);
        lemma_trim_nothing(token + seq![' '] + joined(tokens));
    }
}

/// What the engine does for a first token that fits is to write down the tilings that
/// start with it.
proof fn lemma_led_renderings(word: Seq<char>, n: int)
    requires
        fits(word, n),
    ensures
        all_combined(token_of(word.take(n)), segmentations(word.skip(n))) == renderings(
            led_by(word.take(n), tilings(word.skip(n))),
        ),
{
    let tails = tilings(word.skip(n));
    lemma_tilings_sound(word.skip(n));
    assert forall|i: int| 0 <= i < tails.len() implies combined(
        token_of(word.take(n)),
        rendering(tails[i]),
    ) == rendering(seq![word.take(n)] + tails[i]) by {
        assert(is_tiling(tails[i], word.skip(n)));
        lemma_combined_rendering(word.take(n), tails[i]);
    }
    assert(all_combined(token_of(word.take(n)), segmentations(word.skip(n))) =~= renderings(
        led_by(word.take(n), tails),
    ));
}

/// The segmentations of the letters of `word` from index `from` on, made from those
/// of the letters that follow the first token: `after_one` for what follows one
/// letter, `after_two` for what follows two.
fn segment_at(word: &Vec<char>, from: usize, after_one: &Vec<String>, after_two: &Vec<String>) -> (result:
    Vec<String>)
    requires
        from < word.len(),
        fits(word@.skip(from as int), 1) ==> after_one.deep_view() == segmentations(
            word@.skip(from + 1),
        ),
        fits(word@.skip(from as int), 2) ==> after_two.deep_view() == segmentations(
            word@.skip(from + 2),
        ),
    ensures
        result.deep_view() == segmentations(word@.skip(from as int)),
{
    let ghost rest = word@.skip(from as int);
    let ghost short = if fits(rest, 1) {
        led_by(rest.take(1), tilings(rest.skip(1)))
    } else {
        Seq::empty()
    };
    let ghost long = if fits(rest, 2) {
        led_by(rest.take(2), tilings(rest.skip(2)))
    } else {
        Seq::empty()
    };
    let mut result: Vec<String> = Vec::new();
    let first = upper(word[from]);
    assert(token_of(rest.take(1)) =~= seq![first]);
    if is_one_letter_symbol(first) {
        let mut start = String::new();
        start.push(first);
        let mut possibilities = process_possibilities(start, after_one.clone());
        proof {
            assert(word@.skip(from + 1) =~= rest.skip(1));
            assert(start@ =~= token_of(rest.take(1)));
            lemma_led_renderings(rest, 1);
        }
        result.append(&mut possibilities);
    }
    assert(result.deep_view() =~= renderings(short));
    if word.len() - from >= 2 {
        let second = word[from + 1];
        assert(token_of(rest.take(2)) =~= seq![first, second]);
        if is_two_letter_symbol(first, second) {
            let mut start = String::new();
            start.push(first);
            start.push(second);
            let mut possibilities = process_possibilities(start, after_two.clone());
            proof {
                assert(word@.skip(from + 2) =~= rest.skip(2));
                assert(start@ =~= token_of(rest.take(2)));
                lemma_led_renderings(rest, 2);
            }
            let ghost before = result.deep_view();
            result.append(&mut possibilities);
            assert(result.deep_view() =~= before + renderings(long));
        }
    }
    assert(result.deep_view() =~= renderings(short) + renderings(long));
    assert(renderings(short + long) =~= renderings(short) + renderings(long));
    result
}

/// Whether `marks` holds a mark for every place of `word` at which a token of a
/// tiling can start: for the first place, and for the place behind each token that
/// fits at a marked place.
spec fn marks_starts(marks: Seq<bool>, word: Seq<char>) -> bool {
    &&& marks.len() == word.len()
    &&& word.len() > 0 ==> marks[0]
    &&& forall|i: int, n: int|
        0 <= i && 1 <= n <= 2 && i + n < word.len() && marks[i] && fits(word.skip(i), n)
            ==> #[trigger] marks[i + n]
}

/// Marks the places of `word` that the tokens which fit lead to from its start.
fn starts(word: &Vec<char>) -> (marks: Vec<bool>)
    ensures
        marks_starts(marks@, word@),
{
    let mut marks: Vec<bool> = Vec::new();
    while marks.len() < word.len()
        invariant
            marks.len() <= word.len(),
            forall|j: int| 0 <= j < marks.len() ==> marks[j] == (j == 0),
        decreases word.len() - marks.len(),
    {
        let first = marks.len() == 0;
        marks.push(first);
    }
    let mut i: usize = 0;
    while i < word.len()
        invariant
            i <= word.len(),
            marks.len() == word.len(),
            word.len() > 0 ==> marks[0],
            forall|j: int, n: int|
                0 <= j < i && 1 <= n <= 2 && j + n < word.len() && marks[j] && fits(
                    word@.skip(j),
                    n,
                ) ==> #[trigger] marks[j + n],
        decreases word.len() - i,
    {
        if marks[i] {
            let ghost rest = word@.skip(i as int);
            let first = upper(word[i]);
            assert(token_of(rest.take(1)) =~= seq![first]);
            if word.len() - i > 1 {
                let second = word[i + 1];
                assert(token_of(rest.take(2)) =~= seq![first, second]);
                if is_one_letter_symbol(first) {
                    marks.set(i + 1, true);
                }
                if word.len() - i > 2 && is_two_letter_symbol(first, second) {
                    marks.set(i + 2, true);
                }
            }
        }
        i += 1;
    }
    marks
}

/// The segmentations of `word`. They are made from the end of the word: those of
/// each tail from those of the two tails that follow it, and only for the tails that
/// begin where a token of a tiling can start. So no tail is gone through twice, none
/// that no tiling reaches is gone through at all, and the length of the word sets no
/// depth of calls.
pub(crate) fn segment(word: &Vec<char>) -> (result: Vec<String>)
    ensures
        result.deep_view() == segmentations(word@),
{
    let marks = starts(word);
    let mut here: Vec<String> = Vec::new();
    here.push(String::new());
    let mut next: Vec<String> = Vec::new();
    let mut from: usize = word.len();
    assert(here.deep_view() =~= segmentations(word@.skip(from as int)));
    while from > 0
        invariant
            from <= word.len(),
            marks_starts(marks@, word@),
            from == word.len() || marks[from as int] ==> here.deep_view() == segmentations(
                word@.skip(from as int),
            ),
            from + 1 == word.len() || (from + 1 < word.len() && marks[from + 1])
                ==> next.deep_view() == segmentations(word@.skip(from + 1)),
        decreases from,
    {
        from -= 1;
        let found = if marks[from] {
            segment_at(word, from, &here, &next)
        } else {
            Vec::new()
        };
        next = here;
        here = found;
    }
    assert(word@.skip(0) =~= word@);
    here
}

/// Writes `value` with element symbols in every way in which that can be done. Each
/// result is a tiling of `value`, its tokens joined by single spaces; the results
/// come in the order of `tilings`. The empty word has one tiling, which is written as
/// the empty string. A word that cannot be tiled gives no result.
pub fn parse_string(value: String) -> (result: Vec<String>)
    ensures
        result.deep_view() == segmentations(value@),
        forall|i: int|
            0 <= i < result.len() ==> uppercased(without_spaces(#[trigger] result[i]@))
                == uppercased(value@),
{
    let word = chars_of(value.as_str());
    let result = segment(&word);
    proof {
        assert forall|i: int| 0 <= i < result.len() implies uppercased(
            without_spaces(#[trigger] result[i]@),
        ) == uppercased(value@) by {
            assert(result.deep_view()[i] == result[i]@);
            lemma_segmentation_keeps_letters(value@, i);
        }
    }
    result
}

} // verus!
