//! What holds of the tilings of a word and of the way they are written down.

use vstd::prelude::*;
use crate::parsing_utils::{
    fits,
    is_tiling,
    joined,
    led_by,
    rendering,
    segmentations,
    tilings,
    token_of,
    tokens_of,
};
use crate::symbols::{is_symbol, lemma_symbol_shape};
use crate::text::{all_lower, lowercased, uppercased, without_spaces};

verus! {

/// The set of all tilings of `word`.
pub open spec fn tiling_set(word: Seq<char>) -> Set<Seq<Seq<char>>> {
    Set::new(|parts: Seq<Seq<char>>| is_tiling(parts, word))
}

/// The empty word has one segmentation, the empty string.
pub proof fn lemma_empty_word()
    ensures
        segmentations(Seq::empty()) == seq![Seq::<char>::empty()],
{
    assert(tokens_of(Seq::empty()) =~= Seq::empty());
    assert(segmentations(Seq::empty()) =~= seq![Seq::<char>::empty()]);
}

/// Every entry of `tilings(word)` is a tiling of `word`.
pub proof fn lemma_tilings_sound(word: Seq<char>)
    ensures
        forall|i: int| 0 <= i < tilings(word).len() ==> is_tiling(#[trigger] tilings(word)[i], word),
    decreases word.len(),
{
    if word.len() == 0 {
        assert(Seq::<Seq<char>>::empty().flatten() =~= word);
    } else {
        let short = if fits(word, 1) {
            led_by(word.take(1), tilings(word.skip(1)))
        } else {
            Seq::empty()
        };
        assert forall|i: int| 0 <= i < tilings(word).len() implies is_tiling(
            #[trigger] tilings(word)[i],
            word,
        ) by {
            if i < short.len() {
                lemma_tilings_sound(word.skip(1));
                lemma_led_tiling(word, 1, tilings(word.skip(1))[i]);
            } else {
                lemma_tilings_sound(word.skip(2));
                lemma_led_tiling(word, 2, tilings(word.skip(2))[i - short.len()]);
            }
        }
    }
}

/// A tiling of what follows the first `n` letters, led by a token that fits, is a
/// tiling of the word.
proof fn lemma_led_tiling(word: Seq<char>, n: int, tail: Seq<Seq<char>>)
    requires
        fits(word, n),
        is_tiling(tail, word.skip(n)),
    ensures
        is_tiling(seq![word.take(n)] + tail, word),
{
    let parts = seq![word.take(n)] + tail;
    assert(parts.drop_first() =~= tail);
    assert(parts.flatten() =~= word);
    assert forall|i: int| 0 <= i < parts.len() implies is_symbol(token_of(#[trigger] parts[i])) by {
        if i > 0 {
            assert(parts[i] == tail[i - 1]);
        }
    }
}

/// A tiling that has a first part starts with the first one or two letters of the
/// word, which fit, and goes on with a tiling of the letters that follow.
proof fn lemma_tiling_unfolds(parts: Seq<Seq<char>>, word: Seq<char>)
    requires
        is_tiling(parts, word),
        parts.len() > 0,
    ensures
        1 <= parts[0].len() <= 2,
        fits(word, parts[0].len() as int),
        parts[0] == word.take(parts[0].len() as int),
        is_tiling(parts.drop_first(), word.skip(parts[0].len() as int)),
{
    let head = parts[0];
    let tail = parts.drop_first();
    lemma_symbol_shape(token_of(head));
    assert(word =~= head + tail.flatten());
    assert(word.take(head.len() as int) =~= head);
    assert(word.skip(head.len() as int) =~= tail.flatten());
    assert forall|i: int| 0 <= i < tail.len() implies is_symbol(token_of(#[trigger] tail[i])) by {
        assert(tail[i] == parts[i + 1]);
    }
}

/// Every tiling of `word` is among `tilings(word)`.
pub proof fn lemma_tilings_complete(word: Seq<char>, parts: Seq<Seq<char>>)
    requires
        is_tiling(parts, word),
    ensures
        tilings(word).contains(parts),
    decreases word.len(),
{
    if parts.len() == 0 {
        assert(parts =~= Seq::empty());
        assert(tilings(word)[0] == parts);
    } else {
        lemma_tiling_unfolds(parts, word);
        let n = parts[0].len() as int;
        let tails = tilings(word.skip(n));
        lemma_tilings_complete(word.skip(n), parts.drop_first());
        let j = choose|j: int| 0 <= j < tails.len() && tails[j] == parts.drop_first();
        assert(seq![word.take(n)] + tails[j] =~= parts);
        let short = if fits(word, 1) {
            led_by(word.take(1), tilings(word.skip(1)))
        } else {
            Seq::empty()
        };
        if n == 1 {
            assert(tilings(word)[j] == parts);
        } else {
            assert(tilings(word)[short.len() + j] == parts);
        }
    }
}

/// No tiling comes twice in `tilings(word)`.
pub proof fn lemma_tilings_distinct(word: Seq<char>)
    ensures
        tilings(word).no_duplicates(),
    decreases word.len(),
{
    if word.len() > 0 {
        let short = if fits(word, 1) {
            led_by(word.take(1), tilings(word.skip(1)))
        } else {
            Seq::empty()
        };
        let long = if fits(word, 2) {
            led_by(word.take(2), tilings(word.skip(2)))
        } else {
            Seq::empty()
        };
        lemma_tilings_distinct(word.skip(1));
        if word.len() >= 2 {
            lemma_tilings_distinct(word.skip(2));
        }
        assert forall|i: int, j: int|
            0 <= i < tilings(word).len() && 0 <= j < tilings(word).len() && i != j implies tilings(
            word,
        )[i] != tilings(word)[j] by {
            let a = tilings(word)[i];
            let b = tilings(word)[j];
            if i < short.len() && j < short.len() {
                let tails = tilings(word.skip(1));
                assert(a.drop_first() =~= tails[i]);
                assert(b.drop_first() =~= tails[j]);
            } else if i >= short.len() && j >= short.len() {
                let tails = tilings(word.skip(2));
                assert(a.drop_first() =~= tails[i - short.len()]);
                assert(b.drop_first() =~= tails[j - short.len()]);
            } else {
                assert(a[0].len() != b[0].len());
            }
        }
    }
}

/// There are as many segmentations of `word` as there are tilings of it; in
/// particular there is none if and only if the word cannot be tiled.
pub proof fn lemma_count(word: Seq<char>)
    ensures
        tiling_set(word).finite(),
        segmentations(word).len() == tiling_set(word).len(),
        segmentations(word).len() == 0 <==> forall|parts: Seq<Seq<char>>| !is_tiling(parts, word),
{
    let all = tilings(word);
    lemma_tilings_sound(word);
    lemma_tilings_distinct(word);
    assert forall|parts: Seq<Seq<char>>| is_tiling(parts, word) implies all.contains(parts) by {
        lemma_tilings_complete(word, parts);
    }
    assert(all.to_set() =~= tiling_set(word));
    vstd::seq_lib::seq_to_set_is_finite(all);
    all.unique_seq_to_set();
    if all.len() > 0 {
        assert(is_tiling(all[0], word));
    }
}

/// Tokens of the dictionary, joined and then rid of the spaces, are the tokens one
/// after the other.
proof fn lemma_joined_without_spaces(tokens: Seq<Seq<char>>)
    requires
        forall|i: int| 0 <= i < tokens.len() ==> is_symbol(#[trigger] tokens[i]),
    ensures
        without_spaces(joined(tokens)) == tokens.flatten(),
    decreases tokens.len(),
{
    let letter = |c: char| c != ' ';
    reveal_with_fuel(Seq::filter, 3);
    if tokens.len() == 0 {
    } else {
        let token = tokens[0];
        let rest = tokens.drop_first();
        lemma_symbol_shape(token);
        assert(token.filter(letter) =~= token) by {
            if token.len() == 2 {
                assert(token.drop_last().drop_last() =~= Seq::empty());
            } else {
                assert(token.drop_last() =~= Seq::empty());
            }
        }
        if tokens.len() == 1 {
            assert(rest.flatten() =~= Seq::empty());
            assert(tokens.flatten() =~= token);
        } else {
            assert forall|i: int| 0 <= i < rest.len() implies is_symbol(#[trigger] rest[i]) by {
                assert(rest[i] == tokens[i + 1]);
            }
            lemma_joined_without_spaces(rest);
            let space = seq![' '];
            assert(space.filter(letter) =~= Seq::empty()) by {
                assert(space.drop_last() =~= Seq::empty());
            }
            Seq::filter_distributes_over_add(token, space, letter);
            Seq::filter_distributes_over_add(token + space, joined(rest), letter);
            assert(without_spaces(joined(tokens)) =~= token + rest.flatten());
        }
    }
}

/// The tokens of the parts, one after the other, are the parts one after the other
/// but for the case of their letters.
proof fn lemma_tokens_uppercased(parts: Seq<Seq<char>>)
    ensures
        uppercased(tokens_of(parts).flatten()) == uppercased(
            parts.flatten(),
        ),
    decreases parts.len(),
{
    let tokens = tokens_of(parts);
    if parts.len() > 0 {
        let rest = parts.drop_first();
        lemma_tokens_uppercased(rest);
        assert(tokens.drop_first() =~= tokens_of(rest));
        assert(uppercased(token_of(parts[0])) =~= uppercased(parts[0]));
        assert(uppercased(tokens.flatten()) =~= uppercased(tokens[0]) + uppercased(
            tokens.drop_first().flatten(),
        ));
        assert(uppercased(parts.flatten()) =~= uppercased(parts[0]) + uppercased(rest.flatten()));
    }
}

/// A tiling is written with the letters of its word: take the spaces out of what is
/// written, and it is the word, but for the case of the letters.
pub proof fn lemma_rendering_keeps_letters(parts: Seq<Seq<char>>, word: Seq<char>)
    requires
        is_tiling(parts, word),
    ensures
        uppercased(without_spaces(rendering(parts))) == uppercased(word),
{
    let tokens = tokens_of(parts);
    assert forall|i: int| 0 <= i < tokens.len() implies is_symbol(#[trigger] tokens[i]) by {
        assert(tokens[i] == token_of(parts[i]));
    }
    lemma_joined_without_spaces(tokens);
    lemma_tokens_uppercased(parts);
}

/// Every segmentation of a word holds the letters of the word: without its spaces,
/// and with capitals throughout, it is the word with capitals throughout.
pub proof fn lemma_segmentation_keeps_letters(word: Seq<char>, i: int)
    requires
        0 <= i < segmentations(word).len(),
    ensures
        uppercased(without_spaces(segmentations(word)[i])) == uppercased(word),
{
    lemma_tilings_sound(word);
    lemma_rendering_keeps_letters(tilings(word)[i], word);
}

/// Every segmentation of a word is a row of symbols of the dictionary, joined by
/// single spaces, that spell the word.
pub proof fn lemma_segmentation_is_of_symbols(word: Seq<char>, i: int)
    requires
        0 <= i < segmentations(word).len(),
    ensures
        ({
            let tokens = tokens_of(tilings(word)[i]);
            &&& segmentations(word)[i] == joined(tokens)
            &&& forall|k: int| 0 <= k < tokens.len() ==> is_symbol(#[trigger] tokens[k])
            &&& uppercased(tokens.flatten()) == uppercased(word)
        }),
{
    let parts = tilings(word)[i];
    let tokens = tokens_of(parts);
    lemma_tilings_sound(word);
    assert forall|k: int| 0 <= k < tokens.len() implies is_symbol(#[trigger] tokens[k]) by {
        assert(tokens[k] == token_of(parts[k]));
    }
    lemma_tokens_uppercased(parts);
}

/// The parts that a row of symbols stands for, put together, are the symbols put
/// together with their capitals made small.
proof fn lemma_lowercased_flatten(tokens: Seq<Seq<char>>)
    ensures
        Seq::new(tokens.len(), |i: int| lowercased(tokens[i])).flatten() == lowercased(
            tokens.flatten(),
        ),
    decreases tokens.len(),
{
    let parts = Seq::new(tokens.len(), |i: int| lowercased(tokens[i]));
    if tokens.len() > 0 {
        let rest = tokens.drop_first();
        lemma_lowercased_flatten(rest);
        assert(parts.drop_first() =~= Seq::new(rest.len(), |i: int| lowercased(rest[i])));
        assert(lowercased(tokens.flatten()) =~= lowercased(tokens[0]) + lowercased(rest.flatten()));
    }
}

/// Nothing is missed: whenever symbols of the dictionary, one after the other, spell
/// a word of small letters, the symbols joined by single spaces are among the
/// segmentations of the word.
pub proof fn lemma_every_spelling_is_found(word: Seq<char>, tokens: Seq<Seq<char>>)
    requires
        all_lower(word),
        forall|i: int| 0 <= i < tokens.len() ==> is_symbol(#[trigger] tokens[i]),
        lowercased(tokens.flatten()) == word,
    ensures
        segmentations(word).contains(joined(tokens)),
{
    let parts = Seq::new(tokens.len(), |i: int| lowercased(tokens[i]));
    lemma_lowercased_flatten(tokens);
    assert forall|i: int| 0 <= i < parts.len() implies token_of(#[trigger] parts[i])
        == tokens[i] by {
        lemma_symbol_shape(tokens[i]);
        assert(token_of(lowercased(tokens[i])) =~= tokens[i]);
    }
    assert(tokens_of(parts) =~= tokens);
    assert(is_tiling(parts, word));
    lemma_tilings_complete(word, parts);
    let j = choose|j: int| 0 <= j < tilings(word).len() && tilings(word)[j] == parts;
    assert(segmentations(word)[j] == joined(tokens));
}

/// Two tilings of one word that are written alike are the same tiling.
pub proof fn lemma_rendering_injective(a: Seq<Seq<char>>, b: Seq<Seq<char>>, word: Seq<char>)
    requires
        is_tiling(a, word),
        is_tiling(b, word),
        rendering(a) == rendering(b),
    ensures
        a == b,
    decreases word.len(),
{
    if a.len() == 0 || b.len() == 0 {
        if a.len() > 0 {
            lemma_tiling_unfolds(a, word);
        }
        if b.len() > 0 {
            lemma_tiling_unfolds(b, word);
        }
        assert(a =~= b);
    } else {
        lemma_tiling_unfolds(a, word);
        lemma_tiling_unfolds(b, word);
        lemma_rendering_unfolds(a, word);
        lemma_rendering_unfolds(b, word);
        let n = a[0].len() as int;
        let m = b[0].len() as int;
        let text = rendering(a);
        if n != m {
            // The shorter first token is followed by a space or by nothing, where the
            // longer one has its second letter.
            let (short, long) = if n < m {
                (a, b)
            } else {
                (b, a)
            };
            lemma_symbol_shape(token_of(long[0]));
            assert(rendering(long)[1] == token_of(long[0])[1]);
            if short.len() > 1 {
                assert(rendering(short)[1] == ' ');
            }
            assert(false);
        }
        let rest = word.skip(n);
        if rest.len() == 0 {
            if a.len() > 1 {
                lemma_tiling_unfolds(a.drop_first(), rest);
            }
            if b.len() > 1 {
                lemma_tiling_unfolds(b.drop_first(), rest);
            }
        } else {
            assert(a.len() > 1) by {
                if a.len() == 1 {
                    assert(a.drop_first().flatten() =~= Seq::empty());
                }
            }
            assert(b.len() > 1) by {
                if b.len() == 1 {
                    assert(b.drop_first().flatten() =~= Seq::empty());
                }
            }
            assert(rendering(a.drop_first()) =~= text.skip(n + 1));
            assert(rendering(b.drop_first()) =~= text.skip(n + 1));
            lemma_rendering_injective(a.drop_first(), b.drop_first(), rest);
        }
        assert(a.drop_first() =~= b.drop_first());
        assert(a =~= seq![a[0]] + a.drop_first());
        assert(b =~= seq![b[0]] + b.drop_first());
    }
}

/// How a tiling with a first part is written: the token of that part, and, if more
/// parts follow, a space and what they are written as.
proof fn lemma_rendering_unfolds(parts: Seq<Seq<char>>, word: Seq<char>)
    requires
        is_tiling(parts, word),
        parts.len() > 0,
    ensures
        rendering(parts) == if parts.len() == 1 {
            token_of(parts[0])
        } else {
            token_of(parts[0]) + seq![' '] + rendering(parts.drop_first())
        },
{
    assert(tokens_of(parts).drop_first() =~= tokens_of(parts.drop_first()));
}

/// No segmentation of a word comes twice.
pub proof fn lemma_segmentations_distinct(word: Seq<char>)
    ensures
        segmentations(word).no_duplicates(),
{
    lemma_tilings_sound(word);
    lemma_tilings_distinct(word);
    assert forall|i: int, j: int|
        0 <= i < segmentations(word).len() && 0 <= j < segmentations(word).len() && i
            != j implies segmentations(word)[i] != segmentations(word)[j] by {
        if segmentations(word)[i] == segmentations(word)[j] {
            lemma_rendering_injective(tilings(word)[i], tilings(word)[j], word);
        }
    }
}

} // verus!
