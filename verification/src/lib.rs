//! Writes a word with the symbols of the chemical elements, in every way in which that
//! can be done: `seal` is `Se Al`, and `bichon` is `Bi C H O N`, `B I C H O N`,
//! `Bi C Ho N` and `B I C Ho N`.

use vstd::prelude::*;
use crate::errors::ChemStringErrors;
use crate::parsing_utils::{is_tiling, segment, segmentations};
use crate::text::{
    all_letters,
    all_lower,
    chars_of,
    is_all_lower,
    lemma_letters_lowercased,
    lemma_normal_form_idempotent,
    lowercased,
    normal_form,
    normalized,
    uppercased,
    without_spaces,
    without_whitespace,
};
use crate::tiling_laws::{lemma_count, lemma_segmentation_keeps_letters, tiling_set};

pub mod errors;
pub mod parsing_utils;
pub mod symbols;
pub mod text;
pub mod tiling_laws;

verus! {

/// What parsing makes of a word as it was typed. The whitespace is taken out first.
/// If nothing is left, the word is refused as empty; if anything but an ASCII letter
/// is left, it is refused for that character; otherwise the outcome is the list of the
/// segmentations of its normal form.
pub open spec fn parse_outcome(raw: Seq<char>) -> Result<Seq<Seq<char>>, ChemStringErrors> {
    let typed = without_whitespace(raw);
    if typed.len() == 0 {
        Err(ChemStringErrors::EmptyString)
    } else if !all_letters(typed) {
        Err(ChemStringErrors::InvalidCharacter)
    } else {
        Ok(segmentations(normal_form(raw)))
    }
}

/// Parsing looks at the normal form of a word only: however the word is spaced and
/// whichever of its letters are capitals, the outcome is that of its normal form.
pub proof fn lemma_parse_outcome_of_normal_form(raw: Seq<char>)
    ensures
        parse_outcome(normal_form(raw)) == parse_outcome(raw),
{
    let word = normal_form(raw);
    lemma_normal_form_idempotent(raw);
    lemma_letters_lowercased(without_whitespace(raw));
    lemma_letters_lowercased(without_whitespace(word));
    assert(lowercased(without_whitespace(word)) == word);
    assert(without_whitespace(word).len() == word.len());
    assert(without_whitespace(raw).len() == word.len());
}

/// Two words with the same normal form are parsed to the same outcome.
pub proof fn lemma_parse_outcome_of_variants(a: Seq<char>, b: Seq<char>)
    requires
        normal_form(a) == normal_form(b),
    ensures
        parse_outcome(a) == parse_outcome(b),
{
    lemma_letters_lowercased(without_whitespace(a));
    lemma_letters_lowercased(without_whitespace(b));
    assert(without_whitespace(a).len() == normal_form(a).len());
    assert(without_whitespace(b).len() == normal_form(b).len());
}

/// A word together with all the ways to write it with element symbols.
pub struct ChemString(Vec<String>, Ghost<Seq<char>>);

impl View for ChemString {
    type V = Seq<Seq<char>>;

    /// The ways to write the word, in the order in which they were found.
    closed spec fn view(&self) -> Seq<Seq<char>> {
        self.0.deep_view()
    }
}

impl ChemString {
    /// The word in normal form: small letters only, and at least one.
    pub closed spec fn word(&self) -> Seq<char> {
        self.1@
    }

    #[verifier::type_invariant]
    spec fn well_formed(&self) -> bool {
        &&& self.word().len() > 0
        &&& all_lower(self.word())
        &&& self@ == segmentations(self.word())
    }

    /// Parses a word. Whitespace in it is passed over and capitals count as small
    /// letters. A word without any letter is refused as empty, and one that holds
    /// anything but ASCII letters and whitespace is refused for that character.
    pub fn parse(s: &str) -> (outcome: Result<ChemString, ChemStringErrors>)
        ensures
            match outcome {
                Ok(chem) => parse_outcome(s@) == Ok::<_, ChemStringErrors>(chem@) && chem.word()
                    == normal_form(s@),
                Err(error) => parse_outcome(s@) == Err::<Seq<Seq<char>>, _>(error),
            },
    {
        let raw = chars_of(s);
        let word = normalized(&raw);
        proof {
            lemma_letters_lowercased(without_whitespace(raw@));
            assert(without_whitespace(raw@).len() == word@.len());
        }
        if word.len() == 0 {
            return Err(ChemStringErrors::EmptyString);
        }
        if !is_all_lower(&word) {
            return Err(ChemStringErrors::InvalidCharacter);
        }
        let result = segment(&word);
        Ok(ChemString(result, Ghost(word@)))
    }

    /// Returns the ways to write the word, each as its symbols with single spaces
    /// between them.
    pub fn results(&self) -> (list: Vec<String>)
        ensures
            list.deep_view() == self@,
            self@ == segmentations(self.word()),
            forall|i: int|
                0 <= i < list.len() ==> uppercased(without_spaces(#[trigger] list[i]@))
                    == uppercased(self.word()),
    {
        proof {
            use_type_invariant(self);
        }
        let list = self.0.clone();
        assert(list.deep_view() =~= self@);
        proof {
            assert forall|i: int| 0 <= i < list.len() implies uppercased(
                without_spaces(#[trigger] list[i]@),
            ) == uppercased(self.word()) by {
                assert(list.deep_view()[i] == list[i]@);
                lemma_segmentation_keeps_letters(self.word(), i);
            }
        }
        list
    }

    /// Returns the number of ways to write the word: the number of its tilings, which
    /// is zero if and only if the word cannot be tiled.
    pub fn count(&self) -> (n: usize)
        ensures
            n == self@.len(),
            n == tiling_set(self.word()).len(),
            n == 0 <==> forall|parts: Seq<Seq<char>>| !is_tiling(parts, self.word()),
    {
        proof {
            use_type_invariant(self);
            lemma_count(self.word());
        }
        self.0.len()
    }
}

} // verus!
