use chemstring::errors::ChemStringErrors;
use chemstring::ChemString;

#[test]
fn valid_chem_string_with_one_possible_result_is_parsed() {
    let chem_string = "seal";

    let result = ChemString::parse(chem_string).unwrap();

    assert_eq!(result.results(), vec!["Se Al"]);
}

#[test]
fn valid_chem_string_with_multiple_possible_results_is_parsed() {
    let chem_string = "bichon";
    let mut possible_results = ["Bi C H O N", "B I C H O N", "Bi C Ho N", "B I C Ho N"];

    let result = ChemString::parse(chem_string).unwrap();
    let mut results = result.results();
    possible_results.sort();
    results.sort();

    assert_eq!(results, possible_results);
}

#[test]
fn invalid_chem_strings_are_not_parsed() {
    let invalid_chem_strings = vec![
        "",
        "123",
        "bichon123",
        "bichon 123",
        "?#!$@",
        "bichon??",
        "bichon ??",
    ];

    for invalid_chem_string in invalid_chem_strings {
        let result = ChemString::parse(invalid_chem_string);

        assert!(result.is_err());
    }
}

#[test]
fn results_come_in_the_order_of_discovery() {
    let result = ChemString::parse("bichon").unwrap();

    assert_eq!(
        result.results(),
        vec!["B I C H O N", "B I C Ho N", "Bi C H O N", "Bi C Ho N"]
    );
}

#[test]
fn count_is_the_number_of_results() {
    assert_eq!(ChemString::parse("seal").unwrap().count(), 1);
    assert_eq!(ChemString::parse("bichon").unwrap().count(), 4);
    assert_eq!(ChemString::parse("h").unwrap().count(), 1);
}

#[test]
fn a_word_that_cannot_be_tiled_has_no_result() {
    let result = ChemString::parse("qz").unwrap();

    assert_eq!(result.results(), Vec::<String>::new());
    assert_eq!(result.count(), 0);
}

#[test]
fn an_empty_word_is_refused_as_empty() {
    assert!(matches!(
        ChemString::parse(""),
        Err(ChemStringErrors::EmptyString)
    ));
}

#[test]
fn a_word_of_whitespace_is_refused_as_empty() {
    for blank in [" ", "   ", "\t\n", " \u{a0}\u{3000} "] {
        assert!(matches!(
            ChemString::parse(blank),
            Err(ChemStringErrors::EmptyString)
        ));
    }
}

#[test]
fn a_word_with_a_digit_is_refused_for_the_character() {
    for word in ["bichon123", "123", "bichon 123", "?#!$@", "bichon??", "b-i"] {
        assert!(matches!(
            ChemString::parse(word),
            Err(ChemStringErrors::InvalidCharacter)
        ));
    }
}

#[test]
fn a_letter_outside_ascii_is_refused_for_the_character() {
    for word in ["caf\u{e9}", "\u{212a}", "stra\u{df}e", "\u{3b1}"] {
        assert!(matches!(
            ChemString::parse(word),
            Err(ChemStringErrors::InvalidCharacter)
        ));
    }
}

#[test]
fn case_and_whitespace_do_not_change_the_results() {
    let plain = ChemString::parse("bichon").unwrap().results();

    for variant in ["BICHON", "BiChOn", " bichon ", "bi chon", "B I\tC\nH O N", "\u{2003}bichoN"] {
        let result = ChemString::parse(variant).unwrap();
        assert_eq!(result.results(), plain);
        assert_eq!(result.count(), plain.len());
    }
}

#[test]
fn the_letters_of_each_result_are_the_letters_of_the_word() {
    for word in ["bichon", "seal", "nation", "cocoon", "husband", "physics"] {
        let results = ChemString::parse(word).unwrap().results();
        assert!(!results.is_empty());
        for result in results {
            let letters: String = result.chars().filter(|c| *c != ' ').collect();
            assert_eq!(letters.to_uppercase(), word.to_uppercase());
        }
    }
}

#[test]
fn error_messages_are_worded_for_a_person() {
    assert_eq!(
        ChemStringErrors::EmptyString.message(),
        "Empty string provided. Provide a non-empty string."
    );
    assert_eq!(
        ChemStringErrors::InvalidCharacter.message(),
        "The string contains invalid characters. ChemString only supports ASCII alphabetic characters."
    );
}
