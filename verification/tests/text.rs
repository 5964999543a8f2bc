use chemstring::text::{
    chars_of, is_all_lower, lower, normalized, string_of, trim_range, upper, whitespace,
};

#[test]
fn whitespace_is_what_the_standard_library_calls_whitespace() {
    for code in 0..=0x10ffff_u32 {
        if let Some(c) = char::from_u32(code) {
            assert_eq!(whitespace(c), c.is_whitespace(), "{code:#x}");
        }
    }
}

#[test]
fn case_is_changed_for_ascii_letters_only() {
    for code in 0..=0x10ffff_u32 {
        if let Some(c) = char::from_u32(code) {
            assert_eq!(upper(c), c.to_ascii_uppercase(), "{code:#x}");
            assert_eq!(lower(c), c.to_ascii_lowercase(), "{code:#x}");
        }
    }
    assert_eq!(upper('a'), 'A');
    assert_eq!(upper('z'), 'Z');
    assert_eq!(lower('A'), 'a');
    assert_eq!(lower('Z'), 'z');
    assert_eq!(upper('\u{e9}'), '\u{e9}');
}

#[test]
fn the_characters_of_a_string_come_in_order() {
    assert_eq!(chars_of("h\u{e9} W"), vec!['h', '\u{e9}', ' ', 'W']);
    assert_eq!(chars_of(""), Vec::<char>::new());
}

#[test]
fn a_string_is_made_of_a_part_of_the_characters() {
    let letters = vec!['b', 'i', 'c', 'h', 'o', 'n'];
    assert_eq!(string_of(&letters, 0, 6), "bichon");
    assert_eq!(string_of(&letters, 2, 4), "ch");
    assert_eq!(string_of(&letters, 3, 3), "");
}

#[test]
fn trimming_finds_the_part_between_the_whitespace() {
    let cases = [
        "", " ", "  \t ", "a", " a", "a ", " a b ", "\u{2003}x y\u{a0}\n", "He ", " He Li",
    ];
    for case in cases {
        let letters: Vec<char> = case.chars().collect();
        let (from, to) = trim_range(&letters);
        assert_eq!(string_of(&letters, from, to), case.trim(), "{case:?}");
    }
    assert_eq!(trim_range(&vec![' ', 'a', 'b', ' ', ' ']), (1, 3));
}

#[test]
fn the_normal_form_has_no_whitespace_and_no_capital() {
    let raw: Vec<char> = " Bi\tChOn 12\u{2003}\u{c9}".chars().collect();
    let word: String = normalized(&raw).into_iter().collect();
    assert_eq!(word, "bichon12\u{c9}");
}

#[test]
fn the_normal_form_of_a_normal_form_is_itself() {
    for raw in ["  Se Al ", "BICHON", "a1 B2", ""] {
        let once = normalized(&raw.chars().collect());
        let twice = normalized(&once);
        assert_eq!(once, twice);
    }
}

#[test]
fn small_letters_are_told_from_the_rest() {
    assert!(is_all_lower(&vec!['a', 'z', 'm']));
    assert!(is_all_lower(&Vec::new()));
    assert!(!is_all_lower(&vec!['a', 'Z']));
    assert!(!is_all_lower(&vec!['a', '1']));
    assert!(!is_all_lower(&vec!['\u{e9}']));
}
