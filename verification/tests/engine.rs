use chemstring::parsing_utils::{parse_string, process_possibilities};

fn strings(list: &[&str]) -> Vec<String> {
    list.iter().map(|s| s.to_string()).collect()
}

#[test]
fn the_empty_word_has_the_empty_segmentation() {
    assert_eq!(parse_string(String::new()), vec![String::new()]);
}

#[test]
fn a_single_letter_is_its_symbol_or_nothing() {
    assert_eq!(parse_string("h".to_string()), vec!["H"]);
    assert_eq!(parse_string("q".to_string()), Vec::<String>::new());
}

#[test]
fn a_token_of_two_letters_is_found() {
    assert_eq!(parse_string("seal".to_string()), vec!["Se Al"]);
    assert_eq!(parse_string("he".to_string()), vec!["He"]);
}

#[test]
fn tokens_of_one_letter_come_first() {
    assert_eq!(parse_string("cn".to_string()), vec!["C N", "Cn"]);
    assert_eq!(parse_string("cos".to_string()), vec!["C O S", "C Os", "Co S"]);
}

#[test]
fn a_dead_end_leaves_no_result() {
    assert_eq!(parse_string("qz".to_string()), Vec::<String>::new());
    assert_eq!(parse_string("hq".to_string()), Vec::<String>::new());
    assert_eq!(parse_string("hej".to_string()), Vec::<String>::new());
}

#[test]
fn the_second_letter_of_a_token_is_taken_as_it_stands() {
    assert_eq!(parse_string("HE".to_string()), Vec::<String>::new());
    assert_eq!(parse_string("He".to_string()), vec!["He"]);
    assert_eq!(parse_string("CN".to_string()), vec!["C N"]);
}

#[test]
fn what_is_no_letter_ends_the_search() {
    assert_eq!(parse_string("h e".to_string()), Vec::<String>::new());
    assert_eq!(parse_string("h1".to_string()), Vec::<String>::new());
    assert_eq!(parse_string("\u{e9}".to_string()), Vec::<String>::new());
}

#[test]
fn the_number_of_results_is_the_number_of_tilings() {
    // c|o|c|o|o|n, c|o|co|o|n, co|c|o|o|n, co|co|o|n
    assert_eq!(parse_string("cocoon".to_string()).len(), 4);
    // every letter of "ccc" stands alone: "Cc" is no symbol
    assert_eq!(parse_string("ccc".to_string()), vec!["C C C"]);
    // n|b|n|b, n|b|nb, nb|n|b, nb|nb
    assert_eq!(
        parse_string("nbnb".to_string()),
        vec!["N B N B", "N B Nb", "Nb N B", "Nb Nb"]
    );
}

#[test]
fn possibilities_are_the_start_and_each_of_the_rest() {
    assert_eq!(
        process_possibilities("He".to_string(), strings(&["Li", "Li Be", ""])),
        vec!["He Li", "He Li Be", "He"]
    );
}

#[test]
fn possibilities_of_nothing_are_nothing() {
    assert_eq!(
        process_possibilities("He".to_string(), Vec::new()),
        Vec::<String>::new()
    );
}

#[test]
fn possibilities_are_trimmed_at_both_ends() {
    assert_eq!(
        process_possibilities(" \tHe".to_string(), strings(&["Li \n", " ", "a  b\u{2003}"])),
        vec!["He Li", "He", "He a  b"]
    );
    assert_eq!(
        process_possibilities(String::new(), strings(&["", "x"])),
        vec!["", "x"]
    );
}

#[test]
fn a_dead_end_far_behind_is_found_at_once() {
    let word = format!("{}q", "cn".repeat(60));
    assert_eq!(parse_string(word), Vec::<String>::new());
}

#[test]
fn a_dead_end_at_the_start_is_found_at_once() {
    let word = format!("q{}", "cn".repeat(60));
    assert_eq!(parse_string(word), Vec::<String>::new());
}

#[test]
fn a_dead_end_in_the_middle_is_found_at_once() {
    let word = format!("{}q{}", "cn".repeat(40), "cn".repeat(40));
    assert_eq!(parse_string(word), Vec::<String>::new());
}

#[test]
fn a_long_word_is_segmented_without_deep_calls() {
    let results = parse_string("h".repeat(3000));
    assert_eq!(results.len(), 1);
    assert_eq!(results[0], vec!["H"; 3000].join(" "));
}

#[test]
fn the_number_of_results_doubles_with_each_free_choice() {
    for pairs in 0..10_usize {
        let results = parse_string("cn".repeat(pairs));
        assert_eq!(results.len(), 1 << pairs);
        let mut distinct = results.clone();
        distinct.sort();
        distinct.dedup();
        assert_eq!(distinct.len(), results.len());
    }
}
