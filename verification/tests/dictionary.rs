use chemstring::symbols::{contains, is_one_letter_symbol, is_two_letter_symbol};

const TABLE: [&str; 118] = [
    "H", "He", "Li", "Be", "B", "C", "N", "O", "F", "Ne", "Na", "Mg", "Al", "Si", "P", "S", "Cl",
    "Ar", "K", "Ca", "Sc", "Ti", "V", "Cr", "Mn", "Fe", "Co", "Ni", "Cu", "Zn", "Ga", "Ge", "As",
    "Se", "Br", "Kr", "Rb", "Sr", "Y", "Zr", "Nb", "Mo", "Tc", "Ru", "Rh", "Pd", "Ag", "Cd", "In",
    "Sn", "Sb", "Te", "I", "Xe", "Cs", "Ba", "La", "Ce", "Pr", "Nd", "Pm", "Sm", "Eu", "Gd", "Tb",
    "Dy", "Ho", "Er", "Tm", "Yb", "Lu", "Hf", "Ta", "W", "Re", "Os", "Ir", "Pt", "Au", "Hg", "Tl",
    "Pb", "Bi", "Po", "At", "Rn", "Fr", "Ra", "Ac", "Th", "Pa", "U", "Np", "Pu", "Am", "Cm", "Bk",
    "Cf", "Es", "Fm", "Md", "No", "Lr", "Rf", "Db", "Sg", "Bh", "Hs", "Mt", "Ds", "Rg", "Cn", "Nh",
    "Fl", "Mc", "Lv", "Ts", "Og",
];

#[test]
fn every_element_is_in_the_dictionary() {
    for symbol in TABLE {
        assert!(contains(symbol), "{symbol}");
    }
}

#[test]
fn nothing_but_the_elements_is_in_the_dictionary() {
    let mut found = 0;
    for first in '\0'..='\u{7f}' {
        if contains(&first.to_string()) {
            assert!(TABLE.contains(&first.to_string().as_str()));
            found += 1;
        }
        for second in '\0'..='\u{7f}' {
            let candidate = format!("{first}{second}");
            if contains(&candidate) {
                assert!(TABLE.contains(&candidate.as_str()), "{candidate}");
                found += 1;
            }
        }
    }
    assert_eq!(found, 118);
}

#[test]
fn the_dictionary_minds_the_case() {
    assert!(contains("He"));
    assert!(!contains("he"));
    assert!(!contains("HE"));
    assert!(!contains("hE"));
    assert!(contains("H"));
    assert!(!contains("h"));
}

#[test]
fn the_dictionary_holds_no_other_length() {
    assert!(!contains(""));
    assert!(!contains("Uue"));
    assert!(!contains("H "));
    assert!(!contains(" H"));
    assert!(!contains("\u{e9}"));
}

#[test]
fn the_tables_by_letter_agree_with_the_dictionary() {
    assert!(is_one_letter_symbol('W'));
    assert!(!is_one_letter_symbol('w'));
    assert!(!is_one_letter_symbol('A'));
    assert!(is_two_letter_symbol('O', 'g'));
    assert!(!is_two_letter_symbol('O', 'G'));
    assert!(!is_two_letter_symbol('U', 'u'));
    for symbol in TABLE {
        let letters: Vec<char> = symbol.chars().collect();
        if letters.len() == 1 {
            assert!(is_one_letter_symbol(letters[0]));
        } else {
            assert!(is_two_letter_symbol(letters[0], letters[1]));
        }
    }
}
