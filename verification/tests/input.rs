use logic_toolkit::input::{
    is_done, minterm_entry, minterm_from_values, select_bits, variables_entry, MintermEntry,
    VariablesEntry,
};

fn names(line: &str) -> Option<Vec<String>> {
    match variables_entry(line) {
        VariablesEntry::Names(ns) => Some(ns),
        _ => None,
    }
}

fn bits(line: &str, n: usize) -> Option<Vec<u8>> {
    match minterm_entry(line, n) {
        MintermEntry::Bits(b) => Some(b),
        _ => None,
    }
}

#[test]
fn variable_names_are_the_words_of_the_line() {
    assert_eq!(names("A B C"), Some(vec!["A".to_string(), "B".to_string(), "C".to_string()]));
    assert_eq!(names("  x1\t y "), Some(vec!["x1".to_string(), "y".to_string()]));
    assert_eq!(names("single"), Some(vec!["single".to_string()]));
}

#[test]
fn an_empty_line_and_a_blank_line_differ() {
    assert!(matches!(variables_entry(""), VariablesEntry::Blank));
    assert!(matches!(variables_entry("   "), VariablesEntry::NoNames));
    assert!(matches!(variables_entry("\t"), VariablesEntry::NoNames));
}

#[test]
fn a_row_of_bits_is_read() {
    assert_eq!(bits("0 1 1", 3), Some(vec![0, 1, 1]));
    assert_eq!(bits("1", 1), Some(vec![1]));
    assert_eq!(bits("", 0), Some(vec![]));
}

#[test]
fn what_is_no_bit_is_passed_over() {
    assert_eq!(bits("0 2 1 1", 3), Some(vec![0, 1, 1]));
    assert_eq!(bits("0 x 1", 2), Some(vec![0, 1]));
    assert_eq!(bits("256 1 -1", 1), Some(vec![1]));
    assert_eq!(bits("+1 01 000", 3), Some(vec![1, 1, 0]));
}

#[test]
fn a_bit_is_an_optional_plus_and_decimal_digits() {
    assert_eq!(bits("+0 +01 1 0000", 4), Some(vec![0, 1, 1, 0]));
    assert_eq!(bits("+ ++1 1+ -0 0x1 1.0 \u{661} 1", 1), Some(vec![1]));
    assert_eq!(bits("255 0256 00000000000000000000001", 1), Some(vec![1]));
}

#[test]
fn a_row_of_the_wrong_length_is_rejected() {
    assert!(matches!(minterm_entry("0 1", 3), MintermEntry::Rejected));
    assert!(matches!(minterm_entry("0 1 1 0", 3), MintermEntry::Rejected));
    assert!(matches!(minterm_entry("0 2 1", 3), MintermEntry::Rejected));
    assert!(matches!(minterm_entry("", 1), MintermEntry::Rejected));
    assert!(matches!(minterm_entry("011", 3), MintermEntry::Rejected));
}

#[test]
fn the_closing_word_ends_the_entry_in_any_case() {
    assert!(matches!(minterm_entry("gata", 3), MintermEntry::Done));
    assert!(matches!(minterm_entry("GATA", 0), MintermEntry::Done));
    assert!(matches!(minterm_entry("GaTa", 2), MintermEntry::Done));
    assert!(is_done("gAtA"));
    assert!(!is_done("gata "));
    assert!(!is_done("gat"));
    assert!(!is_done("gara"));
    assert!(!is_done(""));
    assert!(matches!(minterm_entry(" gata", 0), MintermEntry::Bits(ref b) if b.is_empty()));
}

#[test]
fn bits_are_chosen_from_given_values() {
    assert_eq!(select_bits(&vec![Some(1), None, Some(7), Some(0), Some(255), Some(1)]), vec![1, 0, 1]);
    assert_eq!(select_bits(&vec![]), Vec::<u8>::new());
    assert!(matches!(
        minterm_from_values("line", &vec![Some(0), None, Some(1)], 2),
        MintermEntry::Bits(ref b) if *b == vec![0, 1]
    ));
    assert!(matches!(minterm_from_values("line", &vec![Some(0)], 2), MintermEntry::Rejected));
    assert!(matches!(minterm_from_values("gata", &vec![Some(0), Some(1)], 2), MintermEntry::Done));
}
