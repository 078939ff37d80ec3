use nfamatch::char_map::{CharMap, DuplicateSymbolError};
use nfamatch::nfa_row::{get_char_map, get_num_states, make_indexable, Row};

#[test]
fn it_works() {
    assert_eq!(2 + 2, 4);
}

#[test]
#[should_panic]
fn test_empty_str_parse() {
    let r = Row::from_str_custom("");
    r.unwrap();
}

#[test]
fn test_accept_str_parse_accepting() {
    let r = Row::from_str_custom("+ 0 1 a b c").unwrap();
    assert_eq!(r.get_accepting_state(), true);
    assert_eq!(r.get_from_id(), 0);
    assert_eq!(r.get_to_id(), 1);
    assert_eq!(*r.get_transitions(), vec!['a', 'b', 'c']);
}

#[test]
fn test_accept_str_parse_non_accepting() {
    let r = Row::from_str_custom("- 0 1 a b c").unwrap();
    assert_eq!(r.get_accepting_state(), false);
    assert_eq!(r.get_from_id(), 0);
    assert_eq!(r.get_to_id(), 1);
    assert_eq!(*r.get_transitions(), vec!['a', 'b', 'c']);
}

#[test]
fn parse_row_without_symbols() {
    let r = Row::from_str_custom("+ 4 2").unwrap();
    assert_eq!(r.get_accepting_state(), true);
    assert_eq!(r.get_from_id(), 4);
    assert_eq!(r.get_to_id(), 2);
    assert!(r.get_transitions().is_empty());
}

#[test]
fn parse_row_rejects_bad_mark() {
    assert!(Row::from_str_custom("* 0 1 a").is_err());
}

#[test]
fn parse_row_rejects_bad_id() {
    assert!(Row::from_str_custom("+ x 1 a").is_err());
    assert!(Row::from_str_custom("+ 0 9y a").is_err());
}

#[test]
fn parse_row_rejects_too_few_fields() {
    assert!(Row::from_str_custom("+ 0").is_err());
}

#[test]
fn parse_row_rejects_long_symbol() {
    assert!(Row::from_str_custom("+ 0 1 ab").is_err());
}

#[test]
fn parse_row_rejects_overflowing_id() {
    assert!(Row::from_str_custom("+ 99999999999999999999999999999 1 a").is_err());
}

#[test]
fn num_states_of_first_line() {
    assert_eq!(get_num_states("3 l a b"), Some(3));
    assert_eq!(get_num_states("   12   x"), Some(12));
    assert_eq!(get_num_states(""), None);
    assert_eq!(get_num_states("x l a"), None);
}

#[test]
fn char_map_of_first_line() {
    let (m, lambda) = get_char_map("3 l a b").unwrap();
    assert_eq!(lambda, 'l');
    assert_eq!(m.symbols, vec!['l', 'a', 'b']);
    assert_eq!(m.index_of('a'), Some(1));
    assert_eq!(m.index_of('z'), None);
}

#[test]
fn char_map_of_first_line_rejects_duplicates_and_long_symbols() {
    assert!(get_char_map("3 l a a").is_none());
    assert!(get_char_map("3 la b").is_none());
    assert!(get_char_map("3").is_none());
}

#[test]
fn char_map_rejects_duplicate_symbol() {
    assert_eq!(CharMap::new(vec!['a', 'b', 'a']).err(), Some(DuplicateSymbolError));
    let m = CharMap::new(vec!['a', 'b']).unwrap();
    assert_eq!(m.len(), 2);
    assert_eq!(m.index_of('b'), Some(1));
}

#[test]
fn make_indexable_renumbers_in_first_appearance_order() {
    let mut rows = vec![
        Row::new(false, 5, 7, vec!['a']),
        Row::new(true, 7, 0, vec!['b']),
    ];
    make_indexable(&mut rows);
    // Scan order of ids is 0 (always first), then 5, then 7.
    assert_eq!(rows[0].get_from_id(), 1);
    assert_eq!(rows[0].get_to_id(), 2);
    assert_eq!(rows[1].get_from_id(), 2);
    assert_eq!(rows[1].get_to_id(), 0);
}
