use nfamatch::char_map::CharMap;
use nfamatch::nfa::Nfa;
use nfamatch::nfa_row::{accepting_of, get_char_map, get_num_states, get_transitions,
    make_indexable, Row};

/// The NFA of scenario A: states {0, 1}, alphabet {a}, an epsilon edge from 0
/// to 1, state 1 accepting.
fn epsilon_nfa() -> Nfa {
    let character_map = CharMap::new(vec!['l', 'a']).unwrap();
    let transitions = vec![
        vec![vec![1], vec![]], // state 0: epsilon to 1, nothing on a
        vec![vec![], vec![]],  // state 1: no edges
    ];
    let accepting = vec![false, true];
    Nfa::new('l', transitions, accepting, character_map)
}

/// Builds an NFA from description lines the way a reader of the text format
/// would: parse each row, renumber ids densely, and assemble the parts.
fn nfa_of_lines(first_line: &str, lines: &[&str]) -> Nfa {
    let num_states = get_num_states(first_line).unwrap();
    let (character_map, lambda) = get_char_map(first_line).unwrap();
    let mut rows: Vec<Row> = Vec::new();
    for line in lines {
        rows.push(Row::from_str_custom(line).unwrap());
    }
    make_indexable(&mut rows);
    for row in rows.iter() {
        assert!(row.get_from_id() < num_states && row.get_to_id() < num_states);
        for c in row.get_transitions().iter() {
            assert!(character_map.index_of(*c).is_some());
        }
    }
    let transitions = get_transitions(&rows, &character_map, num_states);
    let accepting = accepting_of(&rows, num_states);
    Nfa::new(lambda, transitions, accepting, character_map)
}

#[test]
fn nfa_check_wf_accepts_the_sound_and_rejects_the_broken() {
    assert!(epsilon_nfa().check_wf());
    let broken = Nfa::new(
        'l',
        vec![vec![vec![9], vec![]]],
        vec![false],
        CharMap::new(vec!['l', 'a']).unwrap(),
    );
    assert!(!broken.check_wf());
}

#[test]
fn follow_lambda_closes_over_epsilon_edges() {
    let nfa = epsilon_nfa();
    let closure = nfa.follow_lambda(&vec![true, false]);
    assert_eq!(closure, vec![true, true]);
    let closure1 = nfa.follow_lambda(&vec![false, true]);
    assert_eq!(closure1, vec![false, true]);
}

#[test]
fn follow_char_steps_once() {
    let character_map = CharMap::new(vec!['l', 'a']).unwrap();
    let transitions = vec![
        vec![vec![], vec![1]],
        vec![vec![], vec![0, 1]],
    ];
    let nfa = Nfa::new('l', transitions, vec![false, true], character_map);
    assert_eq!(nfa.follow_char(&vec![true, false], 1), vec![false, true]);
    assert_eq!(nfa.follow_char(&vec![false, true], 1), vec![true, true]);
    assert_eq!(nfa.follow_char(&vec![true, true], 0), vec![false, false]);
}

#[test]
fn scenario_a_epsilon_closure_matching() {
    let nfa = epsilon_nfa();
    let table = nfa.to_dfa();
    let dfa_map = nfa.character_map().drop_first();
    // The closure of the start state holds the accepting state 1, so the
    // empty word matches; no a-transition leads anywhere useful.
    assert_eq!(table.does_match("", &dfa_map), None);
    assert_eq!(table.does_match("a", &dfa_map), Some(1));
}

#[test]
fn lambda_char_and_character_map_are_exposed() {
    let nfa = epsilon_nfa();
    assert_eq!(nfa.lambda_char(), 'l');
    assert_eq!(nfa.character_map().len(), 2);
    assert_eq!(nfa.character_map().index_of('a'), Some(1));
}

#[test]
fn full_pipeline_matches_a_star_b() {
    // Language a*b: state 0 loops on a, steps to the accepting state 1 on b.
    let nfa = nfa_of_lines("2 l a b", &["- 0 0 a", "- 0 1 b", "+ 1 1"]);
    assert!(nfa.check_wf());
    let mut table = nfa.to_dfa();
    assert!(table.check_wf());
    table.optimize();
    let dfa_map = nfa.character_map().drop_first();
    assert_eq!(table.does_match("b", &dfa_map), None);
    assert_eq!(table.does_match("aab", &dfa_map), None);
    assert_eq!(table.does_match("", &dfa_map), Some(0));
    assert_eq!(table.does_match("aba", &dfa_map), Some(3));
    assert_eq!(table.does_match("ax", &dfa_map), Some(2));
}

#[test]
fn accepting_of_collects_marked_sources() {
    let rows = vec![
        Row::new(false, 0, 1, vec!['a']),
        Row::new(true, 1, 1, vec![]),
    ];
    let acc = accepting_of(&rows, 2);
    assert_eq!(acc, vec![false, true]);
}

#[test]
fn get_transitions_places_edges_by_symbol_index() {
    let character_map = CharMap::new(vec!['l', 'a']).unwrap();
    let rows = vec![
        Row::new(false, 0, 1, vec!['a', 'l']),
        Row::new(false, 1, 0, vec!['a']),
    ];
    let t = get_transitions(&rows, &character_map, 2);
    assert_eq!(t.len(), 2);
    assert_eq!(t[0].len(), 2);
    assert_eq!(t[0][0], vec![1]); // epsilon edge 0 -> 1
    assert_eq!(t[0][1], vec![1]); // a edge 0 -> 1
    assert_eq!(t[1][1], vec![0]); // a edge 1 -> 0
    assert!(t[1][0].is_empty());
}
