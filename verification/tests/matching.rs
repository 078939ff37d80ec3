use nfamatch::char_map::CharMap;
use nfamatch::row::Row;
use nfamatch::table::Table;

fn ab_map() -> CharMap {
    CharMap::new(vec!['a', 'b']).unwrap()
}

fn scenario_b_table() -> Table {
    let rows = vec![
        Row::new(false, 0, vec![Some(1), Some(2)]),
        Row::new(false, 1, vec![Some(3), Some(3)]),
        Row::new(false, 2, vec![Some(3), Some(3)]),
        Row::new(true, 3, vec![Some(3), Some(3)]),
    ];
    Table::new(rows, 4)
}

#[test]
fn lib_it_works() {
    assert_eq!(2 + 2, 4);
}

#[test]
fn match_on_empty_table_fails_at_zero() {
    let t = Table::blank_table(0);
    assert_eq!(t.does_match("a", &ab_map()), Some(0));
}

#[test]
fn match_empty_input_on_rejecting_start_fails_at_zero() {
    let t = scenario_b_table();
    assert_eq!(t.does_match("", &ab_map()), Some(0));
}

#[test]
fn match_reports_position_of_unknown_character() {
    let t = scenario_b_table();
    assert_eq!(t.does_match("az", &ab_map()), Some(2));
}

#[test]
fn match_reports_position_after_exhausted_input() {
    let t = scenario_b_table();
    // "a" ends in state 1, which rejects: position is length + 1.
    assert_eq!(t.does_match("a", &ab_map()), Some(2));
}

#[test]
fn match_accepts_scenario_b_words() {
    let t = scenario_b_table();
    assert_eq!(t.does_match("ab", &ab_map()), None);
    assert_eq!(t.does_match("ba", &ab_map()), None);
}

#[test]
fn optimize_merges_equivalent_states() {
    let mut t = scenario_b_table();
    t.optimize();
    let rows = t.rows();
    assert_eq!(rows.len(), 3);
    assert_eq!(rows[0].is_accepting(), false);
    assert_eq!(*rows[0].transitions(), vec![Some(1), Some(1)]);
    assert_eq!(rows[1].is_accepting(), false);
    assert_eq!(*rows[1].transitions(), vec![Some(2), Some(2)]);
    assert_eq!(rows[2].is_accepting(), true);
    assert_eq!(*rows[2].transitions(), vec![Some(2), Some(2)]);
    assert_eq!(t.does_match("ab", &ab_map()), None);
    assert_eq!(t.does_match("", &ab_map()), Some(0));
}

#[test]
fn optimize_removes_dead_self_loop_state() {
    // State 1 rejects, only loops to itself, and nothing reaches it: it must
    // not survive.
    let rows = vec![
        Row::new(true, 0, vec![None]),
        Row::new(false, 1, vec![Some(1)]),
    ];
    let mut t = Table::new(rows, 2);
    t.optimize();
    assert_eq!(t.rows().len(), 1);
    assert!(t.rows()[0].is_accepting());
    assert_eq!(*t.rows()[0].transitions(), vec![None]);
}

#[test]
fn optimize_is_idempotent_on_scenario_b() {
    let mut once = scenario_b_table();
    once.optimize();
    let mut twice = scenario_b_table();
    twice.optimize();
    twice.optimize();
    assert_eq!(once.rows().len(), twice.rows().len());
    for (a, b) in once.rows().iter().zip(twice.rows().iter()) {
        assert_eq!(a.is_accepting(), b.is_accepting());
        assert_eq!(a.id, b.id);
        assert_eq!(*a.transitions(), *b.transitions());
    }
}

#[test]
fn optimize_leaves_no_dangling_transition() {
    let mut t = scenario_b_table();
    t.optimize();
    let n = t.rows().len();
    for (i, row) in t.rows().iter().enumerate() {
        assert_eq!(row.id, i);
        for tr in row.transitions().iter() {
            if let Some(target) = tr {
                assert!(*target < n);
            }
        }
    }
}

#[test]
fn optimize_preserves_language_on_samples() {
    let unoptimized = scenario_b_table();
    let mut optimized = scenario_b_table();
    optimized.optimize();
    let m = ab_map();
    for w in ["", "a", "b", "ab", "ba", "aa", "bb", "aba", "abab", "bab"] {
        assert_eq!(
            unoptimized.does_match(w, &m).is_none(),
            optimized.does_match(w, &m).is_none()
        );
    }
}

#[test]
fn optimize_keeps_start_accepting_flag() {
    let rows = vec![
        Row::new(true, 0, vec![Some(1)]),
        Row::new(true, 1, vec![None]),
    ];
    let mut t = Table::new(rows, 2);
    t.optimize();
    assert!(t.rows()[0].is_accepting());
}

#[test]
fn remove_row_id_clears_references() {
    let rows = vec![
        Row::new(true, 0, vec![Some(1), Some(2)]),
        Row::new(false, 1, vec![Some(0), None]),
        Row::new(true, 2, vec![None, Some(1)]),
    ];
    let mut t = Table::new(rows, 3);
    t.remove_row_id(1);
    assert_eq!(t.rows().len(), 2);
    assert_eq!(*t.rows()[0].transitions(), vec![None, Some(1)]);
    assert_eq!(*t.rows()[1].transitions(), vec![None, None]);
}

#[test]
fn optimize_merges_equivalent_but_distinct_rows() {
    // Rows 1 and 2 accept exactly the same suffixes through different
    // self-loops: only partition refinement can tell they are one state.
    let rows = vec![
        Row::new(false, 0, vec![Some(1), Some(2)]),
        Row::new(true, 1, vec![Some(1), Some(1)]),
        Row::new(true, 2, vec![Some(2), Some(2)]),
    ];
    let mut t = Table::new(rows, 3);
    t.optimize();
    assert_eq!(t.rows().len(), 2);
    assert_eq!(*t.rows()[0].transitions(), vec![Some(1), Some(1)]);
    assert!(!t.rows()[0].is_accepting());
    assert_eq!(*t.rows()[1].transitions(), vec![Some(1), Some(1)]);
    assert!(t.rows()[1].is_accepting());
}

#[test]
fn optimize_collapses_all_rejecting_table() {
    // Nothing reaches acceptance: one rejecting start row remains, with
    // every transition absent, self-loops included.
    let rows = vec![
        Row::new(false, 0, vec![Some(0), Some(1)]),
        Row::new(false, 1, vec![Some(1), Some(0)]),
    ];
    let mut t = Table::new(rows, 2);
    t.optimize();
    assert_eq!(t.rows().len(), 1);
    assert!(!t.rows()[0].is_accepting());
    assert_eq!(*t.rows()[0].transitions(), vec![None, None]);
}

#[test]
fn merge_two_accepts_either_order() {
    let rows = vec![
        Row::new(false, 0, vec![Some(1), Some(2)]),
        Row::new(true, 1, vec![None, None]),
        Row::new(false, 2, vec![None, None]),
    ];
    let mut t = Table::new(rows, 3);
    // The kept row carries the larger id here: row 1 is removed, row 2
    // becomes row 1 and takes the OR of the accepting flags.
    t.merge_two(2, 1);
    assert_eq!(t.rows().len(), 2);
    assert!(t.rows()[1].is_accepting());
    assert_eq!(*t.rows()[0].transitions(), vec![Some(1), Some(1)]);
}

#[test]
fn merge_two_retargets_and_renumbers() {
    let rows = vec![
        Row::new(false, 0, vec![Some(1), Some(2)]),
        Row::new(false, 1, vec![Some(3), Some(3)]),
        Row::new(true, 2, vec![Some(3), Some(3)]),
        Row::new(true, 3, vec![None, None]),
    ];
    let mut t = Table::new(rows, 4);
    t.merge_two(1, 2);
    assert_eq!(t.rows().len(), 3);
    // Row 1 took the OR of the accepting flags and every reference to old
    // row 2 now names row 1; old row 3 became row 2.
    assert!(t.rows()[1].is_accepting());
    assert_eq!(*t.rows()[0].transitions(), vec![Some(1), Some(1)]);
    assert_eq!(*t.rows()[1].transitions(), vec![Some(2), Some(2)]);
}

#[test]
fn to_line_renders_the_table_text_format() {
    let r = Row::new(true, 3, vec![Some(1), None, Some(40)]);
    assert_eq!(r.to_line(), "+ 3 1 E 40");
    let r2 = Row::new(false, 17, vec![]);
    assert_eq!(r2.to_line(), "- 17");
    let back = Row::from_str_custom(&r.to_line()).unwrap();
    assert_eq!(back.is_accepting(), true);
    assert_eq!(back.id, 3);
    assert_eq!(*back.transitions(), vec![Some(1), None, Some(40)]);
}

#[test]
fn check_wf_accepts_sound_tables_and_rejects_broken_ones() {
    let t = scenario_b_table();
    assert!(t.check_wf());
    let bad = Table::new(vec![Row::new(false, 0, vec![Some(5)])], 1);
    assert!(!bad.check_wf());
    let bad_id = Table::new(vec![Row::new(false, 7, vec![None])], 1);
    assert!(!bad_id.check_wf());
}

#[test]
fn parse_table_row_reads_marks_ids_and_absent_entries() {
    let r = Row::from_str_custom("+ 3 1 E 0").unwrap();
    assert!(r.is_accepting());
    assert_eq!(r.id, 3);
    assert_eq!(*r.transitions(), vec![Some(1), None, Some(0)]);
    let r2 = Row::from_str_custom("- 0").unwrap();
    assert!(!r2.is_accepting());
    assert!(r2.transitions().is_empty());
}

#[test]
fn parse_table_row_rejects_malformed_lines() {
    assert!(Row::from_str_custom("").is_err());
    assert!(Row::from_str_custom("+").is_err());
    assert!(Row::from_str_custom("x 0 1").is_err());
    assert!(Row::from_str_custom("+ q 1").is_err());
    assert!(Row::from_str_custom("+ 0 EE").is_err());
    assert!(Row::from_str_custom("+ 0 1 z").is_err());
}

#[test]
fn leads_to_accepting_sees_through_cycles() {
    // 0 -> 1 -> 2 (accepting), 3 loops to itself and goes nowhere else.
    let rows = vec![
        Row::new(false, 0, vec![Some(1)]),
        Row::new(false, 1, vec![Some(2)]),
        Row::new(true, 2, vec![Some(0)]),
        Row::new(false, 3, vec![Some(3)]),
    ];
    let t = Table::new(rows, 4);
    assert!(t.leads_to_accepting(0));
    assert!(t.leads_to_accepting(2));
    assert!(!t.leads_to_accepting(3));
}

#[test]
fn push_row_appends() {
    let mut t = Table::blank_table(1);
    t.push_row(Row::blank_row(true, 0, 1));
    assert_eq!(t.rows().len(), 1);
    assert!(t.rows()[0].is_accepting());
    assert_eq!(*t.rows()[0].transitions(), vec![None]);
}
