//! The mutable DFA table: an ordered sequence of rows plus the row-assignment
//! indirection, with the matcher and the minimization engine.
//!
//! At the end of every structural edit (dead-state removal, merge) the rows
//! are renumbered to a dense canonical id space with the start state fixed at
//! row 0, and the row-assignment map is recomputed to the identity, so that
//! resolving an id always returns a currently-valid row index and no
//! indirection remains.

use vstd::prelude::*;

use crate::char_map::CharMap;
use crate::row::{Row, RowV};
use crate::semantics::{
    accepts_sym, alive_keep, all_targets_alive, class_keep, classes_acc, classes_canonical,
    classes_distinguish, classes_stable, clear_rel, compact_target, compacted_row, count_true,
    dead_closed, dead_rejecting, dead_removed_row, dead_start_filter, group_keep, group_or, group_redirect,
    identity_redirect, lang_equiv, lemma_class_merge_lang, lemma_clear_lang,
    lemma_clear_preserves_reach, lemma_compact_preserves_reach, lemma_compact_result_wf,
    lemma_count_lt_if_false, lemma_count_true_update, lemma_dead_closed_complete,
    lemma_dead_removal_facts, lemma_dead_removal_lang, lemma_dead_start_stays_dead,
    lemma_lang_equiv_refl, lemma_lang_equiv_trans, lemma_merge_lang, lemma_rank_all_true,
    lemma_rank_between_zero, lemma_rank_bounds, lemma_rank_inverse, lemma_rank_monotone,
    lemma_rank_split_at,
    lemma_reach_gives_word, lemma_reach_step, lemma_round_canonical, lemma_round_distinguish,
    lemma_round_progress, lemma_round_refines, lemma_round_stable, lemma_stable_equiv,
    covered_state, lemma_clear_word, lemma_dead_removal_word, lemma_states_covered_refl,
    lemma_states_covered_trans,
    lemma_word_gives_reach, match_from, match_result_is, merged_accepting, minimal, pair_group,
    same_state_lang, states_covered,
    rank, reaches_accepting, reaches_in, remove_keep, round_assigned, rows_equal, sig_equal, start_resolved,
    state_equiv, table_match, table_wf, tclass, width,
};

verus! {

/// A DFA transition table: rows in id order, and the logical-id-to-row
/// assignment, identity whenever the table is at rest.
pub struct Table {
    pub row_assignments: Vec<usize>,
    pub rows: Vec<Row>,
}

impl View for Table {
    type V = Seq<RowV>;

    open spec fn view(&self) -> Seq<RowV> {
        self.rows@.map(|i: int, r: Row| r@)
    }
}

impl Table {
    /// The table is at rest: structurally well formed, and the assignment map
    /// is the identity on the current rows.
    pub open spec fn wf(self) -> bool {
        &&& table_wf(self@)
        &&& self.row_assignments@.len() == self.rows@.len()
        &&& forall|i: int|
            0 <= i < self.row_assignments@.len() ==> #[trigger] self.row_assignments@[i] == i
    }

    /// The shared transition-vector width.
    pub open spec fn spec_width(self) -> nat {
        width(self@)
    }

    /// A table over the given rows, with the assignment map set to the
    /// identity on `num_rows` logical ids.
    pub fn new(rows: Vec<Row>, num_rows: usize) -> (r: Table)
        ensures
            r@ == rows@.map(|i: int, x: Row| x@),
            r.row_assignments@.len() == num_rows,
            forall|i: int| 0 <= i < num_rows ==> #[trigger] r.row_assignments@[i] == i,
    {
        let row_assignments = identity_assignments(num_rows);
        Table { rows, row_assignments }
    }

    /// An empty table, its assignment map preset for `size` logical ids.
    pub fn blank_table(size: usize) -> (r: Table)
        ensures
            r@.len() == 0,
            r.row_assignments@.len() == size,
            forall|i: int| 0 <= i < size ==> #[trigger] r.row_assignments@[i] == i,
    {
        let row_assignments = identity_assignments(size);
        Table { rows: Vec::new(), row_assignments }
    }

    /// The rows, in id order.
    pub fn rows(&self) -> (r: &Vec<Row>)
        ensures
            r@.map(|i: int, x: Row| x@) == self@,
    {
        &self.rows
    }

    /// Mutable access to the rows.
    pub fn rows_mut(&mut self) -> (r: &mut Vec<Row>)
        ensures
            r@ == old(self).rows@,
            final(self).rows@ == final(r)@,
            final(self).row_assignments@ == old(self).row_assignments@,
    {
        &mut self.rows
    }

    /// Appends a row.
    pub fn push_row(&mut self, row: Row)
        ensures
            final(self)@ == old(self)@.push(row@),
            final(self).row_assignments@ == old(self).row_assignments@,
    {
        self.rows.push(row);
        proof {
            assert(final(self)@ =~= old(self)@.push(row@));
        }
    }

    /// Reports whether the table is at rest and well formed: dense ids, one
    /// shared transition-vector width, every transition target an existing
    /// row, and the assignment map the identity. A caller holding a table of
    /// unknown provenance tests this before matching or minimizing.
    pub fn check_wf(&self) -> (r: bool)
        ensures
            r == self.wf(),
    {
        let n = self.rows.len();
        if self.row_assignments.len() != n {
            return false;
        }
        let w: usize = if n > 0 {
            proof {
                assert(self@[0] == self.rows@[0]@);
            }
            self.rows[0].transitions.len()
        } else {
            0
        };
        proof {
            assert(w == width(self@));
        }
        for i in 0..n
            invariant
                n == self@.len(),
                n == self.rows@.len(),
                n == self.row_assignments@.len(),
                w == width(self@),
                forall|k: int| 0 <= k < i ==> (#[trigger] self@[k]).id == k,
                forall|k: int| 0 <= k < i ==> (#[trigger] self@[k]).transitions.len() == w,
                forall|k: int, c: int|
                    0 <= k < i && 0 <= c < self@[k].transitions.len() ==> ((
                    #[trigger] self@[k].transitions[c]) matches Some(t) ==> t < n),
                forall|k: int| 0 <= k < i ==> #[trigger] self.row_assignments@[k] == k,
        {
            proof {
                assert(self@[i as int] == self.rows@[i as int]@);
            }
            if self.rows[i].id != i {
                return false;
            }
            if self.rows[i].transitions.len() != w {
                return false;
            }
            if self.row_assignments[i] != i {
                return false;
            }
            let m = self.rows[i].transitions.len();
            for c in 0..m
                invariant
                    n == self@.len(),
                    n == self.rows@.len(),
                    i < n,
                    m == self@[i as int].transitions.len(),
                    forall|c2: int|
                        0 <= c2 < c ==> ((#[trigger] self@[i as int].transitions[c2]) matches Some(
                            t,
                        ) ==> t < n),
            {
                proof {
                    assert(self@[i as int] == self.rows@[i as int]@);
                }
                match self.rows[i].transitions[c] {
                    Some(t) => {
                        if t >= n {
                            return false;
                        }
                    },
                    None => {},
                }
            }
        }
        true
    }

    /// Reports "matched" as `None`, or the 1-based position of the first
    /// character that could not be followed: `0` for an empty table or for an
    /// empty input that the start state rejects, `i + 1` for a failure at the
    /// character with 0-based index `i`, and `len + 1` for an exhausted input
    /// ending in a rejecting state.
    pub fn does_match(&self, input: &str, mapping: &CharMap) -> (r: Option<usize>)
        requires
            self.wf(),
            mapping.wf(),
            input@.len() < usize::MAX,
        ensures
            match_result_is(r, table_match(self@, mapping.as_map(), input@)),
    {
        let n = input.unicode_len();
        if self.rows.len() == 0 {
            return Some(0);
        }
        if n == 0 && !self.rows[0].is_accepting() {
            return Some(0);
        }
        let ghost cmap = mapping.as_map();
        let mut state: usize = 0;
        let mut i: usize = 0;
        while i < n
            invariant
                self.wf(),
                mapping.wf(),
                cmap == mapping.as_map(),
                n == input@.len(),
                n < usize::MAX,
                i <= n,
                state < self@.len(),
                match_from(self@, cmap, input@, 0, 0) == match_from(
                    self@,
                    cmap,
                    input@,
                    i as int,
                    state as int,
                ),
            decreases n - i,
        {
            let ch = input.get_char(i);
            proof {
                assert(self@[state as int] == self.rows@[state as int]@);
            }
            match mapping.index_of(ch) {
                None => {
                    return Some(i + 1);
                },
                Some(ci) => {
                    if ci >= self.rows[state].transitions.len() {
                        return Some(i + 1);
                    }
                    match self.rows[state].transitions[ci] {
                        None => {
                            return Some(i + 1);
                        },
                        Some(ns) => {
                            state = ns;
                        },
                    }
                },
            }
            i = i + 1;
        }
        proof {
            assert(self@[state as int] == self.rows@[state as int]@);
        }
        if self.rows[state].is_accepting() {
            None
        } else {
            Some(n + 1)
        }
    }

    /// Computes, for every state, whether some path (a path of length zero
    /// counts) leads from it to an accepting state: the states for which it
    /// does not are dead. Found as the least fixpoint of "accepting, or one
    /// transition away from a state already found", by an iterative worklist
    /// pass with an explicit set, so that cycles terminate.
    fn mark_alive(&self) -> (alive: Vec<bool>)
        requires
            self.wf(),
        ensures
            alive@.len() == self@.len(),
            forall|s: int|
                0 <= s < self@.len() ==> (#[trigger] alive@[s] <==> reaches_accepting(self@, s)),
    {
        let n = self.rows.len();
        let mut alive: Vec<bool> = Vec::new();
        for s in 0..n
            invariant
                n == self@.len(),
                self.wf(),
                alive@.len() == s,
                forall|k: int| 0 <= k < s ==> (#[trigger] alive@[k] == self@[k].accepting),
        {
            proof {
                assert(self@[s as int] == self.rows@[s as int]@);
            }
            alive.push(self.rows[s].is_accepting());
        }
        proof {
            assert forall|k: int| 0 <= k < n && alive@[k] implies reaches_accepting(
                self@,
                k,
            ) by {
                assert(reaches_in(self@, k, 0));
            }
        }
        proof {
            lemma_rank_bounds(alive@, n as int);
        }
        let mut changed = true;
        while changed
            invariant
                n == self@.len(),
                self.wf(),
                alive@.len() == n,
                forall|k: int| 0 <= k < n && #[trigger] alive@[k] ==> reaches_accepting(self@, k),
                forall|k: int| 0 <= k < n && self@[k].accepting ==> #[trigger] alive@[k],
                0 <= count_true(alive@) <= n,
                !changed ==> dead_closed(self@, alive@) && dead_rejecting(self@, alive@),
            decreases
                    n - count_true(alive@),
                    (if changed {
                        1int
                    } else {
                        0int
                    }),
        {
            proof {
                lemma_rank_bounds(alive@, n as int);
            }
            let ghost start = alive@;
            changed = false;
            for s in 0..n
                invariant
                    n == self@.len(),
                    self.wf(),
                    alive@.len() == n,
                    forall|k: int|
                        0 <= k < n && #[trigger] alive@[k] ==> reaches_accepting(self@, k),
                    forall|k: int| 0 <= k < n && self@[k].accepting ==> #[trigger] alive@[k],
                    !changed ==> alive@ == start,
                    changed ==> count_true(alive@) > count_true(start),
                    count_true(alive@) >= count_true(start),
                    0 <= count_true(alive@) <= n,
                    forall|k: int| 0 <= k < n && start[k] ==> #[trigger] alive@[k],
                    !changed ==> forall|k: int, c: int|
                        0 <= k < s && !alive@[k] && 0 <= c < self@[k].transitions.len() ==> ((
                        #[trigger] self@[k].transitions[c]) matches Some(t) ==> !alive@[t as int]),
            {
                if !alive[s] {
                    proof {
                        assert(self@[s as int] == self.rows@[s as int]@);
                    }
                    let w = self.rows[s].transitions.len();
                    let mut c: usize = 0;
                    let mut hit: bool = false;
                    while c < w
                        invariant
                            n == self@.len(),
                            self.wf(),
                            alive@.len() == n,
                            s < n,
                            w == self@[s as int].transitions.len(),
                            c <= w,
                            hit ==> (exists|d: int|
                                0 <= d < w && ((#[trigger] self@[s as int].transitions[d]) matches
                                    Some(t) && alive@[t as int])),
                            !hit ==> forall|d: int|
                                0 <= d < c ==> ((#[trigger] self@[s as int].transitions[d]) matches
                                    Some(t) ==> !alive@[t as int]),
                        decreases w - c,
                    {
                        proof {
                            assert(self@[s as int] == self.rows@[s as int]@);
                        }
                        match self.rows[s].transitions[c] {
                            Some(t) => {
                                if alive[t] {
                                    hit = true;
                                }
                            },
                            None => {},
                        }
                        c = c + 1;
                    }
                    if hit {
                        proof {
                            let d = choose|d: int|
                                0 <= d < w && ((#[trigger] self@[s as int].transitions[d]) matches
                                    Some(t) && alive@[t as int]);
                            match self@[s as int].transitions[d] {
                                Some(t) => {
                                    lemma_reach_step(self@, s as int, d, t);
                                },
                                None => {},
                            }
                            lemma_count_true_update(alive@, s as int);
                        }
                        alive[s] = true;
                        changed = true;
                        proof {
                            lemma_rank_bounds(alive@, n as int);
                        }
                    }
                }
            }
        }
        proof {
            assert forall|s: int|
                0 <= s < self@.len() implies (#[trigger] alive@[s] <==> reaches_accepting(
                self@,
                s,
            )) by {
                if reaches_accepting(self@, s) {
                    let f = choose|f: nat| reaches_in(self@, s, f);
                    lemma_dead_closed_complete(self@, alive@, s, f);
                }
            }
        }
        alive
    }

    /// Whether some path (a path of length zero counts) leads from `state` to
    /// an accepting state.
    pub fn leads_to_accepting(&self, state: usize) -> (r: bool)
        requires
            self.wf(),
            state < self@.len(),
        ensures
            r == reaches_accepting(self@, state as int),
    {
        let alive = self.mark_alive();
        alive[state]
    }

    /// Deletes every dead state but the start: a row from which no accepting
    /// state is reachable is removed, every transition into it is cleared,
    /// and the survivors are renumbered densely with the start state fixed at
    /// row 0. A table whose non-start states all reach acceptance comes back
    /// unchanged.
    /// Clears every transition that points at the start row, leaving all else
    /// as it was: run when the start is dead, so that no edge into it remains.
    fn clear_start_edges(&mut self)
        requires
            old(self).wf(),
        ensures
            final(self).wf(),
            final(self)@.len() == old(self)@.len(),
            forall|k: int|
                0 <= k < old(self)@.len() ==> ((#[trigger] final(self)@[k]).accepting == old(
                    self,
                )@[k].accepting && final(self)@[k].id == old(self)@[k].id
                    && final(self)@[k].transitions.len() == old(self)@[k].transitions.len()),
            forall|k: int, c: int|
                0 <= k < old(self)@.len() && 0 <= c < old(self)@[k].transitions.len()
                    ==> #[trigger] final(self)@[k].transitions[c] == (if old(
                    self,
                )@[k].transitions[c] == Some(0usize) {
                    None
                } else {
                    old(self)@[k].transitions[c]
                }),
    {
        let ghost pre = self@;
        let n = self.rows.len();
        let mut i: usize = 0;
        while i < n
            invariant
                n == self@.len(),
                n == self.rows@.len(),
                n == self.row_assignments@.len(),
                forall|k: int| 0 <= k < n ==> #[trigger] self.row_assignments@[k] == k,
                pre.len() == n,
                table_wf(pre),
                i <= n,
                forall|k: int|
                    0 <= k < n ==> ((#[trigger] self@[k]).accepting == pre[k].accepting
                        && self@[k].id == pre[k].id && self@[k].transitions.len()
                        == pre[k].transitions.len()),
                forall|k: int, c: int|
                    0 <= k < i && 0 <= c < pre[k].transitions.len()
                        ==> #[trigger] self@[k].transitions[c] == (if pre[k].transitions[c] == Some(
                        0usize,
                    ) {
                        None
                    } else {
                        pre[k].transitions[c]
                    }),
                forall|k: int, c: int|
                    i <= k < n && 0 <= c < pre[k].transitions.len()
                        ==> #[trigger] self@[k].transitions[c] == pre[k].transitions[c],
            decreases n - i,
        {
            let w = self.rows[i].transitions.len();
            proof {
                assert(self@[i as int] == self.rows@[i as int]@);
            }
            let mut c: usize = 0;
            while c < w
                invariant
                    n == self@.len(),
                    n == self.rows@.len(),
                    n == self.row_assignments@.len(),
                    forall|k: int| 0 <= k < n ==> #[trigger] self.row_assignments@[k] == k,
                    pre.len() == n,
                    table_wf(pre),
                    i < n,
                    w == pre[i as int].transitions.len(),
                    c <= w,
                    forall|k: int|
                        0 <= k < n ==> ((#[trigger] self@[k]).accepting == pre[k].accepting
                            && self@[k].id == pre[k].id && self@[k].transitions.len()
                            == pre[k].transitions.len()),
                    forall|k: int, c2: int|
                        0 <= k < i && 0 <= c2 < pre[k].transitions.len()
                            ==> #[trigger] self@[k].transitions[c2] == (if pre[k].transitions[c2]
                            == Some(0usize) {
                            None
                        } else {
                            pre[k].transitions[c2]
                        }),
                    forall|c2: int|
                        0 <= c2 < c ==> #[trigger] self@[i as int].transitions[c2] == (if pre[
                            i as int
                        ].transitions[c2] == Some(0usize) {
                            None
                        } else {
                            pre[i as int].transitions[c2]
                        }),
                    forall|c2: int|
                        c <= c2 < w ==> #[trigger] self@[i as int].transitions[c2] == pre[
                            i as int
                        ].transitions[c2],
                    forall|k: int, c2: int|
                        i < k < n && 0 <= c2 < pre[k].transitions.len()
                            ==> #[trigger] self@[k].transitions[c2] == pre[k].transitions[c2],
                decreases w - c,
            {
                proof {
                    assert(self@[i as int] == self.rows@[i as int]@);
                }
                let entry = self.rows[i].transitions[c];
                let ghost before = self@;
                let is_zero = match entry {
                    Some(t) => t == 0,
                    None => false,
                };
                if is_zero {
                    self.rows[i].transitions[c] = None;
                }
                proof {
                    if is_zero {
                        assert(self@[i as int] == self.rows@[i as int]@);
                        assert(self@[i as int].transitions =~= before[
                            i as int
                        ].transitions.update(c as int, None));
                        assert(self@[i as int].accepting == before[i as int].accepting);
                        assert(self@[i as int].id == before[i as int].id);
                    } else {
                        assert(self@ == before);
                    }
                    assert forall|k: int| 0 <= k < n && k != i implies #[trigger] self@[k]
                        == before[k] by {
                        assert(self@[k] == self.rows@[k]@);
                        assert(before[k] == before[k]);
                    }
                    assert forall|k: int|
                        0 <= k < n implies ((#[trigger] self@[k]).accepting == pre[k].accepting
                            && self@[k].id == pre[k].id && self@[k].transitions.len()
                            == pre[k].transitions.len()) by {
                        if k != i {
                            assert(self@[k] == before[k]);
                        }
                    }
                    assert forall|k: int, c2: int|
                        0 <= k < i && 0 <= c2 < pre[k].transitions.len()
                        implies #[trigger] self@[k].transitions[c2] == (if pre[k].transitions[c2]
                        == Some(0usize) {
                        None
                    } else {
                        pre[k].transitions[c2]
                    }) by {
                        assert(self@[k] == before[k]);
                        assert(before[k].transitions[c2] == (if pre[k].transitions[c2] == Some(
                            0usize,
                        ) {
                            None
                        } else {
                            pre[k].transitions[c2]
                        }));
                    }
                    assert forall|k: int, c2: int|
                        i < k < n && 0 <= c2 < pre[k].transitions.len()
                        implies #[trigger] self@[k].transitions[c2] == pre[k].transitions[c2] by {
                        assert(self@[k] == before[k]);
                        assert(before[k].transitions[c2] == pre[k].transitions[c2]);
                    }
                    assert forall|c2: int|
                        0 <= c2 < c + 1 implies #[trigger] self@[i as int].transitions[c2] == (
                        if pre[i as int].transitions[c2] == Some(0usize) {
                            None
                        } else {
                            pre[i as int].transitions[c2]
                        }) by {
                        if c2 < c {
                            assert(before[i as int].transitions[c2] == (if pre[
                                i as int
                            ].transitions[c2] == Some(0usize) {
                                None
                            } else {
                                pre[i as int].transitions[c2]
                            }));
                            if is_zero {
                                assert(self@[i as int].transitions[c2] == before[
                                    i as int
                                ].transitions[c2]);
                            }
                        } else {
                            assert(before[i as int].transitions[c2] == pre[
                                i as int
                            ].transitions[c2]);
                        }
                    }
                    assert forall|c2: int|
                        c + 1 <= c2 < w implies #[trigger] self@[i as int].transitions[c2] == pre[
                            i as int
                        ].transitions[c2] by {
                        assert(before[i as int].transitions[c2] == pre[i as int].transitions[c2]);
                        if is_zero {
                            assert(self@[i as int].transitions[c2] == before[
                                i as int
                            ].transitions[c2]);
                        }
                    }
                }
                c = c + 1;
            }
            i = i + 1;
        }
        proof {
            assert(table_wf(self@)) by {
                assert(width(self@) == width(pre)) by {
                    if n > 0 {
                        assert(self@[0].transitions.len() == pre[0].transitions.len());
                    }
                }
                assert forall|k: int, c: int|
                    0 <= k < n && 0 <= c < self@[k].transitions.len() implies ((
                #[trigger] self@[k].transitions[c]) matches Some(t) ==> t < n) by {
                    assert(pre[k].transitions[c] matches Some(t) ==> t < n);
                }
            }
        }
    }

    /// Deletes every dead state but the start: a row from which no accepting
    /// state is reachable is removed, every transition into it is cleared —
    /// afterwards every edge into the start itself, too, when the start is
    /// dead — and the survivors are renumbered densely with the start state
    /// fixed at row 0. A table with no dead non-start state and no edge into
    /// a dead start comes back unchanged; a table in which nothing at all
    /// reaches acceptance collapses to a single non-accepting start row with
    /// all transitions absent.
    #[verifier::rlimit(50)]
    pub fn remove_dead_branches(&mut self)
        requires
            old(self).wf(),
            old(self)@.len() >= 1,
        ensures
            final(self).wf(),
            1 <= final(self)@.len() <= old(self)@.len(),
            final(self)@.len() == count_true(alive_keep(old(self)@)),
            width(final(self)@) == width(old(self)@),
            final(self)@[0].accepting == old(self)@[0].accepting,
            forall|i: int| 1 <= i < final(self)@.len() ==> reaches_accepting(final(self)@, i),
            reaches_accepting(old(self)@, 0) ==> reaches_accepting(final(self)@, 0),
            start_resolved(final(self)@),
            all_targets_alive(final(self)@),
            forall|i: int|
                0 <= i < old(self)@.len() && alive_keep(old(self)@)[i] ==> final(self)@[rank(
                    alive_keep(old(self)@),
                    i,
                )] == #[trigger] dead_removed_row(old(self)@, i),
            ((forall|i: int| 1 <= i < old(self)@.len() ==> reaches_accepting(old(self)@, i))
                && start_resolved(old(self)@)) ==> final(self)@ == old(self)@,
            (forall|i: int| 0 <= i < old(self)@.len() ==> !reaches_accepting(old(self)@, i)) ==> (
            final(self)@.len() == 1 && !final(self)@[0].accepting && forall|c: int|
                0 <= c < width(final(self)@) ==> final(self)@[0].transitions[c] is None),
            lang_equiv(old(self)@, final(self)@),
            states_covered(old(self)@, final(self)@),
    {
        let n = self.rows.len();
        let alive = self.mark_alive();
        let alive0 = alive[0];
        let mut keep = alive;
        keep[0] = true;
        let redirect = identity_assignments(n);
        let ghost old_rows = self@;
        let ghost keeps = keep@;
        proof {
            lemma_rank_bounds(keeps, n as int);
            lemma_rank_monotone(keeps, 1, n as int);
            assert(rank(keeps, 0) == 0);
            assert(rank(keeps, 1) == 1);
            assert(keeps =~= alive_keep(old_rows));
            assert(redirect@ =~= identity_redirect(old_rows.len()));
        }
        self.compact(&keep, &redirect);
        let ghost mid_rows = self@;
        proof {
            lemma_dead_removal_facts(old_rows, keeps, redirect@, mid_rows);
            lemma_dead_removal_lang(old_rows, keeps, redirect@, mid_rows);
            if alive0 {
                assert(reaches_accepting(mid_rows, 0)) by {
                    let f = choose|f: nat| reaches_in(old_rows, 0, f);
                    lemma_compact_preserves_reach(old_rows, keeps, redirect@, mid_rows, 0, f);
                }
            } else {
                assert(!reaches_accepting(mid_rows, 0)) by {
                    if reaches_accepting(mid_rows, 0) {
                        let f = choose|f: nat| reaches_in(mid_rows, 0, f);
                        assert(mid_rows[0] == compacted_row(old_rows, keeps, redirect@, 0));
                        assert(mid_rows[0] == compacted_row(
                            old_rows,
                            alive_keep(old_rows),
                            identity_redirect(old_rows.len()),
                            0,
                        ));
                        lemma_dead_start_stays_dead(old_rows, mid_rows, f);
                    }
                }
            }
        }
        if !alive0 {
            self.clear_start_edges();
        }
        proof {
            let fin = self@;
            if !alive0 {
                assert(clear_rel(mid_rows, fin)) by {
                    assert forall|k: int, c: int|
                        0 <= k < mid_rows.len() && 0 <= c < mid_rows[k].transitions.len()
                        implies #[trigger] fin[k].transitions[c] == dead_start_filter(
                        reaches_accepting(mid_rows, 0),
                        mid_rows[k].transitions[c],
                    ) by {}
                }
                lemma_clear_lang(mid_rows, fin);
                lemma_lang_equiv_trans(old_rows, mid_rows, fin);
                assert forall|i: int| 1 <= i < fin.len() implies reaches_accepting(fin, i) by {
                    assert(reaches_accepting(mid_rows, i));
                    let f = choose|f: nat| reaches_in(mid_rows, i, f);
                    lemma_clear_preserves_reach(mid_rows, fin, i, f);
                    assert(reaches_in(fin, i, f));
                }
                // No edge into the start remains, so the start is resolved and
                // every present target reaches acceptance.
                assert(start_resolved(fin)) by {
                    assert forall|i: int, c: int|
                        0 <= i < fin.len() && 0 <= c < fin[i].transitions.len() implies (
                    #[trigger] fin[i].transitions[c]) != Some(0usize) by {}
                }
            } else {
                lemma_lang_equiv_refl(fin);
                lemma_lang_equiv_trans(old_rows, mid_rows, fin);
                assert(start_resolved(fin));
            }
            assert(all_targets_alive(fin)) by {
                assert forall|i: int, c: int|
                    0 <= i < fin.len() && 0 <= c < fin[i].transitions.len() implies ((
                #[trigger] fin[i].transitions[c]) matches Some(t) ==> reaches_accepting(
                    fin,
                    t as int,
                )) by {
                    match fin[i].transitions[c] {
                        Some(t) => {
                            if t == 0usize {
                                if !alive0 {
                                    assert(fin[i].transitions[c] != Some(0usize));
                                }
                            } else {
                                assert(reaches_accepting(fin, t as int));
                            }
                        },
                        None => {},
                    }
                }
            }
            // The exact row formula, with edges into a dead start cleared.
            assert forall|i: int|
                0 <= i < old_rows.len() && alive_keep(old_rows)[i] implies fin[rank(
                alive_keep(old_rows),
                i,
            )] == #[trigger] dead_removed_row(old_rows, i) by {
                let j = rank(alive_keep(old_rows), i);
                lemma_rank_bounds(keeps, i);
                lemma_rank_monotone(keeps, i, n as int);
                assert(mid_rows[j] == compacted_row(old_rows, keeps, redirect@, i));
                assert(alive0 == reaches_accepting(old_rows, 0));
                assert(fin[j].transitions =~= dead_removed_row(old_rows, i).transitions) by {
                    assert forall|c: int|
                        0 <= c < mid_rows[j].transitions.len() implies fin[j].transitions[c]
                            == dead_start_filter(
                            reaches_accepting(old_rows, 0),
                            compact_target(keeps, redirect@, old_rows[i].transitions[c]),
                        ) by {
                        if !alive0 {
                            assert(!reaches_accepting(mid_rows, 0));
                        }
                    }
                }
                assert(fin[j] =~= dead_removed_row(old_rows, i));
            }
            // Every surviving state still accepts exactly the strings it
            // accepted before.
            assert(states_covered(old_rows, fin)) by {
                assert forall|j: int|
                    0 <= j < fin.len() implies #[trigger] covered_state(old_rows, fin, j) by {
                    let i = lemma_rank_inverse(keeps, j);
                    assert(same_state_lang(old_rows, i, fin, j)) by {
                        assert forall|w: Seq<usize>|
                            #[trigger] accepts_sym(old_rows, i, w) == accepts_sym(fin, j, w) by {
                            lemma_dead_removal_word(old_rows, keeps, redirect@, mid_rows, i, w);
                            if !alive0 {
                                lemma_clear_word(mid_rows, fin, j, w);
                            }
                        }
                    }
                }
            }
            // A table that was already settled comes back unchanged.
            if (forall|i: int| 1 <= i < old_rows.len() ==> reaches_accepting(old_rows, i))
                && start_resolved(old_rows) {
                assert(mid_rows == old_rows);
                if !alive0 {
                    assert forall|k: int| 0 <= k < fin.len() implies fin[k] == mid_rows[k] by {
                        assert forall|c: int|
                            0 <= c < mid_rows[k].transitions.len() implies fin[k].transitions[c]
                                == mid_rows[k].transitions[c] by {
                            assert(mid_rows[k].transitions[c] != Some(0usize));
                        }
                        assert(fin[k].transitions =~= mid_rows[k].transitions);
                        assert(fin[k] =~= mid_rows[k]);
                    }
                    assert(fin =~= mid_rows);
                }
            }
            // A table in which nothing reaches acceptance collapses to one
            // all-rejecting start row.
            if forall|i: int| 0 <= i < old_rows.len() ==> !reaches_accepting(old_rows, i) {
                assert(count_true(keeps) == 1) by {
                    lemma_rank_split_at(keeps, 1, n as int);
                    lemma_rank_between_zero(keeps, 1, n as int);
                }
                assert(!fin[0].accepting) by {
                    if old_rows[0].accepting {
                        assert(reaches_in(old_rows, 0, 0));
                    }
                }
                assert forall|c: int|
                    0 <= c < width(fin) implies fin[0].transitions[c] is None by {
                    assert(fin[0] == dead_removed_row(old_rows, 0));
                    match old_rows[0].transitions[c] {
                        Some(t) => {
                            if t != 0usize {
                                assert(!alive_keep(old_rows)[t as int]);
                            }
                        },
                        None => {},
                    }
                }
            }
        }
    }

    /// Whether two states carry the same refinement signature under the given
    /// class assignment: same class, and for every symbol the same target
    /// class or both transitions absent.
    fn sig_eq(&self, class: &Vec<usize>, p: usize, q: usize) -> (r: bool)
        requires
            self.wf(),
            class@.len() == self@.len(),
            p < self@.len(),
            q < self@.len(),
        ensures
            r == sig_equal(self@, class@, p as int, q as int),
    {
        if class[p] != class[q] {
            return false;
        }
        proof {
            assert(self@[p as int] == self.rows@[p as int]@);
            assert(self@[q as int] == self.rows@[q as int]@);
        }
        let w = self.rows[p].transitions.len();
        for c in 0..w
            invariant
                self.wf(),
                class@.len() == self@.len(),
                p < self@.len(),
                q < self@.len(),
                w == self@[p as int].transitions.len(),
                w == self@[q as int].transitions.len(),
                class@[p as int] == class@[q as int],
                forall|d: int|
                    0 <= d < c ==> #[trigger] tclass(self@, class@, p as int, d) == tclass(
                        self@,
                        class@,
                        q as int,
                        d,
                    ),
        {
            proof {
                assert(self@[p as int] == self.rows@[p as int]@);
                assert(self@[q as int] == self.rows@[q as int]@);
            }
            let same = match (self.rows[p].transitions[c], self.rows[q].transitions[c]) {
                (None, None) => true,
                (Some(t1), Some(t2)) => class[t1] == class[t2],
                _ => false,
            };
            if !same {
                proof {
                    assert(tclass(self@, class@, p as int, c as int) != tclass(
                        self@,
                        class@,
                        q as int,
                        c as int,
                    ));
                }
                return false;
            }
        }
        true
    }

    /// One refinement round: assigns every state the least state that carries
    /// the same signature, splitting classes whose members' targets have come
    /// apart.
    fn refine_round(&self, class: &Vec<usize>) -> (nc: Vec<usize>)
        requires
            self.wf(),
            class@.len() == self@.len(),
        ensures
            nc@.len() == self@.len(),
            forall|i: int|
                0 <= i < self@.len() ==> #[trigger] round_assigned(self@, class@, nc@, i),
    {
        let n = self.rows.len();
        let mut nc: Vec<usize> = Vec::new();
        for i in 0..n
            invariant
                self.wf(),
                n == self@.len(),
                class@.len() == n,
                nc@.len() == i,
                forall|k: int| 0 <= k < i ==> #[trigger] round_assigned(self@, class@, nc@, k),
        {
            let mut pick: usize = i;
            let mut done = false;
            for j in 0..i
                invariant
                    self.wf(),
                    n == self@.len(),
                    class@.len() == n,
                    i < n,
                    !done ==> forall|d: int| 0 <= d < j ==> !#[trigger] sig_equal(
                        self@,
                        class@,
                        i as int,
                        d,
                    ),
                    done ==> pick < i && sig_equal(self@, class@, i as int, pick as int)
                        && forall|d: int| 0 <= d < pick ==> !#[trigger] sig_equal(
                        self@,
                        class@,
                        i as int,
                        d,
                    ),
            {
                if !done {
                    if self.sig_eq(class, i, j) {
                        pick = j;
                        done = true;
                    }
                }
            }
            if !done {
                pick = i;
                proof {
                    assert(sig_equal(self@, class@, i as int, i as int));
                }
            }
            let ghost prior = nc@;
            nc.push(pick);
            proof {
                assert(round_assigned(self@, class@, nc@, i as int));
                assert forall|k: int|
                    0 <= k < i + 1 implies #[trigger] round_assigned(self@, class@, nc@, k) by {
                    if k < i {
                        assert(round_assigned(self@, class@, prior, k));
                        assert(nc@[k] == prior[k]);
                    }
                }
            }
        }
        nc
    }

    /// Partition refinement to a fixpoint: starting from the accepting and
    /// non-accepting classes, repeatedly splits every class by the class of
    /// each symbol's target, until a full round changes nothing. The result is
    /// canonical (each class named by its least state), stable, and never
    /// conflates: states of distinct classes are behaviorally distinguishable.
    fn refine_classes(&self) -> (class: Vec<usize>)
        requires
            self.wf(),
            all_targets_alive(self@),
        ensures
            class@.len() == self@.len(),
            classes_canonical(class@),
            classes_stable(self@, class@),
            classes_distinguish(self@, class@),
    {
        let n = self.rows.len();
        let ghost rowsv = self@;
        proof {
            if n > 0 {
                assert(self@[0] == self.rows@[0]@);
            }
        }
        let w0: usize = if n > 0 {
            self.rows[0].transitions.len()
        } else {
            0
        };
        proof {
            assert(w0 == width(rowsv));
        }

        // The starting partition: accepting and non-accepting states, each
        // class named by its least member.
        let mut class: Vec<usize> = Vec::new();
        for i in 0..n
            invariant
                self.wf(),
                n == self@.len(),
                class@.len() == i,
                forall|k: int|
                    0 <= k < i ==> ((#[trigger] class@[k]) as int <= k && self@[
                        class@[k] as int
                    ].accepting == self@[k].accepting && forall|j: int|
                        0 <= j < class@[k] ==> self@[j].accepting != self@[k].accepting),
        {
            proof {
                assert(self@[i as int] == self.rows@[i as int]@);
            }
            let acc_i = self.rows[i].is_accepting();
            let mut pick: usize = i;
            let mut done = false;
            for j in 0..i
                invariant
                    self.wf(),
                    n == self@.len(),
                    i < n,
                    acc_i == self@[i as int].accepting,
                    !done ==> forall|d: int|
                        0 <= d < j ==> self@[d].accepting != self@[i as int].accepting,
                    done ==> pick < i && self@[pick as int].accepting == self@[i as int].accepting
                        && forall|d: int|
                        0 <= d < pick ==> self@[d].accepting != self@[i as int].accepting,
            {
                if !done {
                    proof {
                        assert(self@[j as int] == self.rows@[j as int]@);
                    }
                    if self.rows[j].is_accepting() == acc_i {
                        pick = j;
                        done = true;
                    }
                }
            }
            if !done {
                pick = i;
            }
            class.push(pick);
        }
        proof {
            // Canonical: the least state of a class names itself.
            assert(classes_canonical(class@)) by {
                assert forall|i: int|
                    0 <= i < n implies (#[trigger] class@[i]) as int <= i && class@[class@[i] as int]
                        == class@[i] by {
                    let j = class@[i] as int;
                    if (class@[j] as int) < j {
                        assert(self@[class@[j] as int].accepting == self@[j].accepting);
                        assert(self@[class@[j] as int].accepting != self@[i as int].accepting);
                    }
                }
            }
            // Same class means same accepting flag.
            assert(classes_acc(rowsv, class@)) by {
                assert forall|p: int, q: int|
                    0 <= p < n && 0 <= q < n && #[trigger] class@[p] == #[trigger] class@[q]
                    implies rowsv[p].accepting == rowsv[q].accepting by {}
            }
            // Distinct classes differ on acceptance, so the empty string
            // distinguishes them.
            assert(classes_distinguish(rowsv, class@)) by {
                assert forall|p: int, q: int|
                    0 <= p < n && 0 <= q < n && #[trigger] class@[p] != #[trigger] class@[q]
                    implies !state_equiv(rowsv, p, q) by {
                    assert(rowsv[p].accepting != rowsv[q].accepting) by {
                        if rowsv[p].accepting == rowsv[q].accepting {
                            if (class@[p] as int) < class@[q] as int {
                                assert(rowsv[class@[p] as int].accepting == rowsv[q].accepting);
                            } else {
                                assert(rowsv[class@[q] as int].accepting == rowsv[p].accepting);
                            }
                        }
                    }
                    let w: Seq<usize> = Seq::empty();
                    assert(accepts_sym(rowsv, p, w) != accepts_sym(rowsv, q, w));
                    if state_equiv(rowsv, p, q) {
                        assert(accepts_sym(rowsv, p, w) == accepts_sym(rowsv, q, w));
                    }
                }
            }
            lemma_rank_bounds(class_keep(class@), n as int);
        }

        loop
            invariant
                self.wf(),
                rowsv == self@,
                n == self@.len(),
                w0 == width(rowsv),
                all_targets_alive(rowsv),
                class@.len() == n,
                classes_canonical(class@),
                classes_acc(rowsv, class@),
                classes_distinguish(rowsv, class@),
                0 <= count_true(class_keep(class@)) <= n,
            ensures
                class@.len() == n,
                classes_canonical(class@),
                classes_stable(rowsv, class@),
                classes_distinguish(rowsv, class@),
            decreases n - count_true(class_keep(class@)),
        {
            let nc = self.refine_round(&class);
            if eq_usize_vecs(&nc, &class) {
                proof {
                    lemma_round_stable(rowsv, class@, nc@);
                }
                break;
            }
            proof {
                let i0 = choose|i0: int| 0 <= i0 < n && nc@[i0] != class@[i0];
                assert(exists|i0: int| 0 <= i0 < n && nc@[i0] != class@[i0]) by {
                    if forall|k: int| 0 <= k < n ==> nc@[k] == class@[k] {
                        assert(nc@ =~= class@);
                    }
                }
                let i1 = choose|i1: int| 0 <= i1 < n && nc@[i1] != class@[i1];
                lemma_round_progress(rowsv, class@, nc@, i1);
                lemma_round_canonical(rowsv, class@, nc@);
                assert(classes_acc(rowsv, nc@)) by {
                    assert forall|p: int, q: int|
                        0 <= p < n && 0 <= q < n && #[trigger] nc@[p] == #[trigger] nc@[q]
                        implies rowsv[p].accepting == rowsv[q].accepting by {
                        lemma_round_refines(rowsv, class@, nc@, p, q);
                    }
                }
                assert(classes_distinguish(rowsv, nc@)) by {
                    assert forall|p: int, q: int|
                        0 <= p < n && 0 <= q < n && #[trigger] nc@[p] != #[trigger] nc@[q]
                        implies !state_equiv(rowsv, p, q) by {
                        lemma_round_distinguish(rowsv, class@, nc@, p, q);
                    }
                }
                lemma_rank_bounds(class_keep(nc@), n as int);
            }
            class = nc;
        }
        class
    }

    /// Merges every class of a canonical partition into its least member:
    /// each surviving row is the representative's, its transitions retargeted
    /// to representatives and renumbered densely, atomically in one batch.
    fn merge_classes(&mut self, class: &Vec<usize>)
        requires
            old(self).wf(),
            old(self)@.len() >= 1,
            class@.len() == old(self)@.len(),
            classes_canonical(class@),
        ensures
            final(self).wf(),
            final(self)@.len() == count_true(class_keep(class@)),
            1 <= final(self)@.len() <= old(self)@.len(),
            width(final(self)@) == width(old(self)@),
            forall|k: int|
                0 <= k < old(self)@.len() && class_keep(class@)[k] ==> final(self)@[rank(
                    class_keep(class@),
                    k,
                )] == #[trigger] compacted_row(old(self)@, class_keep(class@), class@, k),
    {
        let n = self.rows.len();
        let mut keep: Vec<bool> = Vec::new();
        for i in 0..n
            invariant
                n == class@.len(),
                keep@.len() == i,
                forall|k: int| 0 <= k < i ==> #[trigger] keep@[k] == (class@[k] as int == k),
        {
            keep.push(class[i] == i);
        }
        proof {
            assert(keep@ =~= class_keep(class@));
            assert(keep@[0]) by {
                assert(class@[0] as int <= 0);
            }
            assert(rank(keep@, 0) == 0);
            assert(rank(keep@, 1) == 1);
            lemma_rank_monotone(keep@, 1, n as int);
            lemma_rank_bounds(keep@, n as int);
            assert forall|i: int| 0 <= i < n implies #[trigger] class@[i] < n by {}
        }
        self.compact(&keep, class);
    }

    /// One pass of the minimization engine: dead states go first, edges into
    /// a dead start are cleared, and the classes of the partition refinement
    /// are merged. Returns whether a merge happened; a pass that returns
    /// `false` leaves the table minimal, and leaves a table that was already
    /// minimal untouched.
    fn optimize_step(&mut self) -> (r: bool)
        requires
            old(self).wf(),
            old(self)@.len() >= 1,
        ensures
            final(self).wf(),
            1 <= final(self)@.len() <= old(self)@.len(),
            width(final(self)@) == width(old(self)@),
            final(self)@[0].accepting == old(self)@[0].accepting,
            r ==> final(self)@.len() < old(self)@.len(),
            !r ==> minimal(final(self)@),
            minimal(old(self)@) ==> !r && final(self)@ == old(self)@,
            lang_equiv(old(self)@, final(self)@),
            reaches_accepting(old(self)@, 0) ==> reaches_accepting(final(self)@, 0),
            states_covered(old(self)@, final(self)@),
            (forall|i: int| 0 <= i < old(self)@.len() ==> !reaches_accepting(old(self)@, i)) ==> (
            final(self)@.len() == 1 && !final(self)@[0].accepting && forall|c: int|
                0 <= c < width(final(self)@) ==> final(self)@[0].transitions[c] is None),
    {
        self.remove_dead_branches();
        let ghost mid = self@;
        let wexec: usize = if self.rows.len() > 0 {
            proof {
                assert(self@[0] == self.rows@[0]@);
            }
            self.rows[0].transitions.len()
        } else {
            0
        };
        proof {
            assert(width(mid) == wexec);
        }
        let class = self.refine_classes();
        let n = self.rows.len();
        let mut all_single = true;
        for i in 0..n
            invariant
                n == class@.len(),
                all_single == forall|k: int| 0 <= k < i ==> #[trigger] class@[k] as int == k,
        {
            if class[i] != i {
                all_single = false;
            }
        }
        if all_single {
            proof {
                assert(minimal(self@)) by {
                    assert forall|i: int, j: int|
                        0 <= i < j < self@.len() implies !#[trigger] state_equiv(self@, i, j) by {
                        assert(class@[i] as int == i && class@[j] as int == j);
                    }
                }
                if minimal(old(self)@) {
                    assert(self@ == old(self)@);
                }
            }
            false
        } else {
            let ghost cl = class@;
            proof {
                // A minimal table refines into singletons, so a merge cannot
                // happen on one.
                if minimal(old(self)@) {
                    assert(mid == old(self)@);
                    assert forall|k: int| 0 <= k < n implies #[trigger] cl[k] as int == k by {
                        if (cl[k] as int) < k {
                            let j = cl[k] as int;
                            assert(cl[j] == cl[k]);
                            assert forall|w: Seq<usize>|
                                #[trigger] accepts_sym(mid, j, w) == accepts_sym(mid, k, w) by {
                                lemma_stable_equiv(mid, cl, j, k, w);
                            }
                            assert(state_equiv(mid, j, k));
                            assert(false);
                        }
                    }
                    let i1 = choose|i1: int| 0 <= i1 < n && cl[i1] as int != i1;
                    assert(false);
                }
            }
            self.merge_classes(&class);
            proof {
                lemma_class_merge_lang(mid, cl, self@);
                lemma_lang_equiv_trans(old(self)@, mid, self@);
                // The merged states' word-languages are the representatives'.
                let ghost merged = self@;
                assert(states_covered(mid, merged)) by {
                    assert forall|j: int|
                        0 <= j < merged.len() implies #[trigger] covered_state(mid, merged, j) by {
                        let k = lemma_rank_inverse(class_keep(cl), j);
                        assert(cl[k] as int == k);
                        assert(same_state_lang(mid, k, merged, j)) by {
                            assert forall|w: Seq<usize>|
                                #[trigger] accepts_sym(mid, k, w) == accepts_sym(
                                merged,
                                j,
                                w,
                            ) by {
                                assert(accepts_sym(mid, k, w) == accepts_sym(
                                    merged,
                                    rank(class_keep(cl), cl[k] as int),
                                    w,
                                ));
                            }
                        }
                    }
                }
                lemma_states_covered_trans(old(self)@, mid, self@);
                // The start row keeps its flag: it is its own representative.
                assert(cl[0] as int == 0);
                assert(rank(class_keep(cl), 0) == 0);
                assert(self@[0] == compacted_row(mid, class_keep(cl), cl, 0));
                // Some class had two members, so at least one row went away.
                let i1 = choose|i1: int| 0 <= i1 < n && cl[i1] as int != i1;
                assert(!class_keep(cl)[i1]);
                lemma_count_lt_if_false(class_keep(cl), i1);
                // A start that reached acceptance still does: transfer its
                // accepting word into the merged table.
                if reaches_accepting(old(self)@, 0) {
                    assert(reaches_accepting(mid, 0));
                    let f = choose|f: nat| reaches_in(mid, 0, f);
                    assert(width(mid) <= usize::MAX);
                    lemma_reach_gives_word(mid, 0, f);
                    let w = choose|w: Seq<usize>| accepts_sym(mid, 0, w);
                    assert(accepts_sym(self@, rank(class_keep(cl), cl[0] as int), w));
                    lemma_word_gives_reach(self@, 0, w);
                }
                // Nothing-reaches-acceptance tables were already a single row,
                // whose lone class cannot merge.
                if forall|i: int|
                    0 <= i < old(self)@.len() ==> !reaches_accepting(old(self)@, i) {
                    assert(mid.len() == 1);
                    assert(cl[0] as int == 0);
                    let i2 = choose|i2: int| 0 <= i2 < n && cl[i2] as int != i2;
                    assert(false);
                }
            }
            true
        }
    }

    /// Minimizes the table in place: dead-state elimination and partition
    /// refinement with class merging repeat until a full pass changes
    /// nothing. Afterwards the table is well formed with dense ids, every
    /// transition names an existing row, no two states are behaviorally
    /// equivalent (the Myhill-Nerode classes of the surviving states are all
    /// distinct — for a table whose states are all reachable from the start,
    /// as subset construction yields, this is the minimal DFA; states that
    /// are alive but unreachable are kept, as the engine never explores
    /// reachability from the start), every state but possibly the start
    /// reaches an accepting state, a dead start keeps no incoming edges, the
    /// start state's accepting flag is what it was, the language is unchanged
    /// — the table accepts exactly the strings it accepted before, whatever
    /// the character mapping — every surviving state accepts exactly the
    /// word-language of some original state, a table in which nothing reaches
    /// acceptance collapses to a single all-rejecting start row, and a table
    /// that was already minimal is returned identical to itself.
    pub fn optimize(&mut self)
        requires
            old(self).wf(),
            old(self)@.len() >= 1,
        ensures
            final(self).wf(),
            minimal(final(self)@),
            final(self)@.len() <= old(self)@.len(),
            width(final(self)@) == width(old(self)@),
            final(self)@[0].accepting == old(self)@[0].accepting,
            lang_equiv(old(self)@, final(self)@),
            states_covered(old(self)@, final(self)@),
            reaches_accepting(old(self)@, 0) ==> reaches_accepting(final(self)@, 0),
            (forall|i: int| 0 <= i < old(self)@.len() ==> !reaches_accepting(old(self)@, i)) ==> (
            final(self)@.len() == 1 && !final(self)@[0].accepting && forall|c: int|
                0 <= c < width(final(self)@) ==> final(self)@[0].transitions[c] is None),
            minimal(old(self)@) ==> final(self)@ == old(self)@,
    {
        proof {
            lemma_lang_equiv_refl(self@);
            lemma_states_covered_refl(self@);
        }
        loop
            invariant
                self.wf(),
                1 <= self@.len() <= old(self)@.len(),
                width(self@) == width(old(self)@),
                self@[0].accepting == old(self)@[0].accepting,
                lang_equiv(old(self)@, self@),
                states_covered(old(self)@, self@),
                reaches_accepting(old(self)@, 0) ==> reaches_accepting(self@, 0),
                (forall|i: int|
                    0 <= i < old(self)@.len() ==> !reaches_accepting(old(self)@, i)) ==> (self@
                    == old(self)@ || (self@.len() == 1 && !self@[0].accepting && forall|c: int|
                    0 <= c < width(self@) ==> self@[0].transitions[c] is None)),
                minimal(old(self)@) ==> self@ == old(self)@,
            ensures
                self.wf(),
                minimal(self@),
                self@.len() <= old(self)@.len(),
                width(self@) == width(old(self)@),
                self@[0].accepting == old(self)@[0].accepting,
                lang_equiv(old(self)@, self@),
                states_covered(old(self)@, self@),
                reaches_accepting(old(self)@, 0) ==> reaches_accepting(self@, 0),
                (forall|i: int|
                    0 <= i < old(self)@.len() ==> !reaches_accepting(old(self)@, i)) ==> (
                self@.len() == 1 && !self@[0].accepting && forall|c: int|
                    0 <= c < width(self@) ==> self@[0].transitions[c] is None),
                minimal(old(self)@) ==> self@ == old(self)@,
            decreases self@.len(),
        {
            let ghost pre = self@;
            let stepped = self.optimize_step();
            proof {
                lemma_lang_equiv_trans(old(self)@, pre, self@);
                lemma_states_covered_trans(old(self)@, pre, self@);
                if forall|i: int|
                    0 <= i < old(self)@.len() ==> !reaches_accepting(old(self)@, i) {
                    // Once collapsed to the lone rejecting start row, the
                    // table is minimal and every later pass returns it
                    // untouched.
                    if pre != old(self)@ {
                        assert(minimal(pre)) by {
                            assert(start_resolved(pre)) by {
                                assert forall|i: int, c: int|
                                    0 <= i < pre.len() && 0 <= c < pre[i].transitions.len()
                                    implies (#[trigger] pre[i].transitions[c]) != Some(
                                    0usize,
                                ) by {
                                    assert(pre[i].transitions[c] is None);
                                }
                            }
                        }
                        assert(self@ == pre);
                    }
                }
            }
            if !stepped {
                break;
            }
        }
    }

    /// Deletes the row with the given id, clears every transition that
    /// pointed at it, and renumbers the remaining ids densely, preserving
    /// relative order. The start row is never removed.
    pub fn remove_row_id(&mut self, row_id: usize)
        requires
            old(self).wf(),
            1 <= row_id < old(self)@.len(),
        ensures
            final(self).wf(),
            final(self)@.len() == old(self)@.len() - 1,
            forall|i: int|
                0 <= i < old(self)@.len() && i != row_id ==> final(self)@[rank(
                    remove_keep(old(self)@.len(), row_id as int),
                    i,
                )] == #[trigger] compacted_row(
                    old(self)@,
                    remove_keep(old(self)@.len(), row_id as int),
                    identity_redirect(old(self)@.len()),
                    i,
                ),
    {
        let n = self.rows.len();
        let ghost old_rows = self@;
        let mut keep: Vec<bool> = Vec::new();
        for i in 0..n
            invariant
                keep@.len() == i,
                forall|k: int| 0 <= k < i ==> #[trigger] keep@[k] == (k != row_id as int),
        {
            keep.push(i != row_id);
        }
        let redirect = identity_assignments(n);
        proof {
            assert(keep@ =~= remove_keep(old_rows.len(), row_id as int));
            assert(redirect@ =~= identity_redirect(old_rows.len()));
            let all = keep@.update(row_id as int, true);
            assert forall|k: int| 0 <= k < all.len() implies #[trigger] all[k] by {}
            lemma_rank_all_true(all, all.len() as int);
            lemma_count_true_update(keep@, row_id as int);
        }
        self.compact(&keep, &redirect);
    }

    /// Merges a group of states into its first member: the representative's
    /// accepting flag becomes the logical OR of the group's, the other
    /// members' rows are deleted, every transition anywhere in the table that
    /// pointed at a removed member is retargeted to the representative, and
    /// all ids are renumbered densely, atomically at the end of the batch.
    /// The group is given as a strictly ascending sequence of row ids.
    pub fn merge(&mut self, state: Vec<usize>)
        requires
            old(self).wf(),
            old(self)@.len() >= 1,
            state@.len() >= 1,
            forall|a: int, b: int| 0 <= a < b < state@.len() ==> state@[a] < state@[b],
            forall|a: int| 0 <= a < state@.len() ==> #[trigger] state@[a] < old(self)@.len(),
        ensures
            final(self).wf(),
            1 <= final(self)@.len() <= old(self)@.len(),
            final(self)@.len() == count_true(group_keep(old(self)@.len(), state@)),
            state@.len() >= 2 ==> final(self)@.len() < old(self)@.len(),
            width(final(self)@) == width(old(self)@),
            forall|i: int|
                0 <= i < old(self)@.len() && group_keep(old(self)@.len(), state@)[i]
                    ==> final(self)@[rank(group_keep(old(self)@.len(), state@), i)]
                    == #[trigger] compacted_row(
                    merged_accepting(old(self)@, state@),
                    group_keep(old(self)@.len(), state@),
                    group_redirect(old(self)@.len(), state@),
                    i,
                ),
            (forall|a: int|
                0 <= a < state@.len() ==> rows_equal(
                    old(self)@[#[trigger] state@[a] as int],
                    old(self)@[state@[0] as int],
                )) ==> lang_equiv(old(self)@, final(self)@),
    {
        let n = self.rows.len();
        let ghost old_rows = self@;
        let rep = state[0];

        let mut any_acc = false;
        let glen = state.len();
        for j in 0..glen
            invariant
                self.wf(),
                old_rows == self@,
                n == self@.len(),
                glen == state@.len(),
                forall|a: int| 0 <= a < state@.len() ==> #[trigger] state@[a] < n,
                any_acc == exists|k: int| 0 <= k < j && self@[state@[k] as int].accepting,
        {
            proof {
                assert(self@[state@[j as int] as int] == self.rows@[state@[j as int] as int]@);
            }
            let is_acc = self.rows[state[j]].is_accepting();
            if is_acc {
                any_acc = true;
                proof {
                    assert(self@[state@[j as int] as int].accepting);
                    assert(exists|k: int| 0 <= k < j + 1 && self@[state@[k] as int].accepting);
                }
            }
        }
        proof {
            assert(any_acc == group_or(old_rows, state@));
        }

        self.rows[rep].accepting_state = any_acc;
        let ghost mid_rows = self@;
        proof {
            assert(mid_rows =~= merged_accepting(old_rows, state@)) by {
                assert(mid_rows =~= self.rows@.map(|q: int, r: Row| r@));
                assert(mid_rows[rep as int] =~= merged_accepting(old_rows, state@)[rep as int]);
                assert forall|k: int| 0 <= k < n implies mid_rows[k] == merged_accepting(
                    old_rows,
                    state@,
                )[k] by {
                    if k != rep {
                        assert(mid_rows[k] == old_rows[k]);
                    }
                }
            }
        }

        let mut keep: Vec<bool> = Vec::new();
        let mut redirect: Vec<usize> = Vec::new();
        let mut i: usize = 0;
        while i < n
            invariant
                self.wf(),
                mid_rows == self@,
                n == self@.len(),
                rep == state@[0],
                i <= n,
                keep@.len() == i,
                redirect@.len() == i,
                forall|k: int|
                    0 <= k < i ==> #[trigger] keep@[k] == (k == state@[0] as int || !state@.contains(
                        k as usize,
                    )),
                forall|k: int|
                    0 <= k < i ==> #[trigger] redirect@[k] == (if state@.contains(k as usize) {
                        state@[0]
                    } else {
                        k as usize
                    }),
                forall|k: int| 0 <= k < i ==> #[trigger] redirect@[k] < n,
                forall|a: int| 0 <= a < state@.len() ==> #[trigger] state@[a] < n,
            decreases n - i,
        {
            let ing = group_contains(&state, i);
            keep.push(i == rep || !ing);
            redirect.push(if ing { rep } else { i });
            i = i + 1;
        }
        proof {
            assert(keep@ =~= group_keep(n as nat, state@));
            assert(redirect@ =~= group_redirect(n as nat, state@));
            // The start row always survives: it is either the representative
            // or outside the group.
            assert(keep@[0]) by {
                if state@.contains(0usize) {
                    let j = choose|j: int| 0 <= j < state@.len() && state@[j] == 0usize;
                    if j > 0 {
                        assert(state@[0] < state@[j]);
                    }
                }
            }
            assert(rank(keep@, 0) == 0);
            assert(rank(keep@, 1) == 1);
            lemma_rank_monotone(keep@, 1, n as int);
            lemma_rank_bounds(keep@, n as int);
            if state@.len() >= 2 {
                assert(state@[0] < state@[1]);
                assert(state@.contains(state@[1]));
                assert(!keep@[state@[1] as int]);
                lemma_count_lt_if_false(keep@, state@[1] as int);
            }
        }
        self.compact(&keep, &redirect);
        proof {
            if forall|a: int|
                0 <= a < state@.len() ==> rows_equal(
                    old_rows[#[trigger] state@[a] as int],
                    old_rows[state@[0] as int],
                ) {
                // An indistinguishable group is uniform in acceptance, so the
                // representative's flag did not change and the table handed to
                // the compaction is the old one.
                assert(group_or(old_rows, state@) == old_rows[rep as int].accepting) by {
                    if group_or(old_rows, state@) {
                        let j = choose|j: int|
                            0 <= j < state@.len() && old_rows[state@[j] as int].accepting;
                        assert(rows_equal(old_rows[state@[j] as int], old_rows[state@[0] as int]));
                    }
                    if old_rows[rep as int].accepting {
                        assert(old_rows[state@[0] as int].accepting);
                    }
                }
                assert(mid_rows[rep as int] =~= old_rows[rep as int]);
                assert forall|k: int| 0 <= k < mid_rows.len() implies mid_rows[k] == old_rows[
                k] by {}
                assert(mid_rows =~= old_rows);
                lemma_merge_lang(old_rows, state@, self@);
            }
        }
    }

    /// Merges two states: `to_keep` takes the OR of the two accepting flags,
    /// `to_remove`'s row is deleted, every transition that pointed at
    /// `to_remove` is retargeted to `to_keep`, and the ids are renumbered
    /// densely.
    /// Merges two states: `to_keep` takes the OR of the two accepting flags,
    /// `to_remove`'s row is deleted, every transition that pointed at
    /// `to_remove` is retargeted to `to_keep`, and the ids are renumbered
    /// densely. Either may carry the larger id; the start row is never the
    /// one removed.
    pub fn merge_two(&mut self, to_keep: usize, to_remove: usize)
        requires
            old(self).wf(),
            to_keep < old(self)@.len(),
            1 <= to_remove < old(self)@.len(),
            to_keep != to_remove,
        ensures
            final(self).wf(),
            final(self)@.len() == old(self)@.len() - 1,
            width(final(self)@) == width(old(self)@),
            forall|i: int|
                0 <= i < old(self)@.len() && i != to_remove ==> final(self)@[rank(
                    group_keep(old(self)@.len(), pair_group(to_keep, to_remove)),
                    i,
                )] == #[trigger] compacted_row(
                    merged_accepting(old(self)@, pair_group(to_keep, to_remove)),
                    group_keep(old(self)@.len(), pair_group(to_keep, to_remove)),
                    group_redirect(old(self)@.len(), pair_group(to_keep, to_remove)),
                    i,
                ),
    {
        let n = self.rows.len();
        let ghost old_rows = self@;
        let ghost g = pair_group(to_keep, to_remove);
        proof {
            assert(g.len() == 2 && g[0] == to_keep && g[1] == to_remove);
        }
        proof {
            assert(self@[to_keep as int] == self.rows@[to_keep as int]@);
            assert(self@[to_remove as int] == self.rows@[to_remove as int]@);
        }
        let acc_or = self.rows[to_keep].is_accepting() || self.rows[to_remove].is_accepting();
        proof {
            assert(acc_or == group_or(old_rows, g)) by {
                if old_rows[g[0] as int].accepting || old_rows[g[1] as int].accepting {
                    if old_rows[g[0] as int].accepting {
                        assert(exists|j: int| 0 <= j < g.len() && old_rows[g[j] as int].accepting);
                    } else {
                        assert(exists|j: int| 0 <= j < g.len() && old_rows[g[j] as int].accepting);
                    }
                }
                if group_or(old_rows, g) {
                    let j = choose|j: int| 0 <= j < g.len() && old_rows[g[j] as int].accepting;
                }
            }
        }
        self.rows[to_keep].accepting_state = acc_or;
        let ghost mid_rows = self@;
        proof {
            assert(mid_rows =~= merged_accepting(old_rows, g)) by {
                assert(mid_rows =~= self.rows@.map(|q: int, r: Row| r@));
                assert(mid_rows[to_keep as int] =~= merged_accepting(old_rows, g)[to_keep as int]);
                assert forall|k: int| 0 <= k < n implies mid_rows[k] == merged_accepting(
                    old_rows,
                    g,
                )[k] by {
                    if k != to_keep {
                        assert(mid_rows[k] == old_rows[k]);
                    }
                }
            }
        }
        let mut keep: Vec<bool> = Vec::new();
        let mut redirect: Vec<usize> = Vec::new();
        for i in 0..n
            invariant
                self.wf(),
                mid_rows == self@,
                n == self@.len(),
                to_keep < n,
                to_remove < n,
                keep@.len() == i,
                redirect@.len() == i,
                forall|k: int| 0 <= k < i ==> #[trigger] keep@[k] == (k != to_remove),
                forall|k: int|
                    0 <= k < i ==> #[trigger] redirect@[k] == (if k == to_remove {
                        to_keep
                    } else {
                        k as usize
                    }),
                forall|k: int| 0 <= k < i ==> #[trigger] redirect@[k] < n,
        {
            keep.push(i != to_remove);
            redirect.push(if i == to_remove {
                to_keep
            } else {
                i
            });
        }
        let ghost gk = group_keep(n as nat, g);
        proof {
            assert(keep@ =~= gk) by {
                assert forall|k: int| 0 <= k < n implies keep@[k] == gk[k] by {
                    if g.contains(k as usize) {
                        let j = choose|j: int| 0 <= j < g.len() && g[j] == k as usize;
                    } else {
                        assert(g[1] == to_remove);
                        assert(k != to_remove);
                    }
                }
            }
            assert(redirect@ =~= group_redirect(n as nat, g)) by {
                assert forall|k: int|
                    0 <= k < n implies redirect@[k] == group_redirect(n as nat, g)[k] by {
                    if g.contains(k as usize) {
                        let j = choose|j: int| 0 <= j < g.len() && g[j] == k as usize;
                        if j == 0 {
                            assert(redirect@[k] == to_keep);
                        }
                    } else {
                        assert(g[1] == to_remove);
                    }
                }
            }
            assert(gk[0]) by {
                if g.contains(0usize) {
                    let j = choose|j: int| 0 <= j < g.len() && g[j] == 0usize;
                    assert(j == 0 || j == 1);
                    assert(to_keep == 0usize);
                }
            }
            assert(rank(gk, 0) == 0);
        }
        self.compact(&keep, &redirect);
        proof {
            // Exactly one row went away: setting the removed slot back to
            // `true` yields the all-true sequence, which pins the new length.
            assert forall|k: int| 0 <= k < n && k != to_remove implies #[trigger] gk[k] by {
                if g.contains(k as usize) {
                    let j = choose|j: int| 0 <= j < g.len() && g[j] == k as usize;
                    assert(j == 0 || j == 1);
                    assert(k <= n <= usize::MAX);
                    assert(k as usize == to_keep || k as usize == to_remove);
                }
            }
            let all = gk.update(to_remove as int, true);
            assert forall|k: int| 0 <= k < all.len() implies #[trigger] all[k] by {}
            lemma_rank_all_true(all, all.len() as int);
            assert(!gk[to_remove as int]) by {
                assert(g[1] == to_remove);
                assert(g.contains(to_remove));
            }
            lemma_count_true_update(gk, to_remove as int);
        }
    }

    /// Removes the rows not marked in `keep`, rewriting every transition
    /// target first through `redirect` and then to the dense renumbering of
    /// the survivors; a transition whose rewritten target does not survive is
    /// cleared. The assignment map is recomputed to the identity, so no
    /// indirection remains.
    fn compact(&mut self, keep: &Vec<bool>, redirect: &Vec<usize>)
        requires
            old(self).wf(),
            keep@.len() == old(self)@.len(),
            redirect@.len() == old(self)@.len(),
            forall|i: int| 0 <= i < redirect@.len() ==> #[trigger] redirect@[i] < old(self)@.len(),
        ensures
            final(self).wf(),
            final(self)@.len() == count_true(keep@),
            forall|i: int|
                0 <= i < old(self)@.len() && keep@[i] ==> final(self)@[rank(keep@, i)]
                    == #[trigger] compacted_row(old(self)@, keep@, redirect@, i),
            count_true(keep@) > 0 ==> width(final(self)@) == width(old(self)@),
    {
        let n = self.rows.len();
        let ghost old_rows = self@;

        // The dense renumbering: newid[i] is the rank of old row i.
        let mut newid: Vec<usize> = Vec::new();
        let mut cnt: usize = 0;
        for i in 0..n
            invariant
                self == old(self),
                n == self@.len(),
                keep@.len() == n,
                newid@.len() == i,
                cnt == rank(keep@, i as int),
                cnt <= i,
                forall|k: int| 0 <= k < i ==> #[trigger] newid@[k] == rank(keep@, k),
        {
            newid.push(cnt);
            if keep[i] {
                cnt = cnt + 1;
            }
        }

        let mut new_rows: Vec<Row> = Vec::new();
        for i in 0..n
            invariant
                self == old(self),
                old_rows == self@,
                n == self@.len(),
                keep@.len() == n,
                redirect@.len() == n,
                forall|k: int| 0 <= k < n ==> #[trigger] redirect@[k] < n,
                newid@.len() == n,
                forall|k: int| 0 <= k < n ==> #[trigger] newid@[k] == rank(keep@, k),
                old(self).wf(),
                new_rows@.len() == rank(keep@, i as int),
                forall|k: int|
                    0 <= k < i && keep@[k] ==> new_rows@.map(|q: int, r: Row| r@)[rank(keep@, k)]
                        == #[trigger] compacted_row(old_rows, keep@, redirect@, k),
        {
            if keep[i] {
                let w = self.rows[i].transitions.len();
                proof {
                    assert(self@[i as int] == self.rows@[i as int]@);
                }
                let mut tr: Vec<Option<usize>> = Vec::new();
                for c in 0..w
                    invariant
                        self == old(self),
                        old_rows == self@,
                        n == self@.len(),
                        table_wf(old_rows),
                        keep@.len() == n,
                        redirect@.len() == n,
                        forall|k: int| 0 <= k < n ==> #[trigger] redirect@[k] < n,
                        newid@.len() == n,
                        forall|k: int| 0 <= k < n ==> #[trigger] newid@[k] == rank(keep@, k),
                        i < n,
                        w == old_rows[i as int].transitions.len(),
                        tr@.len() == c,
                        forall|d: int|
                            0 <= d < c ==> #[trigger] tr@[d] == compact_target(
                                keep@,
                                redirect@,
                                old_rows[i as int].transitions[d],
                            ),
                {
                    proof {
                        assert(self@[i as int] == self.rows@[i as int]@);
                    }
                    let nt: Option<usize> = match self.rows[i].transitions[c] {
                        None => None,
                        Some(x) => {
                            let y = redirect[x];
                            if keep[y] {
                                Some(newid[y])
                            } else {
                                None
                            }
                        },
                    };
                    tr.push(nt);
                }
                let new_row = Row::new(self.rows[i].accepting_state, newid[i], tr);
                proof {
                    assert(self@[i as int] == self.rows@[i as int]@);
                    assert(new_row@.transitions =~= compacted_row(
                        old_rows,
                        keep@,
                        redirect@,
                        i as int,
                    ).transitions);
                    assert(new_row@ =~= compacted_row(old_rows, keep@, redirect@, i as int));
                }
                let ghost prior = new_rows@.map(|q: int, r: Row| r@);
                new_rows.push(new_row);
                proof {
                    assert(new_rows@.map(|q: int, r: Row| r@) =~= prior.push(new_row@));
                    assert(rank(keep@, i + 1) == rank(keep@, i as int) + 1);
                    assert forall|k: int|
                        0 <= k < i + 1 && keep@[k] implies new_rows@.map(|q: int, r: Row| r@)[rank(
                        keep@,
                        k,
                    )] == #[trigger] compacted_row(old_rows, keep@, redirect@, k) by {
                        if k < i {
                            lemma_rank_bounds(keep@, k);
                            lemma_rank_monotone(keep@, k, i as int);
                            assert(prior[rank(keep@, k)] == compacted_row(
                                old_rows,
                                keep@,
                                redirect@,
                                k,
                            ));
                            assert(new_rows@.map(|q: int, r: Row| r@)[rank(keep@, k)]
                                == prior[rank(keep@, k)]);
                        } else {
                            assert(new_rows@.map(|q: int, r: Row| r@)[rank(keep@, i as int)]
                                == new_row@);
                        }
                    }
                }
            }
        }
        let new_len = new_rows.len();
        self.rows = new_rows;
        self.row_assignments = identity_assignments(new_len);
        proof {
            assert(self@ =~= self.rows@.map(|q: int, r: Row| r@));
            lemma_compact_result_wf(old_rows, keep@, redirect@, self@);
        }
    }
}

/// Whether `x` is one of the ids in `group`.
fn group_contains(group: &Vec<usize>, x: usize) -> (r: bool)
    ensures
        r == group@.contains(x),
{
    let n = group.len();
    for i in 0..n
        invariant
            n == group@.len(),
            forall|k: int| 0 <= k < i ==> group@[k] != x,
    {
        if group[i] == x {
            proof {
                assert(group@[i as int] == x);
            }
            return true;
        }
    }
    proof {
        if group@.contains(x) {
            let j = choose|j: int| 0 <= j < group@.len() && group@[j] == x;
            assert(group@[j] != x);
        }
    }
    false
}

/// Whether two class assignments are the same vector.
fn eq_usize_vecs(a: &Vec<usize>, b: &Vec<usize>) -> (r: bool)
    ensures
        r == (a@ == b@),
{
    let n = a.len();
    if n != b.len() {
        proof {
            assert(a@.len() != b@.len());
        }
        return false;
    }
    for i in 0..n
        invariant
            n == a@.len(),
            n == b@.len(),
            forall|k: int| 0 <= k < i ==> a@[k] == b@[k],
    {
        if a[i] != b[i] {
            return false;
        }
    }
    proof {
        assert(a@ =~= b@);
    }
    true
}

/// The identity assignment on `n` logical ids.
fn identity_assignments(n: usize) -> (r: Vec<usize>)
    ensures
        r@.len() == n,
        forall|i: int| 0 <= i < n ==> #[trigger] r@[i] == i,
{
    let mut v: Vec<usize> = Vec::new();
    for i in 0..n
        invariant
            v@.len() == i,
            forall|k: int| 0 <= k < i ==> #[trigger] v@[k] == k,
    {
        v.push(i);
    }
    v
}

} // verus!
