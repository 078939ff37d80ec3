//! The mathematical model of DFA tables: structural well-formedness, the
//! matching semantics, reachability of an accepting state, identical-row
//! pairs, and the minimality predicate that `Table::optimize` establishes.

use vstd::prelude::*;

use crate::row::RowV;

verus! {

/// The transition-vector width shared by all rows of a well-formed table.
pub open spec fn width(rows: Seq<RowV>) -> nat {
    if rows.len() == 0 {
        0
    } else {
        rows[0].transitions.len()
    }
}

/// Structural invariant of a table at rest: ids are dense (`rows[i].id == i`),
/// all rows share one transition-vector width, and every present transition
/// target names an existing row.
pub open spec fn table_wf(rows: Seq<RowV>) -> bool {
    &&& forall|i: int| 0 <= i < rows.len() ==> (#[trigger] rows[i]).id == i
    &&& forall|i: int| 0 <= i < rows.len() ==> (#[trigger] rows[i]).transitions.len() == width(rows)
    &&& forall|i: int, c: int|
        0 <= i < rows.len() && 0 <= c < rows[i].transitions.len() ==> ((#[trigger] rows[i].transitions[c]) matches Some(t) ==> t < rows.len())
}

/// Result of running the matcher from position `i` in state `state`:
/// `None` for a match, otherwise the 1-based position of the failure.
pub open spec fn match_from(
    rows: Seq<RowV>,
    cmap: Map<char, usize>,
    s: Seq<char>,
    i: int,
    state: int,
) -> Option<int>
    decreases s.len() - i,
{
    if !(0 <= state < rows.len() && 0 <= i <= s.len()) {
        Some(0)
    } else if i == s.len() {
        if rows[state].accepting {
            None
        } else {
            Some(s.len() as int + 1)
        }
    } else if !cmap.contains_key(s[i]) {
        Some(i + 1)
    } else if cmap[s[i]] >= rows[state].transitions.len() {
        Some(i + 1)
    } else {
        match rows[state].transitions[cmap[s[i]] as int] {
            None => Some(i + 1),
            Some(ns) => match_from(rows, cmap, s, i + 1, ns as int),
        }
    }
}

/// The matcher's verdict on a whole string: `None` for "matched", otherwise
/// the 1-based position of the first character that could not be followed
/// (`0` for an empty table, or for an empty input that the start state does
/// not accept; `len + 1` for an exhausted input ending in a rejecting state).
pub open spec fn table_match(rows: Seq<RowV>, cmap: Map<char, usize>, s: Seq<char>) -> Option<int> {
    if rows.len() == 0 {
        Some(0)
    } else if s.len() == 0 && !rows[0].accepting {
        Some(0)
    } else {
        match_from(rows, cmap, s, 0, 0)
    }
}

/// Relates the executable matcher's result to the specification-level one.
pub open spec fn match_result_is(r: Option<usize>, m: Option<int>) -> bool {
    match r {
        None => m is None,
        Some(p) => m == Some(p as int),
    }
}

/// A path of at most `fuel` transitions leads from `state` to an accepting
/// state (a path of length zero counts: an accepting state reaches itself).
pub open spec fn reaches_in(rows: Seq<RowV>, state: int, fuel: nat) -> bool
    decreases fuel,
{
    &&& 0 <= state < rows.len()
    &&& (rows[state].accepting || (fuel > 0 && exists|c: int|
        0 <= c < rows[state].transitions.len()
            && ((#[trigger] rows[state].transitions[c]) matches Some(t)
            && reaches_in(rows, t as int, (fuel - 1) as nat))))
}

/// Some path leads from `state` to an accepting state.
pub open spec fn reaches_accepting(rows: Seq<RowV>, state: int) -> bool {
    exists|fuel: nat| reaches_in(rows, state, fuel)
}

/// The automaton accepts a string of symbol indices from state `p`: at the
/// end the state must accept; on a symbol the run follows the transition at
/// that index, and rejects when the slot is absent or out of range.
pub open spec fn accepts_sym(rows: Seq<RowV>, p: int, w: Seq<usize>) -> bool
    decreases w.len(),
{
    if !(0 <= p < rows.len()) {
        false
    } else if w.len() == 0 {
        rows[p].accepting
    } else if w[0] >= rows[p].transitions.len() {
        false
    } else {
        match rows[p].transitions[w[0] as int] {
            None => false,
            Some(t) => accepts_sym(rows, t as int, w.drop_first()),
        }
    }
}

/// Two states are behaviorally equivalent: they accept exactly the same
/// strings of symbol indices (Myhill-Nerode equivalence).
pub open spec fn state_equiv(rows: Seq<RowV>, p: int, q: int) -> bool {
    forall|w: Seq<usize>| #[trigger] accepts_sym(rows, p, w) == accepts_sym(rows, q, w)
}

/// Either the start state reaches acceptance, or no transition anywhere in
/// the table points at it: a dead start never has incoming edges left.
pub open spec fn start_resolved(rows: Seq<RowV>) -> bool {
    reaches_accepting(rows, 0) || forall|i: int, c: int|
        0 <= i < rows.len() && 0 <= c < rows[i].transitions.len() ==> (#[trigger] rows[
            i
        ].transitions[c]) != Some(0usize)
}

/// A state that reaches acceptance accepts some string of symbol indices:
/// the path's labels.
pub proof fn lemma_reach_gives_word(rows: Seq<RowV>, p: int, fuel: nat)
    requires
        table_wf(rows),
        width(rows) <= usize::MAX,
        reaches_in(rows, p, fuel),
    ensures
        exists|w: Seq<usize>| accepts_sym(rows, p, w),
    decreases fuel,
{
    if rows[p].accepting {
        assert(accepts_sym(rows, p, Seq::<usize>::empty()));
    } else {
        let c = choose|c: int|
            0 <= c < rows[p].transitions.len() && ((#[trigger] rows[p].transitions[c]) matches Some(
                t,
            ) && reaches_in(rows, t as int, (fuel - 1) as nat));
        match rows[p].transitions[c] {
            Some(t) => {
                lemma_reach_gives_word(rows, t as int, (fuel - 1) as nat);
                let w0 = choose|w0: Seq<usize>| accepts_sym(rows, t as int, w0);
                let w = seq![c as usize] + w0;
                assert(w[0] == c as usize);
                assert(w.drop_first() =~= w0);
                assert(accepts_sym(rows, p, w));
            },
            None => {
                assert(false);
            },
        }
    }
}

/// A state that accepts some string reaches acceptance: follow the string.
pub proof fn lemma_word_gives_reach(rows: Seq<RowV>, p: int, w: Seq<usize>)
    requires
        accepts_sym(rows, p, w),
    ensures
        reaches_accepting(rows, p),
    decreases w.len(),
{
    if w.len() == 0 {
        assert(reaches_in(rows, p, 0));
    } else {
        match rows[p].transitions[w[0] as int] {
            Some(t) => {
                lemma_word_gives_reach(rows, t as int, w.drop_first());
                lemma_reach_step(rows, p, w[0] as int, t);
            },
            None => {
                assert(false);
            },
        }
    }
}

/// The class of the transition target of state `p` on symbol `c`, `None` for
/// an absent transition: the signature entry partition refinement groups by.
pub open spec fn tclass(rows: Seq<RowV>, class: Seq<usize>, p: int, c: int) -> Option<usize> {
    match rows[p].transitions[c] {
        None => None,
        Some(t) => Some(class[t as int]),
    }
}

/// Two states carry the same refinement signature: same current class, and
/// for every symbol the same target class (or both absent).
pub open spec fn sig_equal(rows: Seq<RowV>, class: Seq<usize>, p: int, q: int) -> bool {
    &&& class[p] == class[q]
    &&& forall|c: int|
        0 <= c < rows[p].transitions.len() ==> #[trigger] tclass(rows, class, p, c) == tclass(
            rows,
            class,
            q,
            c,
        )
}

/// A class assignment is canonical: every state's class is the least state of
/// its class, which names itself.
pub open spec fn classes_canonical(class: Seq<usize>) -> bool {
    forall|i: int|
        0 <= i < class.len() ==> (#[trigger] class[i]) as int <= i && class[class[i] as int]
            == class[i]
}

/// A stable partition: states of one class agree on acceptance and, for every
/// symbol, on the class of the target (or both lack the transition).
pub open spec fn classes_stable(rows: Seq<RowV>, class: Seq<usize>) -> bool {
    forall|p: int, q: int|
        0 <= p < rows.len() && 0 <= q < rows.len() && #[trigger] class[p] == #[trigger] class[q]
            ==> (rows[p].accepting == rows[q].accepting && forall|c: int|
            0 <= c < rows[p].transitions.len() ==> #[trigger] tclass(rows, class, p, c) == tclass(
                rows,
                class,
                q,
                c,
            ))
}

/// The partition never conflates: states of distinct classes are behaviorally
/// distinguishable.
pub open spec fn classes_distinguish(rows: Seq<RowV>, class: Seq<usize>) -> bool {
    forall|p: int, q: int|
        0 <= p < rows.len() && 0 <= q < rows.len() && #[trigger] class[p] != #[trigger] class[q]
            ==> !state_equiv(rows, p, q)
}

/// Which rows survive a class merge: the least member of every class.
pub open spec fn class_keep(class: Seq<usize>) -> Seq<bool> {
    Seq::new(class.len(), |i: int| class[i] as int == i)
}

/// Every present transition leads to a state that reaches acceptance.
pub open spec fn all_targets_alive(rows: Seq<RowV>) -> bool {
    forall|i: int, c: int|
        0 <= i < rows.len() && 0 <= c < rows[i].transitions.len() ==> ((#[trigger] rows[
            i
        ].transitions[c]) matches Some(t) ==> reaches_accepting(rows, t as int))
}

/// States of one class of a stable partition accept exactly the same strings.
pub proof fn lemma_stable_equiv(
    rows: Seq<RowV>,
    class: Seq<usize>,
    p: int,
    q: int,
    w: Seq<usize>,
)
    requires
        table_wf(rows),
        class.len() == rows.len(),
        classes_stable(rows, class),
        0 <= p < rows.len(),
        0 <= q < rows.len(),
        class[p] == class[q],
    ensures
        accepts_sym(rows, p, w) == accepts_sym(rows, q, w),
    decreases w.len(),
{
    if w.len() > 0 {
        assert(rows[p].transitions.len() == width(rows));
        assert(rows[q].transitions.len() == width(rows));
        if w[0] < rows[p].transitions.len() {
            let c = w[0] as int;
            assert(tclass(rows, class, p, c) == tclass(rows, class, q, c));
            match rows[p].transitions[c] {
                Some(t1) => {
                    match rows[q].transitions[c] {
                        Some(t2) => {
                            lemma_stable_equiv(rows, class, t1 as int, t2 as int, w.drop_first());
                        },
                        None => {
                            assert(false);
                        },
                    }
                },
                None => {
                    assert(rows[q].transitions[c] is None);
                },
            }
        }
    }
}

/// Two rows are indistinguishable on sight: same accepting flag and the very
/// same transition vector (ids disregarded).
pub open spec fn rows_equal(a: RowV, b: RowV) -> bool {
    a.accepting == b.accepting && a.transitions =~= b.transitions
}

/// A table on which `optimize` has nothing left to do: well formed, at least
/// the start row, every state but possibly the start reaches acceptance, a
/// dead start has no incoming edges, and no two states are behaviorally
/// equivalent — the table is minimal in the Myhill-Nerode sense.
pub open spec fn minimal(rows: Seq<RowV>) -> bool {
    &&& table_wf(rows)
    &&& rows.len() >= 1
    &&& forall|i: int| 1 <= i < rows.len() ==> reaches_accepting(rows, i)
    &&& start_resolved(rows)
    &&& forall|i: int, j: int| 0 <= i < j < rows.len() ==> !#[trigger] state_equiv(rows, i, j)
}

/// The two tables accept exactly the same strings, whatever the character
/// mapping: the languages coincide.
pub open spec fn lang_equiv(a: Seq<RowV>, b: Seq<RowV>) -> bool {
    forall|cmap: Map<char, usize>, s: Seq<char>|
        (#[trigger] table_match(a, cmap, s)) is None <==> (#[trigger] table_match(b, cmap, s)) is None
}

/// How many of the first `i` entries of `keep` are set: the new index that
/// the `i`th old row receives when the rows marked `false` are removed.
pub open spec fn rank(keep: Seq<bool>, i: int) -> int
    decreases i,
{
    if i <= 0 {
        0
    } else {
        rank(keep, i - 1) + if keep[i - 1] {
            1int
        } else {
            0int
        }
    }
}

/// Where a transition target lands after redirecting and compacting: the
/// target is first rewritten through `redirect`; if the rewritten row
/// survives it is renumbered to its rank, otherwise the transition is
/// cleared.
pub open spec fn compact_target(
    keep: Seq<bool>,
    redirect: Seq<usize>,
    t: Option<usize>,
) -> Option<usize> {
    match t {
        None => None,
        Some(x) => {
            let y = redirect[x as int] as int;
            if keep[y] {
                Some(rank(keep, y) as usize)
            } else {
                None
            }
        },
    }
}

/// `rank` never exceeds the number of entries inspected and never decreases.
pub proof fn lemma_rank_bounds(keep: Seq<bool>, i: int)
    requires
        0 <= i <= keep.len(),
    ensures
        0 <= rank(keep, i) <= i,
    decreases i,
{
    if i > 0 {
        lemma_rank_bounds(keep, i - 1);
    }
}

/// `rank` is monotone, and strictly so past a kept index.
pub proof fn lemma_rank_monotone(keep: Seq<bool>, i: int, j: int)
    requires
        0 <= i <= j <= keep.len(),
    ensures
        rank(keep, i) <= rank(keep, j),
        i < j && keep[i] ==> rank(keep, i) < rank(keep, j),
    decreases j - i,
{
    if i < j {
        lemma_rank_monotone(keep, i + 1, j);
    }
}

/// Every new index below the total rank is the rank of some kept old index.
pub proof fn lemma_rank_inverse(keep: Seq<bool>, j: int) -> (i: int)
    requires
        0 <= j < rank(keep, keep.len() as int),
    ensures
        0 <= i < keep.len(),
        keep[i],
        rank(keep, i) == j,
    decreases keep.len(),
{
    let n = keep.len() as int;
    if keep[n - 1] && rank(keep, n - 1) == j {
        n - 1
    } else {
        lemma_rank_bounds(keep, n - 1);
        assert(rank(keep.drop_last(), n - 1) == rank(keep, n - 1)) by {
            lemma_rank_prefix_agree(keep.drop_last(), keep, n - 1);
        }
        let i = lemma_rank_inverse(keep.drop_last(), j);
        assert(rank(keep.drop_last(), i) == rank(keep, i)) by {
            lemma_rank_prefix_agree(keep.drop_last(), keep, i);
        }
        i
    }
}

/// `rank` only looks at the entries below `i`: two sequences that agree there
/// assign the same rank.
pub proof fn lemma_rank_prefix_agree(a: Seq<bool>, b: Seq<bool>, i: int)
    requires
        0 <= i <= a.len(),
        i <= b.len(),
        forall|k: int| 0 <= k < i ==> a[k] == b[k],
    ensures
        rank(a, i) == rank(b, i),
    decreases i,
{
    if i > 0 {
        lemma_rank_prefix_agree(a, b, i - 1);
    }
}

/// How many entries of a boolean sequence are set.
pub open spec fn count_true(s: Seq<bool>) -> int {
    rank(s, s.len() as int)
}

/// No transition leads from a state outside `alive` into `alive`: the set is
/// closed under predecessors of accepting paths.
pub open spec fn dead_closed(rows: Seq<RowV>, alive: Seq<bool>) -> bool {
    forall|s: int, c: int|
        0 <= s < rows.len() && !alive[s] && 0 <= c < rows[s].transitions.len() ==> ((
        #[trigger] rows[s].transitions[c]) matches Some(t) ==> !alive[t as int])
}

/// No state outside `alive` accepts.
pub open spec fn dead_rejecting(rows: Seq<RowV>, alive: Seq<bool>) -> bool {
    forall|s: int| 0 <= s < rows.len() && !(#[trigger] alive[s]) ==> !rows[s].accepting
}

/// A state with a transition into a state that reaches acceptance reaches
/// acceptance itself.
pub proof fn lemma_reach_step(rows: Seq<RowV>, s: int, c: int, t: usize)
    requires
        0 <= s < rows.len(),
        0 <= c < rows[s].transitions.len(),
        rows[s].transitions[c] == Some(t),
        reaches_accepting(rows, t as int),
    ensures
        reaches_accepting(rows, s),
{
    let f = choose|f: nat| reaches_in(rows, t as int, f);
    assert((#[trigger] rows[s].transitions[c]) matches Some(tt) && reaches_in(
        rows,
        tt as int,
        f,
    ));
    assert(reaches_in(rows, s, f + 1));
}

/// A set that contains no accepting state and is never entered from outside
/// contains every state that reaches acceptance: whoever reaches acceptance
/// lies in `alive`.
pub proof fn lemma_dead_closed_complete(rows: Seq<RowV>, alive: Seq<bool>, s: int, fuel: nat)
    requires
        alive.len() == rows.len(),
        dead_closed(rows, alive),
        dead_rejecting(rows, alive),
        reaches_in(rows, s, fuel),
    ensures
        alive[s],
    decreases fuel,
{
    if !alive[s] {
        assert(!rows[s].accepting);
        let c = choose|c: int|
            0 <= c < rows[s].transitions.len() && ((#[trigger] rows[s].transitions[c]) matches Some(
                t,
            ) && reaches_in(rows, t as int, (fuel - 1) as nat));
        match rows[s].transitions[c] {
            Some(t) => {
                lemma_dead_closed_complete(rows, alive, t as int, (fuel - 1) as nat);
                assert(false);
            },
            None => {
                assert(false);
            },
        }
    }
}

/// The row that compacting with `keep` and `redirect` makes of old row `i`.
pub open spec fn compacted_row(
    old_rows: Seq<RowV>,
    keep: Seq<bool>,
    redirect: Seq<usize>,
    i: int,
) -> RowV {
    RowV {
        accepting: old_rows[i].accepting,
        id: rank(keep, i) as usize,
        transitions: Seq::new(
            old_rows[i].transitions.len(),
            |c: int| compact_target(keep, redirect, old_rows[i].transitions[c]),
        ),
    }
}

/// A table built by compacting a well-formed table is well formed again:
/// ids stay dense, the width is kept, and every rewritten target names a
/// surviving row.
pub proof fn lemma_compact_result_wf(
    old_rows: Seq<RowV>,
    keep: Seq<bool>,
    redirect: Seq<usize>,
    new_rows: Seq<RowV>,
)
    requires
        table_wf(old_rows),
        old_rows.len() <= usize::MAX,
        keep.len() == old_rows.len(),
        redirect.len() == old_rows.len(),
        forall|i: int| 0 <= i < redirect.len() ==> #[trigger] redirect[i] < old_rows.len(),
        new_rows.len() == count_true(keep),
        forall|i: int|
            0 <= i < old_rows.len() && keep[i] ==> new_rows[rank(keep, i)]
                == #[trigger] compacted_row(old_rows, keep, redirect, i),
    ensures
        table_wf(new_rows),
        new_rows.len() > 0 ==> width(new_rows) == width(old_rows),
{
    let n = old_rows.len() as int;
    assert forall|j: int| 0 <= j < new_rows.len() implies (#[trigger] new_rows[j]).id == j
        && new_rows[j].transitions.len() == width(old_rows) by {
        let i = lemma_rank_inverse(keep, j);
        lemma_rank_bounds(keep, i);
        assert(new_rows[j] == compacted_row(old_rows, keep, redirect, i));
        assert(old_rows[i].transitions.len() == width(old_rows));
    }
    if new_rows.len() > 0 {
        assert(width(new_rows) == new_rows[0].transitions.len());
    }
    assert forall|j: int, c: int|
        0 <= j < new_rows.len() && 0 <= c < new_rows[j].transitions.len() implies ((
    #[trigger] new_rows[j].transitions[c]) matches Some(t) ==> t < new_rows.len()) by {
        let i = lemma_rank_inverse(keep, j);
        lemma_rank_bounds(keep, i);
        assert(new_rows[j] == compacted_row(old_rows, keep, redirect, i));
        assert(new_rows[j].transitions[c] == compact_target(
            keep,
            redirect,
            old_rows[i].transitions[c],
        ));
        match old_rows[i].transitions[c] {
            None => {},
            Some(x) => {
                let y = redirect[x as int] as int;
                if keep[y] {
                    lemma_rank_bounds(keep, y);
                    lemma_rank_monotone(keep, y, n);
                }
            },
        }
    }
}

/// When every entry of `keep` is set, the rank of an index is the index.
pub proof fn lemma_rank_all_true(keep: Seq<bool>, i: int)
    requires
        0 <= i <= keep.len(),
        forall|k: int| 0 <= k < keep.len() ==> #[trigger] keep[k],
    ensures
        rank(keep, i) == i,
    decreases i,
{
    if i > 0 {
        lemma_rank_all_true(keep, i - 1);
    }
}

/// Setting one clear entry raises the number of set entries by exactly one.
pub proof fn lemma_count_true_update(s: Seq<bool>, i: int)
    requires
        0 <= i < s.len(),
        !s[i],
    ensures
        count_true(s.update(i, true)) == count_true(s) + 1,
{
    let t = s.update(i, true);
    lemma_rank_prefix_agree(s, t, i);
    lemma_rank_split_at(s, i + 1, s.len() as int);
    lemma_rank_split_at(t, i + 1, t.len() as int);
    lemma_rank_suffix_agree(s, t, i + 1, s.len() as int);
}

/// `rank` over a whole range splits at any midpoint into the prefix rank and
/// the count of set entries in between.
pub proof fn lemma_rank_split_at(s: Seq<bool>, m: int, j: int)
    requires
        0 <= m <= j <= s.len(),
    ensures
        rank(s, j) == rank(s, m) + rank_between(s, m, j),
    decreases j - m,
{
    if m < j {
        lemma_rank_split_at(s, m + 1, j);
    }
}

/// The number of set entries in `[m, j)`.
pub open spec fn rank_between(s: Seq<bool>, m: int, j: int) -> int
    decreases j - m,
{
    if m >= j {
        0
    } else {
        (if s[m] {
            1int
        } else {
            0int
        }) + rank_between(s, m + 1, j)
    }
}

/// A range of clear entries counts nothing.
pub proof fn lemma_rank_between_zero(s: Seq<bool>, m: int, j: int)
    requires
        0 <= m <= j <= s.len(),
        forall|k: int| m <= k < j ==> !(#[trigger] s[k]),
    ensures
        rank_between(s, m, j) == 0,
    decreases j - m,
{
    if m < j {
        lemma_rank_between_zero(s, m + 1, j);
    }
}

/// Two sequences that agree on `[m, j)` hold the same number of set entries
/// there.
pub proof fn lemma_rank_suffix_agree(a: Seq<bool>, b: Seq<bool>, m: int, j: int)
    requires
        0 <= m <= j,
        j <= a.len(),
        j <= b.len(),
        forall|k: int| m <= k < j ==> a[k] == b[k],
    ensures
        rank_between(a, m, j) == rank_between(b, m, j),
    decreases j - m,
{
    if m < j {
        lemma_rank_suffix_agree(a, b, m + 1, j);
    }
}

/// Whether any member of a merge group accepts.
pub open spec fn group_or(rows: Seq<RowV>, group: Seq<usize>) -> bool {
    exists|j: int| 0 <= j < group.len() && rows[group[j] as int].accepting
}

/// The table after the representative (the group's first member) takes the
/// logical OR of the group's accepting flags, before the other members are
/// removed.
pub open spec fn merged_accepting(rows: Seq<RowV>, group: Seq<usize>) -> Seq<RowV> {
    rows.update(
        group[0] as int,
        RowV { accepting: group_or(rows, group), ..rows[group[0] as int] },
    )
}

/// Which rows survive a merge: the representative, and every row outside the
/// group.
pub open spec fn group_keep(n: nat, group: Seq<usize>) -> Seq<bool> {
    Seq::new(n, |i: int| i == group[0] as int || !group.contains(i as usize))
}

/// Where transitions point after a merge: group members fold onto the
/// representative, everything else stays put.
pub open spec fn group_redirect(n: nat, group: Seq<usize>) -> Seq<usize> {
    Seq::new(
        n,
        |i: int|
            if group.contains(i as usize) {
                group[0]
            } else {
                i as usize
            },
    )
}

/// The two-element merge group of `a` and `b`.
pub open spec fn pair_group(a: usize, b: usize) -> Seq<usize> {
    seq![a, b]
}

/// Which rows survive dead-state removal: the start, and every state from
/// which an accepting state is reachable.
pub open spec fn alive_keep(rows: Seq<RowV>) -> Seq<bool> {
    Seq::new(rows.len(), |i: int| i == 0 || reaches_accepting(rows, i))
}

/// Which rows survive removing one row.
pub open spec fn remove_keep(n: nat, rem: int) -> Seq<bool> {
    Seq::new(n, |i: int| i != rem)
}

/// The redirect that moves nothing.
pub open spec fn identity_redirect(n: nat) -> Seq<usize> {
    Seq::new(n, |i: int| i as usize)
}

/// The count of set entries over `[m, j)` never exceeds the range's length.
pub proof fn lemma_rank_between_bounds(s: Seq<bool>, m: int, j: int)
    requires
        0 <= m <= j <= s.len(),
    ensures
        0 <= rank_between(s, m, j) <= j - m,
    decreases j - m,
{
    if m < j {
        lemma_rank_between_bounds(s, m + 1, j);
    }
}

/// A sequence with at least one clear entry has fewer set entries than its
/// length.
pub proof fn lemma_count_lt_if_false(s: Seq<bool>, i: int)
    requires
        0 <= i < s.len(),
        !s[i],
    ensures
        count_true(s) < s.len(),
{
    let n = s.len() as int;
    lemma_rank_split_at(s, i + 1, n);
    lemma_rank_between_bounds(s, i + 1, n);
    lemma_rank_bounds(s, i);
}

/// What dead-state removal leaves behind: the start state keeps its flag,
/// every surviving state other than the start reaches acceptance, and a table
/// that already had no dead non-start state comes back unchanged.
pub proof fn lemma_dead_removal_facts(
    old_rows: Seq<RowV>,
    keep: Seq<bool>,
    redirect: Seq<usize>,
    new_rows: Seq<RowV>,
)
    requires
        table_wf(old_rows),
        1 <= old_rows.len() <= usize::MAX,
        keep.len() == old_rows.len(),
        redirect.len() == old_rows.len(),
        forall|i: int| 0 <= i < redirect.len() ==> #[trigger] redirect[i] == i,
        keep[0],
        forall|t: int|
            1 <= t < old_rows.len() ==> (#[trigger] keep[t] <==> reaches_accepting(old_rows, t)),
        new_rows.len() == count_true(keep),
        forall|i: int|
            0 <= i < old_rows.len() && keep[i] ==> new_rows[rank(keep, i)]
                == #[trigger] compacted_row(old_rows, keep, redirect, i),
    ensures
        new_rows.len() >= 1,
        new_rows[0].accepting == old_rows[0].accepting,
        forall|i: int| 1 <= i < new_rows.len() ==> reaches_accepting(new_rows, i),
        (forall|i: int| 1 <= i < old_rows.len() ==> reaches_accepting(old_rows, i)) ==> new_rows
            == old_rows,
{
    let n = old_rows.len() as int;
    lemma_rank_monotone(keep, 1, n);
    assert(rank(keep, 0) == 0);
    assert(rank(keep, 1) == 1);
    assert(new_rows[0] == compacted_row(old_rows, keep, redirect, 0));
    assert forall|t: int|
        0 <= t < old_rows.len() && reaches_accepting(old_rows, t) implies #[trigger] keep[t] by {}
    assert forall|i: int| 1 <= i < new_rows.len() implies reaches_accepting(new_rows, i) by {
        let k = lemma_rank_inverse(keep, i);
        if k == 0 {
            assert(rank(keep, 0) == 0);
        }
        assert(reaches_accepting(old_rows, k));
        let f = choose|f: nat| reaches_in(old_rows, k, f);
        lemma_compact_preserves_reach(old_rows, keep, redirect, new_rows, k, f);
        assert(reaches_in(new_rows, i, f));
    }
    if forall|i: int| 1 <= i < old_rows.len() ==> reaches_accepting(old_rows, i) {
        assert forall|k: int| 0 <= k < keep.len() implies #[trigger] keep[k] by {}
        lemma_rank_all_true(keep, n);
        assert forall|i: int| 0 <= i < old_rows.len() implies new_rows[i] == old_rows[i] by {
            lemma_rank_all_true(keep, i);
            assert(new_rows[i] == compacted_row(old_rows, keep, redirect, i));
            assert forall|c: int|
                0 <= c < old_rows[i].transitions.len() implies compact_target(
                keep,
                redirect,
                #[trigger] old_rows[i].transitions[c],
            ) == old_rows[i].transitions[c] by {
                match old_rows[i].transitions[c] {
                    None => {},
                    Some(x) => {
                        lemma_rank_all_true(keep, x as int);
                    },
                }
            }
            assert(compacted_row(old_rows, keep, redirect, i).transitions =~= old_rows[
                i
            ].transitions);
            assert(compacted_row(old_rows, keep, redirect, i) =~= old_rows[i]);
        }
        assert(new_rows =~= old_rows);
    }
}

/// `lang_equiv` chains.
pub proof fn lemma_lang_equiv_trans(a: Seq<RowV>, b: Seq<RowV>, c: Seq<RowV>)
    requires
        lang_equiv(a, b),
        lang_equiv(b, c),
    ensures
        lang_equiv(a, c),
{
    assert forall|cmap: Map<char, usize>, s: Seq<char>|
        (#[trigger] table_match(a, cmap, s)) is None <==> (#[trigger] table_match(c, cmap, s))
            is None by {
        assert(table_match(a, cmap, s) is None <==> table_match(b, cmap, s) is None);
        assert(table_match(b, cmap, s) is None <==> table_match(c, cmap, s) is None);
    }
}

/// Every table accepts the same strings as itself.
pub proof fn lemma_lang_equiv_refl(a: Seq<RowV>)
    ensures
        lang_equiv(a, a),
{
}

/// From a state that reaches no accepting state, the matcher never reports a
/// match, whatever the rest of the input.
proof fn lemma_dead_never_matches(
    rows: Seq<RowV>,
    cmap: Map<char, usize>,
    s: Seq<char>,
    i: int,
    state: int,
)
    requires
        0 <= state < rows.len() ==> !reaches_accepting(rows, state),
    ensures
        match_from(rows, cmap, s, i, state) is Some,
    decreases s.len() - i,
{
    if 0 <= state < rows.len() && 0 <= i <= s.len() {
        if i == s.len() {
            if rows[state].accepting {
                assert(reaches_in(rows, state, 0));
            }
        } else if cmap.contains_key(s[i]) && cmap[s[i]] < rows[state].transitions.len() {
            let c = cmap[s[i]] as int;
            match rows[state].transitions[c] {
                None => {},
                Some(t) => {
                    if 0 <= t < rows.len() && reaches_accepting(rows, t as int) {
                        lemma_reach_step(rows, state, c, t);
                        assert(false);
                    }
                    lemma_dead_never_matches(rows, cmap, s, i + 1, t as int);
                },
            }
        }
    }
}

/// Running the matcher through a dead-state removal: a surviving state
/// matches the rest of the input in the new table exactly when it did in the
/// old one. Fail positions may move — a run that stepped into a dead state
/// fails earlier once the transition is cleared — but matching is preserved.
proof fn lemma_dead_match_rec(
    old_rows: Seq<RowV>,
    keep: Seq<bool>,
    redirect: Seq<usize>,
    new_rows: Seq<RowV>,
    cmap: Map<char, usize>,
    s: Seq<char>,
    i: int,
    state: int,
)
    requires
        table_wf(old_rows),
        old_rows.len() <= usize::MAX,
        keep.len() == old_rows.len(),
        redirect.len() == old_rows.len(),
        forall|k: int| 0 <= k < redirect.len() ==> #[trigger] redirect[k] == k,
        new_rows.len() == count_true(keep),
        forall|k: int|
            0 <= k < old_rows.len() && keep[k] ==> new_rows[rank(keep, k)]
                == #[trigger] compacted_row(old_rows, keep, redirect, k),
        forall|t: int|
            0 <= t < old_rows.len() && reaches_accepting(old_rows, t) ==> #[trigger] keep[t],
        0 <= state < old_rows.len(),
        keep[state],
        0 <= i <= s.len(),
    ensures
        match_from(old_rows, cmap, s, i, state) is None <==> match_from(
            new_rows,
            cmap,
            s,
            i,
            rank(keep, state),
        ) is None,
    decreases s.len() - i,
{
    let j = rank(keep, state);
    lemma_rank_bounds(keep, state);
    lemma_rank_monotone(keep, state, keep.len() as int);
    assert(new_rows[j] == compacted_row(old_rows, keep, redirect, state));
    if i == s.len() {
    } else if !cmap.contains_key(s[i]) {
    } else if cmap[s[i]] >= old_rows[state].transitions.len() {
        assert(new_rows[j].transitions.len() == old_rows[state].transitions.len());
    } else {
        let c = cmap[s[i]] as int;
        assert(new_rows[j].transitions[c] == compact_target(
            keep,
            redirect,
            old_rows[state].transitions[c],
        ));
        match old_rows[state].transitions[c] {
            None => {},
            Some(t) => {
                if keep[t as int] {
                    lemma_rank_bounds(keep, t as int);
                    lemma_dead_match_rec(
                        old_rows,
                        keep,
                        redirect,
                        new_rows,
                        cmap,
                        s,
                        i + 1,
                        t as int,
                    );
                } else {
                    assert(!reaches_accepting(old_rows, t as int));
                    lemma_dead_never_matches(old_rows, cmap, s, i + 1, t as int);
                    assert(new_rows[j].transitions[c] is None);
                }
            },
        }
    }
}

/// Dead-state removal preserves the language: the old and the new table
/// accept exactly the same strings.
pub proof fn lemma_dead_removal_lang(
    old_rows: Seq<RowV>,
    keep: Seq<bool>,
    redirect: Seq<usize>,
    new_rows: Seq<RowV>,
)
    requires
        table_wf(old_rows),
        1 <= old_rows.len() <= usize::MAX,
        keep.len() == old_rows.len(),
        redirect.len() == old_rows.len(),
        forall|k: int| 0 <= k < redirect.len() ==> #[trigger] redirect[k] == k,
        keep[0],
        forall|t: int|
            1 <= t < old_rows.len() ==> (#[trigger] keep[t] <==> reaches_accepting(old_rows, t)),
        new_rows.len() == count_true(keep),
        forall|k: int|
            0 <= k < old_rows.len() && keep[k] ==> new_rows[rank(keep, k)]
                == #[trigger] compacted_row(old_rows, keep, redirect, k),
    ensures
        lang_equiv(old_rows, new_rows),
{
    lemma_rank_monotone(keep, 1, old_rows.len() as int);
    assert(rank(keep, 0) == 0);
    assert(rank(keep, 1) == 1);
    assert(new_rows[0] == compacted_row(old_rows, keep, redirect, 0));
    assert forall|t: int|
        0 <= t < old_rows.len() && reaches_accepting(old_rows, t) implies #[trigger] keep[t] by {}
    assert forall|cmap: Map<char, usize>, s: Seq<char>|
        (#[trigger] table_match(old_rows, cmap, s)) is None <==> (#[trigger] table_match(
            new_rows,
            cmap,
            s,
        )) is None by {
        if !(s.len() == 0 && !old_rows[0].accepting) {
            lemma_dead_match_rec(old_rows, keep, redirect, new_rows, cmap, s, 0, 0);
        }
    }
}

/// Running the matcher through a merge of indistinguishable rows: every old
/// state behaves exactly like its image, with even the failure positions
/// preserved, because the representative's row cannot be told from a removed
/// member's.
proof fn lemma_merge_match_rec(
    old_rows: Seq<RowV>,
    group: Seq<usize>,
    new_rows: Seq<RowV>,
    cmap: Map<char, usize>,
    s: Seq<char>,
    i: int,
    state: int,
)
    requires
        table_wf(old_rows),
        1 <= old_rows.len() <= usize::MAX,
        group.len() >= 1,
        forall|a: int, b: int| 0 <= a < b < group.len() ==> group[a] < group[b],
        forall|a: int| 0 <= a < group.len() ==> #[trigger] group[a] < old_rows.len(),
        forall|a: int|
            0 <= a < group.len() ==> rows_equal(
                old_rows[#[trigger] group[a] as int],
                old_rows[group[0] as int],
            ),
        new_rows.len() == count_true(group_keep(old_rows.len(), group)),
        forall|k: int|
            0 <= k < old_rows.len() && group_keep(old_rows.len(), group)[k] ==> new_rows[rank(
                group_keep(old_rows.len(), group),
                k,
            )] == #[trigger] compacted_row(
                old_rows,
                group_keep(old_rows.len(), group),
                group_redirect(old_rows.len(), group),
                k,
            ),
        0 <= state < old_rows.len(),
        0 <= i <= s.len(),
    ensures
        match_from(old_rows, cmap, s, i, state) == match_from(
            new_rows,
            cmap,
            s,
            i,
            rank(
                group_keep(old_rows.len(), group),
                group_redirect(old_rows.len(), group)[state] as int,
            ),
        ),
    decreases s.len() - i,
{
    let n = old_rows.len() as int;
    let gk = group_keep(old_rows.len(), group);
    let gr = group_redirect(old_rows.len(), group);
    let rep = group[0] as int;
    let m = gr[state] as int;
    assert(gk[m]) by {
        if group.contains(state as usize) {
        } else {
            assert(gr[state] == state as usize);
            assert(gk[state]);
        }
    }
    let j = rank(gk, m);
    lemma_rank_bounds(gk, m);
    lemma_rank_monotone(gk, m, n);
    assert(new_rows[j] == compacted_row(old_rows, gk, gr, m));
    assert(rows_equal(old_rows[m], old_rows[state])) by {
        if group.contains(state as usize) {
            let a = choose|a: int| 0 <= a < group.len() && group[a] == state as usize;
            assert(rows_equal(old_rows[state], old_rows[rep]));
        }
    }
    assert(new_rows[j].accepting == old_rows[state].accepting);
    assert(new_rows[j].transitions.len() == old_rows[state].transitions.len());
    if i == s.len() {
    } else if !cmap.contains_key(s[i]) {
    } else if cmap[s[i]] >= old_rows[state].transitions.len() {
    } else {
        let c = cmap[s[i]] as int;
        assert(new_rows[j].transitions[c] == compact_target(gk, gr, old_rows[m].transitions[c]));
        assert(old_rows[m].transitions[c] == old_rows[state].transitions[c]);
        match old_rows[state].transitions[c] {
            None => {},
            Some(t) => {
                assert(gk[gr[t as int] as int]) by {
                    if group.contains(t) {
                    } else {
                        assert(gr[t as int] == t);
                    }
                }
                lemma_rank_bounds(gk, gr[t as int] as int);
                assert(new_rows[j].transitions[c] == Some(
                    rank(gk, gr[t as int] as int) as usize,
                ));
                lemma_merge_match_rec(old_rows, group, new_rows, cmap, s, i + 1, t as int);
                assert((rank(gk, gr[t as int] as int) as usize) as int == rank(
                    gk,
                    gr[t as int] as int,
                ));
            },
        }
    }
}

/// Merging a group of indistinguishable rows preserves the language — in
/// fact the whole match verdict, failure positions included.
pub proof fn lemma_merge_lang(old_rows: Seq<RowV>, group: Seq<usize>, new_rows: Seq<RowV>)
    requires
        table_wf(old_rows),
        1 <= old_rows.len() <= usize::MAX,
        group.len() >= 1,
        forall|a: int, b: int| 0 <= a < b < group.len() ==> group[a] < group[b],
        forall|a: int| 0 <= a < group.len() ==> #[trigger] group[a] < old_rows.len(),
        forall|a: int|
            0 <= a < group.len() ==> rows_equal(
                old_rows[#[trigger] group[a] as int],
                old_rows[group[0] as int],
            ),
        new_rows.len() == count_true(group_keep(old_rows.len(), group)),
        forall|k: int|
            0 <= k < old_rows.len() && group_keep(old_rows.len(), group)[k] ==> new_rows[rank(
                group_keep(old_rows.len(), group),
                k,
            )] == #[trigger] compacted_row(
                old_rows,
                group_keep(old_rows.len(), group),
                group_redirect(old_rows.len(), group),
                k,
            ),
    ensures
        lang_equiv(old_rows, new_rows),
        forall|cmap: Map<char, usize>, s: Seq<char>|
            #[trigger] table_match(old_rows, cmap, s) == #[trigger] table_match(new_rows, cmap, s),
{
    let gk = group_keep(old_rows.len(), group);
    let gr = group_redirect(old_rows.len(), group);
    assert(gk[0] && gr[0] as int == (if group[0] == 0 {
        group[0] as int
    } else {
        0
    })) by {
        if group.contains(0usize) {
            let a = choose|a: int| 0 <= a < group.len() && group[a] == 0usize;
            if a > 0 {
                assert(group[0] < group[a]);
            }
        }
    }
    assert(rank(gk, 0) == 0);
    assert(gk[gr[0] as int]);
    assert(rank(gk, gr[0] as int) == 0) by {
        if group.contains(0usize) {
            assert(group[0] == 0);
        }
    }
    assert(new_rows[0] == compacted_row(old_rows, gk, gr, gr[0] as int));
    assert(rows_equal(old_rows[gr[0] as int], old_rows[0])) by {
        if group.contains(0usize) {
            assert(group[0] == 0);
        }
    }
    assert(new_rows[0].accepting == old_rows[0].accepting);
    assert(new_rows.len() >= 1) by {
        lemma_rank_monotone(gk, 1, old_rows.len() as int);
        assert(rank(gk, 1) == 1);
    }
    assert forall|cmap: Map<char, usize>, s: Seq<char>|
        #[trigger] table_match(old_rows, cmap, s) == #[trigger] table_match(
            new_rows,
            cmap,
            s,
        ) by {
        if !(s.len() == 0 && !old_rows[0].accepting) {
            lemma_merge_match_rec(old_rows, group, new_rows, cmap, s, 0, 0);
        }
    }
}

/// States of one class agree on acceptance.
pub open spec fn classes_acc(rows: Seq<RowV>, class: Seq<usize>) -> bool {
    forall|p: int, q: int|
        0 <= p < rows.len() && 0 <= q < rows.len() && #[trigger] class[p] == #[trigger] class[q]
            ==> rows[p].accepting == rows[q].accepting
}

/// What one refinement round establishes for state `i`: its new class is the
/// least state with the same signature.
pub open spec fn round_assigned(
    rows: Seq<RowV>,
    class: Seq<usize>,
    nc: Seq<usize>,
    i: int,
) -> bool {
    &&& nc[i] as int <= i
    &&& sig_equal(rows, class, i, nc[i] as int)
    &&& forall|j: int| 0 <= j < nc[i] ==> !#[trigger] sig_equal(rows, class, i, j)
}

/// Same signature is symmetric.
pub proof fn lemma_sig_symm(rows: Seq<RowV>, class: Seq<usize>, p: int, q: int)
    requires
        table_wf(rows),
        0 <= p < rows.len(),
        0 <= q < rows.len(),
        sig_equal(rows, class, p, q),
    ensures
        sig_equal(rows, class, q, p),
{
    assert(rows[p].transitions.len() == width(rows));
    assert(rows[q].transitions.len() == width(rows));
}

/// Same signature is transitive.
pub proof fn lemma_sig_trans(rows: Seq<RowV>, class: Seq<usize>, p: int, q: int, r: int)
    requires
        table_wf(rows),
        0 <= p < rows.len(),
        0 <= q < rows.len(),
        0 <= r < rows.len(),
        sig_equal(rows, class, p, q),
        sig_equal(rows, class, q, r),
    ensures
        sig_equal(rows, class, p, r),
{
    assert(rows[p].transitions.len() == width(rows));
    assert(rows[q].transitions.len() == width(rows));
    assert(rows[r].transitions.len() == width(rows));
}

/// A refinement round keeps the class assignment canonical, and every old
/// class label stays a label.
pub proof fn lemma_round_canonical(rows: Seq<RowV>, class: Seq<usize>, nc: Seq<usize>)
    requires
        table_wf(rows),
        class.len() == rows.len(),
        nc.len() == rows.len(),
        classes_canonical(class),
        forall|i: int| 0 <= i < rows.len() ==> #[trigger] round_assigned(rows, class, nc, i),
    ensures
        classes_canonical(nc),
        forall|i: int| 0 <= i < rows.len() && class[i] as int == i ==> #[trigger] nc[i] as int == i,
{
    assert forall|i: int|
        0 <= i < rows.len() implies (#[trigger] nc[i]) as int <= i && nc[nc[i] as int] == nc[
    i] by {
        assert(round_assigned(rows, class, nc, i));
        let j = nc[i] as int;
        assert(round_assigned(rows, class, nc, j));
        if (nc[j] as int) < j {
            let j2 = nc[j] as int;
            lemma_sig_symm(rows, class, j, j2);
            lemma_sig_trans(rows, class, i, j, j2);
            assert(sig_equal(rows, class, i, j2));
            assert(false);
        }
    }
    assert forall|i: int|
        0 <= i < rows.len() && class[i] as int == i implies (#[trigger] nc[i]) as int == i by {
        assert(round_assigned(rows, class, nc, i));
        let j = nc[i] as int;
        if j < i {
            assert(sig_equal(rows, class, i, j));
            assert(class[j] == class[i]);
            assert(class[j] as int <= j);
            assert(false);
        }
    }
}

/// Two states the round puts in one class had the same signature.
pub proof fn lemma_round_refines(rows: Seq<RowV>, class: Seq<usize>, nc: Seq<usize>, p: int, q: int)
    requires
        table_wf(rows),
        class.len() == rows.len(),
        nc.len() == rows.len(),
        forall|i: int| 0 <= i < rows.len() ==> #[trigger] round_assigned(rows, class, nc, i),
        0 <= p < rows.len(),
        0 <= q < rows.len(),
        nc[p] == nc[q],
    ensures
        sig_equal(rows, class, p, q),
{
    assert(round_assigned(rows, class, nc, p));
    assert(round_assigned(rows, class, nc, q));
    let m = nc[p] as int;
    lemma_sig_symm(rows, class, q, m);
    lemma_sig_trans(rows, class, p, m, q);
}

/// Two states with the same signature land in one class.
pub proof fn lemma_round_respects(
    rows: Seq<RowV>,
    class: Seq<usize>,
    nc: Seq<usize>,
    p: int,
    q: int,
)
    requires
        table_wf(rows),
        class.len() == rows.len(),
        nc.len() == rows.len(),
        forall|i: int| 0 <= i < rows.len() ==> #[trigger] round_assigned(rows, class, nc, i),
        0 <= p < rows.len(),
        0 <= q < rows.len(),
        sig_equal(rows, class, p, q),
    ensures
        nc[p] == nc[q],
{
    assert(round_assigned(rows, class, nc, p));
    assert(round_assigned(rows, class, nc, q));
    lemma_sig_symm(rows, class, p, q);
    if (nc[p] as int) < nc[q] as int {
        lemma_sig_trans(rows, class, q, p, nc[p] as int);
        assert(false);
    }
    if (nc[q] as int) < nc[p] as int {
        lemma_sig_trans(rows, class, p, q, nc[q] as int);
        assert(false);
    }
}

/// A round that separates two states of one class saw their signatures
/// differ, and a differing signature yields a distinguishing string: either a
/// present-versus-absent transition (the present target, being alive, accepts
/// some continuation) or targets of classes already known distinguishable.
pub proof fn lemma_round_distinguish(
    rows: Seq<RowV>,
    class: Seq<usize>,
    nc: Seq<usize>,
    p: int,
    q: int,
)
    requires
        table_wf(rows),
        width(rows) <= usize::MAX,
        class.len() == rows.len(),
        nc.len() == rows.len(),
        forall|i: int| 0 <= i < rows.len() ==> #[trigger] round_assigned(rows, class, nc, i),
        classes_distinguish(rows, class),
        all_targets_alive(rows),
        0 <= p < rows.len(),
        0 <= q < rows.len(),
        nc[p] != nc[q],
    ensures
        !state_equiv(rows, p, q),
{
    if class[p] != class[q] {
        assert(!state_equiv(rows, p, q));
    } else {
        assert(!sig_equal(rows, class, p, q)) by {
            if sig_equal(rows, class, p, q) {
                lemma_round_respects(rows, class, nc, p, q);
            }
        }
        assert(rows[p].transitions.len() == width(rows));
        assert(rows[q].transitions.len() == width(rows));
        let c = choose|c: int|
            0 <= c < rows[p].transitions.len() && #[trigger] tclass(rows, class, p, c) != tclass(
                rows,
                class,
                q,
                c,
            );
        let w = lemma_signature_word(rows, class, p, q, c);
        assert(accepts_sym(rows, p, w) != accepts_sym(rows, q, w));
        if state_equiv(rows, p, q) {
            assert(accepts_sym(rows, p, w) == accepts_sym(rows, q, w));
        }
    }
}

/// Builds a string that the two states disagree on, given a symbol on which
/// their target classes differ.
proof fn lemma_signature_word(
    rows: Seq<RowV>,
    class: Seq<usize>,
    p: int,
    q: int,
    c: int,
) -> (w: Seq<usize>)
    requires
        table_wf(rows),
        width(rows) <= usize::MAX,
        class.len() == rows.len(),
        classes_distinguish(rows, class),
        all_targets_alive(rows),
        0 <= p < rows.len(),
        0 <= q < rows.len(),
        0 <= c < rows[p].transitions.len(),
        0 <= c < rows[q].transitions.len(),
        tclass(rows, class, p, c) != tclass(rows, class, q, c),
    ensures
        accepts_sym(rows, p, w) != accepts_sym(rows, q, w),
{
    match rows[p].transitions[c] {
        None => {
            match rows[q].transitions[c] {
                Some(t) => {
                    assert(reaches_accepting(rows, t as int));
                    let f = choose|f: nat| reaches_in(rows, t as int, f);
                    lemma_reach_gives_word(rows, t as int, f);
                    let w0 = choose|w0: Seq<usize>| accepts_sym(rows, t as int, w0);
                    let w = seq![c as usize] + w0;
                    assert(w[0] == c as usize);
                    assert(w.drop_first() =~= w0);
                    assert(accepts_sym(rows, q, w));
                    assert(!accepts_sym(rows, p, w));
                    w
                },
                None => {
                    assert(false);
                    Seq::empty()
                },
            }
        },
        Some(t1) => {
            match rows[q].transitions[c] {
                None => {
                    assert(reaches_accepting(rows, t1 as int));
                    let f = choose|f: nat| reaches_in(rows, t1 as int, f);
                    lemma_reach_gives_word(rows, t1 as int, f);
                    let w0 = choose|w0: Seq<usize>| accepts_sym(rows, t1 as int, w0);
                    let w = seq![c as usize] + w0;
                    assert(w[0] == c as usize);
                    assert(w.drop_first() =~= w0);
                    assert(accepts_sym(rows, p, w));
                    assert(!accepts_sym(rows, q, w));
                    w
                },
                Some(t2) => {
                    assert(class[t1 as int] != class[t2 as int]);
                    assert(!state_equiv(rows, t1 as int, t2 as int));
                    assert(exists|w0: Seq<usize>|
                        #[trigger] accepts_sym(rows, t1 as int, w0) != accepts_sym(
                            rows,
                            t2 as int,
                            w0,
                        )) by {
                        if forall|w0: Seq<usize>|
                            #[trigger] accepts_sym(rows, t1 as int, w0) == accepts_sym(
                                rows,
                                t2 as int,
                                w0,
                            ) {
                            assert(state_equiv(rows, t1 as int, t2 as int));
                        }
                    }
                    let w0 = choose|w0: Seq<usize>|
                        #[trigger] accepts_sym(rows, t1 as int, w0) != accepts_sym(
                            rows,
                            t2 as int,
                            w0,
                        );
                    let w = seq![c as usize] + w0;
                    assert(w[0] == c as usize);
                    assert(w.drop_first() =~= w0);
                    assert(accepts_sym(rows, p, w) == accepts_sym(rows, t1 as int, w0));
                    assert(accepts_sym(rows, q, w) == accepts_sym(rows, t2 as int, w0));
                    w
                },
            }
        },
    }
}

/// A round that changes nothing has reached a stable partition.
pub proof fn lemma_round_stable(rows: Seq<RowV>, class: Seq<usize>, nc: Seq<usize>)
    requires
        table_wf(rows),
        class.len() == rows.len(),
        nc.len() == rows.len(),
        forall|i: int| 0 <= i < rows.len() ==> #[trigger] round_assigned(rows, class, nc, i),
        classes_acc(rows, class),
        nc == class,
    ensures
        classes_stable(rows, class),
{
    assert forall|p: int, q: int|
        0 <= p < rows.len() && 0 <= q < rows.len() && #[trigger] class[p] == #[trigger] class[q]
        implies (rows[p].accepting == rows[q].accepting && forall|c: int|
        0 <= c < rows[p].transitions.len() ==> #[trigger] tclass(rows, class, p, c) == tclass(
            rows,
            class,
            q,
            c,
        )) by {
        assert(nc[p] == nc[q]);
        lemma_round_refines(rows, class, nc, p, q);
    }
}

/// A round that changes the assignment splits some class: the number of
/// classes strictly grows.
pub proof fn lemma_round_progress(
    rows: Seq<RowV>,
    class: Seq<usize>,
    nc: Seq<usize>,
    i0: int,
)
    requires
        table_wf(rows),
        class.len() == rows.len(),
        nc.len() == rows.len(),
        classes_canonical(class),
        forall|i: int| 0 <= i < rows.len() ==> #[trigger] round_assigned(rows, class, nc, i),
        0 <= i0 < rows.len(),
        nc[i0] != class[i0],
    ensures
        count_true(class_keep(class)) < count_true(class_keep(nc)),
{
    lemma_round_canonical(rows, class, nc);
    let k = nc[i0] as int;
    assert(round_assigned(rows, class, nc, i0));
    assert(0 <= k < rows.len());
    assert(nc[k] as int == k);
    assert(class[k] as int != k) by {
        if class[k] as int == k {
            assert(sig_equal(rows, class, i0, k));
            assert(class[i0] == class[k]);
            assert(nc[i0] == class[i0]);
        }
    }
    assert(class_keep(nc)[k] && !class_keep(class)[k]);
    assert forall|j: int|
        0 <= j < class.len() && #[trigger] class_keep(class)[j] implies class_keep(nc)[j] by {}
    lemma_rank_pointwise(class_keep(class), class_keep(nc), class.len() as int);
}

/// State `i` of one table and state `j` of another accept exactly the same
/// strings of symbol indices.
pub open spec fn same_state_lang(a: Seq<RowV>, i: int, b: Seq<RowV>, j: int) -> bool {
    forall|w: Seq<usize>| #[trigger] accepts_sym(a, i, w) == accepts_sym(b, j, w)
}

/// State `j` of `b` accepts exactly the word-language of some state of `a`.
pub open spec fn covered_state(a: Seq<RowV>, b: Seq<RowV>, j: int) -> bool {
    exists|i: int| 0 <= i < a.len() && #[trigger] same_state_lang(a, i, b, j)
}

/// Every state of `b` accepts exactly the word-language of some state of `a`:
/// minimization invents no behavior, it only merges.
pub open spec fn states_covered(a: Seq<RowV>, b: Seq<RowV>) -> bool {
    forall|j: int| 0 <= j < b.len() ==> #[trigger] covered_state(a, b, j)
}

/// Coverage chains.
pub proof fn lemma_states_covered_trans(a: Seq<RowV>, b: Seq<RowV>, c: Seq<RowV>)
    requires
        states_covered(a, b),
        states_covered(b, c),
    ensures
        states_covered(a, c),
{
    assert forall|j: int| 0 <= j < c.len() implies #[trigger] covered_state(a, c, j) by {
        assert(covered_state(b, c, j));
        let m = choose|m: int| 0 <= m < b.len() && #[trigger] same_state_lang(b, m, c, j);
        assert(covered_state(a, b, m));
        let i = choose|i: int| 0 <= i < a.len() && #[trigger] same_state_lang(a, i, b, m);
        assert(same_state_lang(a, i, c, j)) by {
            assert forall|w: Seq<usize>|
                #[trigger] accepts_sym(a, i, w) == accepts_sym(c, j, w) by {
                assert(accepts_sym(a, i, w) == accepts_sym(b, m, w));
                assert(accepts_sym(b, m, w) == accepts_sym(c, j, w));
            }
        }
    }
}

/// Every table covers itself.
pub proof fn lemma_states_covered_refl(a: Seq<RowV>)
    ensures
        states_covered(a, a),
{
    assert forall|j: int| 0 <= j < a.len() implies #[trigger] covered_state(a, a, j) by {
        assert(same_state_lang(a, j, a, j)) by {
            assert forall|w: Seq<usize>|
                #[trigger] accepts_sym(a, j, w) == accepts_sym(a, j, w) by {}
        }
    }
}

/// A state that reaches no accepting state accepts no string at all.
pub proof fn lemma_dead_accepts_nothing(rows: Seq<RowV>, p: int, w: Seq<usize>)
    requires
        0 <= p < rows.len() ==> !reaches_accepting(rows, p),
    ensures
        !accepts_sym(rows, p, w),
{
    if accepts_sym(rows, p, w) {
        lemma_word_gives_reach(rows, p, w);
    }
}

/// Word runs survive dead-state removal: a surviving state accepts exactly
/// the strings it accepted before, because an accepting run never passes a
/// dead state.
pub proof fn lemma_dead_removal_word(
    old_rows: Seq<RowV>,
    keep: Seq<bool>,
    redirect: Seq<usize>,
    new_rows: Seq<RowV>,
    i: int,
    w: Seq<usize>,
)
    requires
        table_wf(old_rows),
        old_rows.len() <= usize::MAX,
        keep.len() == old_rows.len(),
        redirect.len() == old_rows.len(),
        forall|k: int| 0 <= k < redirect.len() ==> #[trigger] redirect[k] == k,
        new_rows.len() == count_true(keep),
        forall|k: int|
            0 <= k < old_rows.len() && keep[k] ==> new_rows[rank(keep, k)]
                == #[trigger] compacted_row(old_rows, keep, redirect, k),
        forall|t: int|
            0 <= t < old_rows.len() && reaches_accepting(old_rows, t) ==> #[trigger] keep[t],
        0 <= i < old_rows.len(),
        keep[i],
    ensures
        accepts_sym(old_rows, i, w) == accepts_sym(new_rows, rank(keep, i), w),
    decreases w.len(),
{
    let j = rank(keep, i);
    lemma_rank_bounds(keep, i);
    lemma_rank_monotone(keep, i, keep.len() as int);
    assert(new_rows[j] == compacted_row(old_rows, keep, redirect, i));
    if w.len() > 0 && w[0] < old_rows[i].transitions.len() {
        let c = w[0] as int;
        assert(new_rows[j].transitions[c] == compact_target(
            keep,
            redirect,
            old_rows[i].transitions[c],
        ));
        match old_rows[i].transitions[c] {
            None => {},
            Some(t) => {
                if keep[t as int] {
                    lemma_rank_bounds(keep, t as int);
                    lemma_dead_removal_word(
                        old_rows,
                        keep,
                        redirect,
                        new_rows,
                        t as int,
                        w.drop_first(),
                    );
                } else {
                    assert(!reaches_accepting(old_rows, t as int));
                    lemma_dead_accepts_nothing(old_rows, t as int, w.drop_first());
                    assert(new_rows[j].transitions[c] is None);
                }
            },
        }
    }
}

/// Word runs survive the clearing of edges into a dead start: a run through
/// such an edge never accepted.
pub proof fn lemma_clear_word(pre: Seq<RowV>, post: Seq<RowV>, i: int, w: Seq<usize>)
    requires
        clear_rel(pre, post),
        0 <= i < pre.len(),
    ensures
        accepts_sym(pre, i, w) == accepts_sym(post, i, w),
    decreases w.len(),
{
    assert(post[i].accepting == pre[i].accepting);
    assert(post[i].transitions.len() == pre[i].transitions.len());
    if w.len() > 0 && w[0] < pre[i].transitions.len() {
        let c = w[0] as int;
        assert(post[i].transitions[c] == dead_start_filter(
            reaches_accepting(pre, 0),
            pre[i].transitions[c],
        ));
        match pre[i].transitions[c] {
            Some(t) => {
                if t == 0usize && !reaches_accepting(pre, 0) {
                    lemma_dead_accepts_nothing(pre, 0, w.drop_first());
                    assert(post[i].transitions[c] is None);
                } else if t < pre.len() {
                    lemma_clear_word(pre, post, t as int, w.drop_first());
                } else {
                    // The target names no row: neither run accepts.
                    assert(!accepts_sym(pre, t as int, w.drop_first()));
                    assert(!accepts_sym(post, t as int, w.drop_first()));
                }
            },
            None => {},
        }
    }
}

/// What a transition becomes when the start state is dead: an edge into it is
/// cleared, everything else stays.
pub open spec fn dead_start_filter(alive0: bool, v: Option<usize>) -> Option<usize> {
    if !alive0 && v == Some(0usize) {
        None
    } else {
        v
    }
}

/// The row that dead-state removal makes of old row `i`: the compaction of
/// the alive rows (start always kept), with edges into a dead start cleared.
pub open spec fn dead_removed_row(old_rows: Seq<RowV>, i: int) -> RowV {
    RowV {
        accepting: old_rows[i].accepting,
        id: rank(alive_keep(old_rows), i) as usize,
        transitions: Seq::new(
            old_rows[i].transitions.len(),
            |c: int|
                dead_start_filter(
                    reaches_accepting(old_rows, 0),
                    compact_target(
                        alive_keep(old_rows),
                        identity_redirect(old_rows.len()),
                        old_rows[i].transitions[c],
                    ),
                ),
        ),
    }
}

/// A start state that reached no accepting state still reaches none after the
/// dead states are compacted away: its only surviving edges are self-loops.
pub proof fn lemma_dead_start_stays_dead(old_rows: Seq<RowV>, new_rows: Seq<RowV>, fuel: nat)
    requires
        table_wf(old_rows),
        1 <= old_rows.len() <= usize::MAX,
        !reaches_accepting(old_rows, 0),
        new_rows.len() >= 1,
        new_rows[0] == compacted_row(
            old_rows,
            alive_keep(old_rows),
            identity_redirect(old_rows.len()),
            0,
        ),
    ensures
        !reaches_in(new_rows, 0, fuel),
    decreases fuel,
{
    if reaches_in(new_rows, 0, fuel) {
        if new_rows[0].accepting {
            assert(old_rows[0].accepting);
            assert(reaches_in(old_rows, 0, 0));
        } else {
            let c = choose|c: int|
                0 <= c < new_rows[0].transitions.len() && ((#[trigger] new_rows[0].transitions[c])
                    matches Some(x) && reaches_in(new_rows, x as int, (fuel - 1) as nat));
            match new_rows[0].transitions[c] {
                Some(x) => {
                    match old_rows[0].transitions[c] {
                        Some(t) => {
                            if t != 0usize {
                                if alive_keep(old_rows)[t as int] {
                                    assert(reaches_accepting(old_rows, t as int));
                                    lemma_reach_step(old_rows, 0, c, t);
                                    assert(false);
                                }
                            } else {
                                assert(alive_keep(old_rows)[0]);
                                assert(rank(alive_keep(old_rows), 0) == 0);
                                assert(x == 0usize);
                                lemma_dead_start_stays_dead(
                                    old_rows,
                                    new_rows,
                                    (fuel - 1) as nat,
                                );
                                assert(false);
                            }
                        },
                        None => {
                            assert(false);
                        },
                    }
                },
                None => {
                    assert(false);
                },
            }
        }
    }
}

/// `post` is `pre` with every edge into a dead start cleared and nothing else
/// changed.
pub open spec fn clear_rel(pre: Seq<RowV>, post: Seq<RowV>) -> bool {
    &&& post.len() == pre.len()
    &&& forall|i: int|
        0 <= i < pre.len() ==> ((#[trigger] post[i]).accepting == pre[i].accepting && post[i].id
            == pre[i].id && post[i].transitions.len() == pre[i].transitions.len())
    &&& forall|i: int, c: int|
        0 <= i < pre.len() && 0 <= c < pre[i].transitions.len() ==> #[trigger] post[i].transitions[c]
            == dead_start_filter(reaches_accepting(pre, 0), pre[i].transitions[c])
}

/// Clearing the edges into a dead start keeps every path to acceptance: no
/// such path ever used one of them.
pub proof fn lemma_clear_preserves_reach(pre: Seq<RowV>, post: Seq<RowV>, s: int, fuel: nat)
    requires
        clear_rel(pre, post),
        reaches_in(pre, s, fuel),
    ensures
        reaches_in(post, s, fuel),
    decreases fuel,
{
    if !pre[s].accepting {
        let c = choose|c: int|
            0 <= c < pre[s].transitions.len() && ((#[trigger] pre[s].transitions[c]) matches Some(
                t,
            ) && reaches_in(pre, t as int, (fuel - 1) as nat));
        match pre[s].transitions[c] {
            Some(t) => {
                if t == 0usize && !reaches_accepting(pre, 0) {
                    assert(reaches_accepting(pre, 0));
                    assert(false);
                }
                assert(post[s].transitions[c] == Some(t));
                lemma_clear_preserves_reach(pre, post, t as int, (fuel - 1) as nat);
                assert((#[trigger] post[s].transitions[c]) matches Some(t2) && reaches_in(
                    post,
                    t2 as int,
                    (fuel - 1) as nat,
                ));
                assert(reaches_in(post, s, fuel));
            },
            None => {
                assert(false);
            },
        }
    }
}

/// Clearing the edges into a dead start preserves whether a run matches: a
/// run that stepped into the dead start could never have accepted.
proof fn lemma_clear_match_rec(
    pre: Seq<RowV>,
    post: Seq<RowV>,
    cmap: Map<char, usize>,
    s: Seq<char>,
    i: int,
    state: int,
)
    requires
        clear_rel(pre, post),
        0 <= state < pre.len(),
        0 <= i <= s.len(),
    ensures
        match_from(pre, cmap, s, i, state) is None <==> match_from(post, cmap, s, i, state)
            is None,
    decreases s.len() - i,
{
    assert(post[state].accepting == pre[state].accepting);
    assert(post[state].transitions.len() == pre[state].transitions.len());
    if i < s.len() && cmap.contains_key(s[i]) && cmap[s[i]] < pre[state].transitions.len() {
        let c = cmap[s[i]] as int;
        assert(post[state].transitions[c] == dead_start_filter(
            reaches_accepting(pre, 0),
            pre[state].transitions[c],
        ));
        match pre[state].transitions[c] {
            Some(t) => {
                if t == 0usize && !reaches_accepting(pre, 0) {
                    lemma_dead_never_matches(pre, cmap, s, i + 1, 0);
                    assert(post[state].transitions[c] is None);
                } else if t < pre.len() {
                    lemma_clear_match_rec(pre, post, cmap, s, i + 1, t as int);
                }
            },
            None => {},
        }
    }
}

/// Clearing the edges into a dead start preserves the language.
pub proof fn lemma_clear_lang(pre: Seq<RowV>, post: Seq<RowV>)
    requires
        clear_rel(pre, post),
        pre.len() >= 1,
    ensures
        lang_equiv(pre, post),
{
    assert forall|cmap: Map<char, usize>, s: Seq<char>|
        (#[trigger] table_match(pre, cmap, s)) is None <==> (#[trigger] table_match(
            post,
            cmap,
            s,
        )) is None by {
        if !(s.len() == 0 && !pre[0].accepting) {
            lemma_clear_match_rec(pre, post, cmap, s, 0, 0);
        }
    }
}

/// A pointwise-smaller boolean sequence has no more set entries, and strictly
/// fewer when some entry is newly set.
pub proof fn lemma_rank_pointwise(a: Seq<bool>, b: Seq<bool>, i: int)
    requires
        a.len() == b.len(),
        0 <= i <= a.len(),
        forall|k: int| 0 <= k < a.len() && #[trigger] a[k] ==> b[k],
    ensures
        rank(a, i) <= rank(b, i),
        (exists|k: int| 0 <= k < i && !a[k] && #[trigger] b[k]) ==> rank(a, i) < rank(b, i),
    decreases i,
{
    if i > 0 {
        lemma_rank_pointwise(a, b, i - 1);
        if exists|k: int| 0 <= k < i && !a[k] && #[trigger] b[k] {
            let k = choose|k: int| 0 <= k < i && !a[k] && #[trigger] b[k];
            if k < i - 1 {
                assert(rank(a, i - 1) < rank(b, i - 1));
            }
        }
    }
}

/// Running the matcher through a merge of one stable partition's classes:
/// every old state behaves exactly like the representative of its class, with
/// failure positions preserved, because a stable class agrees on acceptance
/// and on the class of every target.
proof fn lemma_class_merge_match_rec(
    old_rows: Seq<RowV>,
    class: Seq<usize>,
    new_rows: Seq<RowV>,
    cmap: Map<char, usize>,
    s: Seq<char>,
    i: int,
    p: int,
)
    requires
        table_wf(old_rows),
        1 <= old_rows.len() <= usize::MAX,
        class.len() == old_rows.len(),
        classes_canonical(class),
        classes_stable(old_rows, class),
        new_rows.len() == count_true(class_keep(class)),
        forall|k: int|
            0 <= k < old_rows.len() && class_keep(class)[k] ==> new_rows[rank(
                class_keep(class),
                k,
            )] == #[trigger] compacted_row(old_rows, class_keep(class), class, k),
        0 <= p < old_rows.len(),
        0 <= i <= s.len(),
    ensures
        match_from(old_rows, cmap, s, i, p) == match_from(
            new_rows,
            cmap,
            s,
            i,
            rank(class_keep(class), class[p] as int),
        ),
    decreases s.len() - i,
{
    let keep = class_keep(class);
    let rep = class[p] as int;
    assert(keep[rep]);
    let j = rank(keep, rep);
    lemma_rank_bounds(keep, rep);
    lemma_rank_monotone(keep, rep, keep.len() as int);
    assert(new_rows[j] == compacted_row(old_rows, keep, class, rep));
    assert(class[rep] == class[p]);
    assert(new_rows[j].accepting == old_rows[p].accepting);
    assert(new_rows[j].transitions.len() == old_rows[p].transitions.len());
    if i == s.len() {
    } else if !cmap.contains_key(s[i]) {
    } else if cmap[s[i]] >= old_rows[p].transitions.len() {
    } else {
        let c = cmap[s[i]] as int;
        assert(new_rows[j].transitions[c] == compact_target(
            keep,
            class,
            old_rows[rep].transitions[c],
        ));
        assert(tclass(old_rows, class, p, c) == tclass(old_rows, class, rep, c));
        match old_rows[p].transitions[c] {
            None => {
                assert(old_rows[rep].transitions[c] is None);
            },
            Some(t) => {
                match old_rows[rep].transitions[c] {
                    Some(t2) => {
                        assert(class[t as int] == class[t2 as int]);
                        assert(keep[class[t2 as int] as int]);
                        lemma_rank_bounds(keep, class[t2 as int] as int);
                        assert(new_rows[j].transitions[c] == Some(
                            rank(keep, class[t2 as int] as int) as usize,
                        ));
                        lemma_class_merge_match_rec(
                            old_rows,
                            class,
                            new_rows,
                            cmap,
                            s,
                            i + 1,
                            t as int,
                        );
                        assert((rank(keep, class[t as int] as int) as usize) as int == rank(
                            keep,
                            class[t as int] as int,
                        ));
                    },
                    None => {
                        assert(false);
                    },
                }
            },
        }
    }
}

/// The word runs agree too: an old state accepts a string of symbol indices
/// exactly when its class representative's image in the merged table does.
proof fn lemma_class_merge_word(
    old_rows: Seq<RowV>,
    class: Seq<usize>,
    new_rows: Seq<RowV>,
    w: Seq<usize>,
    p: int,
)
    requires
        table_wf(old_rows),
        1 <= old_rows.len() <= usize::MAX,
        class.len() == old_rows.len(),
        classes_canonical(class),
        classes_stable(old_rows, class),
        new_rows.len() == count_true(class_keep(class)),
        forall|k: int|
            0 <= k < old_rows.len() && class_keep(class)[k] ==> new_rows[rank(
                class_keep(class),
                k,
            )] == #[trigger] compacted_row(old_rows, class_keep(class), class, k),
        0 <= p < old_rows.len(),
    ensures
        accepts_sym(old_rows, p, w) == accepts_sym(
            new_rows,
            rank(class_keep(class), class[p] as int),
            w,
        ),
    decreases w.len(),
{
    let keep = class_keep(class);
    let rep = class[p] as int;
    assert(keep[rep]);
    let j = rank(keep, rep);
    lemma_rank_bounds(keep, rep);
    lemma_rank_monotone(keep, rep, keep.len() as int);
    assert(new_rows[j] == compacted_row(old_rows, keep, class, rep));
    assert(class[rep] == class[p]);
    assert(new_rows[j].accepting == old_rows[p].accepting);
    assert(new_rows[j].transitions.len() == old_rows[p].transitions.len());
    if w.len() > 0 && w[0] < old_rows[p].transitions.len() {
        let c = w[0] as int;
        assert(new_rows[j].transitions[c] == compact_target(
            keep,
            class,
            old_rows[rep].transitions[c],
        ));
        assert(tclass(old_rows, class, p, c) == tclass(old_rows, class, rep, c));
        match old_rows[p].transitions[c] {
            None => {
                assert(old_rows[rep].transitions[c] is None);
            },
            Some(t) => {
                match old_rows[rep].transitions[c] {
                    Some(t2) => {
                        assert(class[t as int] == class[t2 as int]);
                        assert(keep[class[t2 as int] as int]);
                        lemma_rank_bounds(keep, class[t2 as int] as int);
                        assert(new_rows[j].transitions[c] == Some(
                            rank(keep, class[t2 as int] as int) as usize,
                        ));
                        lemma_class_merge_word(old_rows, class, new_rows, w.drop_first(), t as int);
                        assert((rank(keep, class[t as int] as int) as usize) as int == rank(
                            keep,
                            class[t as int] as int,
                        ));
                    },
                    None => {
                        assert(false);
                    },
                }
            },
        }
    }
}

/// Merging the classes of a stable partition preserves the whole match
/// verdict — the language, failure positions included — and the word runs of
/// every state.
pub proof fn lemma_class_merge_lang(old_rows: Seq<RowV>, class: Seq<usize>, new_rows: Seq<RowV>)
    requires
        table_wf(old_rows),
        1 <= old_rows.len() <= usize::MAX,
        class.len() == old_rows.len(),
        classes_canonical(class),
        classes_stable(old_rows, class),
        new_rows.len() == count_true(class_keep(class)),
        forall|k: int|
            0 <= k < old_rows.len() && class_keep(class)[k] ==> new_rows[rank(
                class_keep(class),
                k,
            )] == #[trigger] compacted_row(old_rows, class_keep(class), class, k),
    ensures
        lang_equiv(old_rows, new_rows),
        forall|p: int, w: Seq<usize>|
            0 <= p < old_rows.len() ==> #[trigger] accepts_sym(old_rows, p, w) == accepts_sym(
                new_rows,
                rank(class_keep(class), class[p] as int),
                w,
            ),
{
    let keep = class_keep(class);
    assert(class[0] as int == 0);
    assert(keep[0]);
    assert(rank(keep, 0) == 0);
    assert forall|cmap: Map<char, usize>, s: Seq<char>|
        (#[trigger] table_match(old_rows, cmap, s)) is None <==> (#[trigger] table_match(
            new_rows,
            cmap,
            s,
        )) is None by {
        assert(new_rows.len() >= 1) by {
            lemma_rank_monotone(keep, 1, old_rows.len() as int);
            assert(rank(keep, 1) == 1);
        }
        assert(new_rows[0] == compacted_row(old_rows, keep, class, 0));
        if !(s.len() == 0 && !old_rows[0].accepting) {
            lemma_class_merge_match_rec(old_rows, class, new_rows, cmap, s, 0, 0);
        }
    }
    assert forall|p: int, w: Seq<usize>|
        0 <= p < old_rows.len() implies #[trigger] accepts_sym(old_rows, p, w) == accepts_sym(
        new_rows,
        rank(class_keep(class), class[p] as int),
        w,
    ) by {
        lemma_class_merge_word(old_rows, class, new_rows, w, p);
    }
}

/// Compacting with an identity redirect keeps every surviving state's way to
/// acceptance, provided every state that reaches acceptance survives: the
/// very same path runs through the renumbered rows.
pub proof fn lemma_compact_preserves_reach(
    old_rows: Seq<RowV>,
    keep: Seq<bool>,
    redirect: Seq<usize>,
    new_rows: Seq<RowV>,
    s: int,
    fuel: nat,
)
    requires
        table_wf(old_rows),
        old_rows.len() <= usize::MAX,
        keep.len() == old_rows.len(),
        redirect.len() == old_rows.len(),
        forall|i: int| 0 <= i < redirect.len() ==> #[trigger] redirect[i] == i,
        new_rows.len() == count_true(keep),
        forall|i: int|
            0 <= i < old_rows.len() && keep[i] ==> new_rows[rank(keep, i)]
                == #[trigger] compacted_row(old_rows, keep, redirect, i),
        forall|t: int| 0 <= t < old_rows.len() && reaches_accepting(old_rows, t) ==> #[trigger] keep[t],
        0 <= s < old_rows.len(),
        keep[s],
        reaches_in(old_rows, s, fuel),
    ensures
        reaches_in(new_rows, rank(keep, s), fuel),
    decreases fuel,
{
    let j = rank(keep, s);
    lemma_rank_bounds(keep, s);
    lemma_rank_monotone(keep, s, keep.len() as int);
    assert(new_rows[j] == compacted_row(old_rows, keep, redirect, s));
    if old_rows[s].accepting {
        assert(new_rows[j].accepting);
        assert(reaches_in(new_rows, j, fuel));
    } else {
        let c = choose|c: int|
            0 <= c < old_rows[s].transitions.len() && ((#[trigger] old_rows[s].transitions[c])
                matches Some(t) && reaches_in(old_rows, t as int, (fuel - 1) as nat));
        match old_rows[s].transitions[c] {
            Some(t) => {
                assert(reaches_accepting(old_rows, t as int));
                assert(keep[t as int]);
                lemma_rank_bounds(keep, t as int);
                lemma_compact_preserves_reach(
                    old_rows,
                    keep,
                    redirect,
                    new_rows,
                    t as int,
                    (fuel - 1) as nat,
                );
                assert(new_rows[j].transitions[c] == compact_target(
                    keep,
                    redirect,
                    old_rows[s].transitions[c],
                ));
                assert((#[trigger] new_rows[j].transitions[c]) matches Some(nt) && reaches_in(
                    new_rows,
                    nt as int,
                    (fuel - 1) as nat,
                ));
                assert(reaches_in(new_rows, j, fuel));
            },
            None => {
                assert(false);
            },
        }
    }
}

} // verus!
