//! The NFA model: per-state, per-symbol sets of destination states, with
//! epsilon transitions at symbol index 0, and the subset construction that
//! turns the NFA into an equivalent DFA table by worklist exploration of
//! epsilon-closed state sets.

use vstd::prelude::*;
use vstd::set_lib::{lemma_int_range, lemma_len_subset, set_int_range};

use crate::char_map::CharMap;
use crate::row::{Row, RowV};
use crate::semantics::{
    count_true, lemma_count_true_update, lemma_rank_bounds, match_from, table_match, table_wf,
    width,
};
use crate::table::Table;

verus! {

/// A set of NFA state ids, as its characteristic vector: entry `s` says
/// whether state `s` belongs to the set.
pub type StateSet = Vec<bool>;

/// An NFA, immutable once built: for each state and each symbol index of the
/// character map (index 0 is the epsilon symbol), the set of destination
/// states; the accepting flag of each state; and the character map, whose
/// first symbol is the epsilon symbol.
pub struct Nfa {
    pub lambda_char: char,
    pub transitions: Vec<Vec<Vec<usize>>>,
    pub accepting_states: Vec<bool>,
    pub character_map: CharMap,
}

/// State `s` is reachable from the set `init` by at most `fuel` epsilon
/// moves, where `t` is the transition structure (epsilon lists at index 0).
pub open spec fn eps_reach_in(t: Seq<Vec<Vec<usize>>>, init: Seq<bool>, s: int, fuel: nat) -> bool
    decreases fuel,
{
    &&& 0 <= s < t.len()
    &&& (init[s] || (fuel > 0 && exists|p: int|
        0 <= p < t.len() && #[trigger] t[p]@[0]@.contains(s as usize) && eps_reach_in(
            t,
            init,
            p,
            (fuel - 1) as nat,
        )))
}

/// State `s` lies in the epsilon closure of the set `init`.
pub open spec fn eps_reach(t: Seq<Vec<Vec<usize>>>, init: Seq<bool>, s: int) -> bool {
    exists|fuel: nat| eps_reach_in(t, init, s, fuel)
}

/// One epsilon move out of a state of the closure stays in the closure.
proof fn lemma_eps_step(t: Seq<Vec<Vec<usize>>>, init: Seq<bool>, s: int, u: usize)
    requires
        0 <= s < t.len(),
        t[s]@.len() >= 1,
        eps_reach(t, init, s),
        t[s]@[0]@.contains(u),
        u < t.len(),
    ensures
        eps_reach(t, init, u as int),
{
    let f = choose|f: nat| eps_reach_in(t, init, s, f);
    assert(((u as int) as usize) == u);
    assert(t[s]@[0]@.contains((u as int) as usize));
    assert(eps_reach_in(t, init, u as int, f + 1));
}

/// A set that contains `init` and is closed under epsilon moves contains the
/// whole epsilon closure.
proof fn lemma_eps_closed_complete(
    t: Seq<Vec<Vec<usize>>>,
    init: Seq<bool>,
    closure: Seq<bool>,
    s: int,
    fuel: nat,
)
    requires
        t.len() <= usize::MAX,
        closure.len() == t.len(),
        init.len() == t.len(),
        forall|k: int| 0 <= k < t.len() && init[k] ==> #[trigger] closure[k],
        forall|p: int, k: int|
            0 <= p < t.len() && closure[p] && 0 <= k < t[p]@[0]@.len() ==> closure[#[trigger] t[p]@[0]@[k] as int],
        eps_reach_in(t, init, s, fuel),
    ensures
        closure[s],
    decreases fuel,
{
    if !init[s] {
        let p = choose|p: int|
            0 <= p < t.len() && #[trigger] t[p]@[0]@.contains(s as usize) && eps_reach_in(
                t,
                init,
                p,
                (fuel - 1) as nat,
            );
        lemma_eps_closed_complete(t, init, closure, p, (fuel - 1) as nat);
        let k = choose|k: int| 0 <= k < t[p]@[0]@.len() && t[p]@[0]@[k] == s as usize;
        assert(closure[t[p]@[0]@[k] as int]);
        assert(t[p]@[0]@[k] as int == s);
    }
}

/// The epsilon closure of a state set, as its characteristic vector.
pub open spec fn closure_of(t: Seq<Vec<Vec<usize>>>, init: Seq<bool>) -> Seq<bool> {
    Seq::new(t.len(), |s: int| eps_reach(t, init, s))
}

/// One step on symbol index `c` from a state set (not epsilon-closed).
pub open spec fn step_of(t: Seq<Vec<Vec<usize>>>, set: Seq<bool>, c: int) -> Seq<bool> {
    Seq::new(
        t.len(),
        |s: int|
            exists|p: int|
                0 <= p < t.len() && set[p] && (#[trigger] t[p]@[c]@).contains(s as usize),
    )
}

/// A state set with no states.
pub open spec fn empty_set(set: Seq<bool>) -> bool {
    forall|s: int| 0 <= s < set.len() ==> !(#[trigger] set[s])
}

/// Nothing is epsilon-reachable from the empty set.
proof fn lemma_eps_reach_empty(t: Seq<Vec<Vec<usize>>>, init: Seq<bool>, s: int, fuel: nat)
    requires
        init.len() == t.len(),
        empty_set(init),
    ensures
        !eps_reach_in(t, init, s, fuel),
    decreases fuel,
{
    if eps_reach_in(t, init, s, fuel) {
        assert(!init[s]);
        let p = choose|p: int|
            0 <= p < t.len() && #[trigger] t[p]@[0]@.contains(s as usize) && eps_reach_in(
                t,
                init,
                p,
                (fuel - 1) as nat,
            );
        lemma_eps_reach_empty(t, init, p, (fuel - 1) as nat);
    }
}

/// The epsilon closure of the empty set is empty.
proof fn lemma_closure_of_empty(t: Seq<Vec<Vec<usize>>>, init: Seq<bool>)
    requires
        init.len() == t.len(),
        empty_set(init),
    ensures
        empty_set(closure_of(t, init)),
{
    assert forall|s: int| 0 <= s < t.len() implies !(#[trigger] closure_of(t, init)[s]) by {
        if eps_reach(t, init, s) {
            let f = choose|f: nat| eps_reach_in(t, init, s, f);
            lemma_eps_reach_empty(t, init, s, f);
        }
    }
}

/// Two to the `n`th power: how many distinct state sets an NFA of `n` states
/// has, which bounds the rows the subset construction can create.
pub open spec fn two_pow(n: nat) -> nat
    decreases n,
{
    if n == 0 {
        1
    } else {
        2 * two_pow((n - 1) as nat)
    }
}

/// The number a state set's characteristic vector encodes in binary, lowest
/// entry first.
pub open spec fn bits_val(s: Seq<bool>) -> nat
    decreases s.len(),
{
    if s.len() == 0 {
        0
    } else {
        (if s[0] {
            1nat
        } else {
            0nat
        }) + 2 * bits_val(s.drop_first())
    }
}

/// The encoding of a vector of length `n` lies below `two_pow(n)`.
proof fn lemma_bits_val_bound(s: Seq<bool>)
    ensures
        bits_val(s) < two_pow(s.len()),
    decreases s.len(),
{
    if s.len() > 0 {
        lemma_bits_val_bound(s.drop_first());
    }
}

/// Distinct vectors of equal length encode distinct numbers.
proof fn lemma_bits_val_injective(a: Seq<bool>, b: Seq<bool>)
    requires
        a.len() == b.len(),
        a != b,
    ensures
        bits_val(a) != bits_val(b),
    decreases a.len(),
{
    assert(exists|i: int| 0 <= i < a.len() && a[i] != b[i]) by {
        if forall|i: int| 0 <= i < a.len() ==> a[i] == b[i] {
            assert(a =~= b);
        }
    }
    let i = choose|i: int| 0 <= i < a.len() && a[i] != b[i];
    if i == 0 {
        lemma_bits_val_bound(a.drop_first());
        lemma_bits_val_bound(b.drop_first());
    } else {
        assert(a.drop_first()[i - 1] != b.drop_first()[i - 1]);
        assert(a.drop_first() != b.drop_first()) by {
            if a.drop_first() == b.drop_first() {
                assert(a.drop_first()[i - 1] == b.drop_first()[i - 1]);
            }
        }
        lemma_bits_val_injective(a.drop_first(), b.drop_first());
    }
}

/// No more than `two_pow(n)` pairwise distinct boolean vectors of length `n`
/// exist: their binary encodings are distinct numbers below `two_pow(n)`.
proof fn lemma_distinct_sets_bound(views: Seq<Seq<bool>>, n: nat)
    requires
        forall|a: int| 0 <= a < views.len() ==> (#[trigger] views[a]).len() == n,
        forall|a: int, b: int| 0 <= a < b < views.len() ==> views[a] != views[b],
    ensures
        views.len() <= two_pow(n),
{
    let codes = views.map(|i: int, v: Seq<bool>| bits_val(v) as int);
    assert(codes.no_duplicates()) by {
        assert forall|a: int, b: int|
            0 <= a < codes.len() && 0 <= b < codes.len() && a != b implies codes[a] != codes[
        b] by {
            if a < b {
                lemma_bits_val_injective(views[a], views[b]);
            } else {
                lemma_bits_val_injective(views[b], views[a]);
            }
        }
    }
    codes.unique_seq_to_set();
    let range = set_int_range(0, two_pow(n) as int);
    lemma_int_range(0, two_pow(n) as int);
    assert(codes.to_set().subset_of(range)) by {
        assert forall|x: int| codes.to_set().contains(x) implies range.contains(x) by {
            let a = choose|a: int| 0 <= a < codes.len() && codes[a] == x;
            lemma_bits_val_bound(views[a]);
        }
    }
    lemma_len_subset(codes.to_set(), range);
}

/// Whether a state set is empty.
fn set_is_empty(v: &Vec<bool>) -> (r: bool)
    ensures
        r == (forall|s: int| 0 <= s < v@.len() ==> !(#[trigger] v@[s])),
{
    let n = v.len();
    for i in 0..n
        invariant
            n == v@.len(),
            forall|k: int| 0 <= k < i ==> !(#[trigger] v@[k]),
    {
        if v[i] {
            proof {
                assert(v@[i as int]);
            }
            return false;
        }
    }
    true
}

/// Whether two state sets hold the same states.
fn eq_bools(a: &Vec<bool>, b: &Vec<bool>) -> (r: bool)
    ensures
        r == (a@ == b@),
{
    let n = a.len();
    if n != b.len() {
        proof {
            assert(a@.len() != b@.len());
        }
        return false;
    }
    for i in 0..n
        invariant
            n == a@.len(),
            n == b@.len(),
            forall|k: int| 0 <= k < i ==> a@[k] == b@[k],
    {
        if a[i] != b[i] {
            return false;
        }
    }
    proof {
        assert(a@ =~= b@);
    }
    true
}

/// A copy of a state set.
fn clone_bools(v: &Vec<bool>) -> (r: Vec<bool>)
    ensures
        r@ == v@,
{
    let n = v.len();
    let mut r: Vec<bool> = Vec::new();
    for i in 0..n
        invariant
            n == v@.len(),
            r@.len() == i,
            forall|k: int| 0 <= k < i ==> r@[k] == v@[k],
    {
        r.push(v[i]);
    }
    proof {
        assert(r@ =~= v@);
    }
    r
}

/// Looks a state set up among those already given a row.
fn find_set(sets: &Vec<Vec<bool>>, target: &Vec<bool>) -> (r: Option<usize>)
    ensures
        r matches Some(q) ==> q < sets@.len() && sets@[q as int]@ == target@,
        r is None ==> forall|q: int| 0 <= q < sets@.len() ==> sets@[q]@ != target@,
{
    let n = sets.len();
    for q in 0..n
        invariant
            n == sets@.len(),
            forall|k: int| 0 <= k < q ==> sets@[k]@ != target@,
    {
        if eq_bools(&sets[q], target) {
            return Some(q);
        }
    }
    None
}

impl Nfa {
    /// The number of states.
    pub open spec fn num_states(self) -> nat {
        self.transitions@.len()
    }

    /// The NFA is well formed: one accepting flag and one per-symbol list of
    /// destination sets per state, every destination a state, a duplicate-free
    /// character map of at least the epsilon symbol, which stands first and is
    /// the `lambda_char`.
    pub open spec fn wf(self) -> bool {
        &&& self.accepting_states@.len() == self.num_states()
        &&& self.character_map.wf()
        &&& self.character_map.symbols@.len() >= 1
        &&& self.character_map.symbols@[0] == self.lambda_char
        &&& forall|s: int|
            0 <= s < self.num_states() ==> (#[trigger] self.transitions@[s])@.len()
                == self.character_map.symbols@.len()
        &&& forall|s: int, c: int, k: int|
            0 <= s < self.num_states() && 0 <= c < self.transitions@[s]@.len() && 0 <= k
                < self.transitions@[s]@[c]@.len() ==> (#[trigger] self.transitions@[s]@[c]@[k])
                < self.num_states()
    }

    /// An NFA assembled from its parts.
    pub fn new(
        lambda_char: char,
        transitions: Vec<Vec<Vec<usize>>>,
        accepting_states: Vec<bool>,
        character_map: CharMap,
    ) -> (r: Nfa)
        ensures
            r.lambda_char == lambda_char,
            r.transitions == transitions,
            r.accepting_states == accepting_states,
            r.character_map == character_map,
    {
        Nfa { lambda_char, transitions, accepting_states, character_map }
    }

    /// The designated epsilon symbol.
    pub fn lambda_char(&self) -> (r: char)
        ensures
            r == self.lambda_char,
    {
        self.lambda_char
    }

    /// The character map, epsilon symbol included at index 0.
    pub fn character_map(&self) -> (r: &CharMap)
        ensures
            r == self.character_map,
    {
        &self.character_map
    }

    /// Reports whether the NFA is well formed, for a caller that assembled
    /// one from parts of unknown provenance.
    pub fn check_wf(&self) -> (r: bool)
        ensures
            r == self.wf(),
    {
        let n = self.transitions.len();
        if self.accepting_states.len() != n {
            return false;
        }
        if !self.character_map.check_wf() {
            return false;
        }
        let cm_len = self.character_map.len();
        if cm_len == 0 {
            return false;
        }
        if self.character_map.symbols[0] != self.lambda_char {
            return false;
        }
        for s in 0..n
            invariant
                n == self.num_states(),
                cm_len == self.character_map.symbols@.len(),
                forall|q: int|
                    0 <= q < s ==> (#[trigger] self.transitions@[q])@.len() == cm_len,
                forall|q: int, c: int, k: int|
                    0 <= q < s && 0 <= c < self.transitions@[q]@.len() && 0 <= k
                        < self.transitions@[q]@[c]@.len() ==> (#[trigger] self.transitions@[q]@[c]@[k])
                        < n,
        {
            let m = self.transitions[s].len();
            if m != cm_len {
                return false;
            }
            for c in 0..m
                invariant
                    n == self.num_states(),
                    s < n,
                    m == self.transitions@[s as int]@.len(),
                    forall|c2: int, k: int|
                        0 <= c2 < c && 0 <= k < self.transitions@[s as int]@[c2]@.len() ==> (
                        #[trigger] self.transitions@[s as int]@[c2]@[k]) < n,
            {
                let e = self.transitions[s][c].len();
                for k in 0..e
                    invariant
                        n == self.num_states(),
                        s < n,
                        c < self.transitions@[s as int]@.len(),
                        e == self.transitions@[s as int]@[c as int]@.len(),
                        forall|k2: int|
                            0 <= k2 < k ==> (#[trigger] self.transitions@[s as int]@[c as int]@[k2])
                                < n,
                {
                    if self.transitions[s][c][k] >= n {
                        return false;
                    }
                }
            }
        }
        true
    }

    /// Whether the given state set holds at least one accepting state.
    pub fn set_has_accepting(&self, states: &StateSet) -> (r: bool)
        requires
            self.wf(),
            states@.len() == self.num_states(),
        ensures
            r == exists|s: int|
                0 <= s < self.num_states() && states@[s] && self.accepting_states@[s],
    {
        let n = self.accepting_states.len();
        for s in 0..n
            invariant
                n == self.num_states(),
                self.wf(),
                states@.len() == n,
                forall|k: int| 0 <= k < s ==> !(states@[k] && self.accepting_states@[k]),
        {
            if states[s] && self.accepting_states[s] {
                proof {
                    assert(states@[s as int] && self.accepting_states@[s as int]);
                }
                return true;
            }
        }
        false
    }

    /// The set of NFA states reached by recursively following only epsilon
    /// transitions from `states`: the smallest superset of `states` closed
    /// under epsilon moves, computed by a worklist with an explicit seen-set,
    /// so that cycles of epsilon transitions terminate.
    pub fn follow_lambda(&self, states: &StateSet) -> (r: StateSet)
        requires
            self.wf(),
            states@.len() == self.num_states(),
        ensures
            r@.len() == self.num_states(),
            forall|s: int|
                0 <= s < self.num_states() ==> (#[trigger] r@[s] <==> eps_reach(
                    self.transitions@,
                    states@,
                    s,
                )),
    {
        let n = self.transitions.len();
        let ghost t = self.transitions@;
        let mut closure: Vec<bool> = Vec::new();
        let mut stack: Vec<usize> = Vec::new();
        for s in 0..n
            invariant
                n == self.num_states(),
                self.wf(),
                states@.len() == n,
                closure@.len() == s,
                forall|k: int| 0 <= k < s ==> #[trigger] closure@[k] == states@[k],
                forall|a: int| 0 <= a < stack@.len() ==> #[trigger] stack@[a] < s,
                forall|a: int| 0 <= a < stack@.len() ==> closure@[stack@[a] as int],
                forall|k: int| 0 <= k < s && states@[k] ==> stack@.contains(k as usize),
                forall|a: int, b: int| 0 <= a < b < stack@.len() ==> stack@[a] != stack@[b],
        {
            closure.push(states[s]);
            if states[s] {
                proof {
                    assert forall|a: int| 0 <= a < stack@.len() implies stack@[a] != s by {}
                }
                let ghost prior = stack@;
                stack.push(s);
                proof {
                    assert(stack@.last() == s as usize);
                    assert(stack@.contains(s as usize));
                    assert forall|k: int|
                        0 <= k < s + 1 && states@[k] implies stack@.contains(k as usize) by {
                        if k < s {
                            let a = choose|a: int| 0 <= a < prior.len() && prior[a] == k as usize;
                            assert(stack@[a] == k as usize);
                        }
                    }
                }
            }
        }
        proof {
            assert forall|k: int| 0 <= k < n && closure@[k] implies eps_reach(t, states@, k) by {
                assert(eps_reach_in(t, states@, k, 0));
            }
            lemma_rank_bounds(closure@, n as int);
        }
        while stack.len() > 0
            invariant
                n == self.num_states(),
                self.wf(),
                t == self.transitions@,
                states@.len() == n,
                closure@.len() == n,
                0 <= count_true(closure@) <= n,
                forall|k: int| 0 <= k < n && #[trigger] closure@[k] ==> eps_reach(t, states@, k),
                forall|k: int| 0 <= k < n && states@[k] ==> #[trigger] closure@[k],
                forall|a: int| 0 <= a < stack@.len() ==> #[trigger] stack@[a] < n,
                forall|a: int| 0 <= a < stack@.len() ==> closure@[stack@[a] as int],
                forall|p: int, k: int|
                    0 <= p < n && closure@[p] && !stack@.contains(p as usize) && 0 <= k
                        < t[p]@[0]@.len() ==> closure@[#[trigger] t[p]@[0]@[k] as int],
            decreases n - count_true(closure@), stack@.len(),
        {
            let ghost pre_pop = stack@;
            let s = stack.pop().unwrap();
            proof {
                assert(pre_pop.last() == s);
                assert forall|p: int|
                    0 <= p < n && !stack@.contains(#[trigger] (p as usize)) && p != s as int
                    implies !pre_pop.contains(p as usize) by {
                    if pre_pop.contains(p as usize) {
                        let a = choose|a: int|
                            0 <= a < pre_pop.len() && pre_pop[a] == p as usize;
                        if a < pre_pop.len() - 1 {
                            assert(stack@[a] == p as usize);
                            assert(stack@.contains(p as usize));
                        }
                    }
                }
            }
            let ghost stack_after_pop = stack@;
            let m = self.transitions[s][0].len();
            let ghost closure_at_entry = closure@;
            let mut k: usize = 0;
            while k < m
                invariant
                    n == self.num_states(),
                    self.wf(),
                    t == self.transitions@,
                    states@.len() == n,
                    closure@.len() == n,
                    0 <= count_true(closure@) <= n,
                    s < n,
                    m == t[s as int]@[0]@.len(),
                    k <= m,
                    count_true(closure@) >= count_true(closure_at_entry),
                    stack@.len() >= stack_after_pop.len(),
                    stack@.len() > stack_after_pop.len() ==> count_true(closure@) > count_true(
                        closure_at_entry,
                    ),
                    forall|k2: int|
                        0 <= k2 < n && #[trigger] closure@[k2] ==> eps_reach(t, states@, k2),
                    forall|k2: int| 0 <= k2 < n && states@[k2] ==> #[trigger] closure@[k2],
                    forall|a: int| 0 <= a < stack@.len() ==> #[trigger] stack@[a] < n,
                    forall|a: int| 0 <= a < stack@.len() ==> closure@[stack@[a] as int],
                    forall|p: int, k2: int|
                        0 <= p < n && closure@[p] && !stack@.contains(p as usize) && p != s && 0
                            <= k2 < t[p]@[0]@.len() ==> closure@[#[trigger] t[p]@[0]@[k2] as int],
                    forall|k2: int| 0 <= k2 < k ==> closure@[#[trigger] t[s as int]@[0]@[k2] as int],
                    eps_reach(t, states@, s as int),
                decreases m - k,
            {
                let u = self.transitions[s][0][k];
                if !closure[u] {
                    proof {
                        assert(t[s as int]@[0]@[k as int] == u);
                        assert(t[s as int]@[0]@.contains(u));
                        lemma_eps_step(t, states@, s as int, u);
                        lemma_count_true_update(closure@, u as int);
                        lemma_rank_bounds(closure@.update(u as int, true), n as int);
                    }
                    let ghost pre_stack = stack@;
                    let ghost pre_closure = closure@;
                    closure[u] = true;
                    stack.push(u);
                    proof {
                        assert(stack@.last() == u);
                        assert(stack@.contains(u));
                        assert forall|p: int, k2: int|
                            0 <= p < n && closure@[p] && !stack@.contains(p as usize) && p != s
                                as int && 0 <= k2 < t[p]@[0]@.len() implies closure@[#[trigger] t[
                            p
                        ]@[0]@[k2] as int] by {
                            assert(p != u as int);
                            assert(pre_closure[p]);
                            assert(!pre_stack.contains(p as usize)) by {
                                if pre_stack.contains(p as usize) {
                                    let a = choose|a: int|
                                        0 <= a < pre_stack.len() && pre_stack[a] == p as usize;
                                    assert(stack@[a] == p as usize);
                                }
                            }
                            assert(pre_closure[t[p]@[0]@[k2] as int]);
                        }
                    }
                }
                k = k + 1;
            }
        }
        proof {
            assert forall|s: int|
                0 <= s < n implies (#[trigger] closure@[s] <==> eps_reach(t, states@, s)) by {
                if eps_reach(t, states@, s) {
                    let f = choose|f: nat| eps_reach_in(t, states@, s, f);
                    lemma_eps_closed_complete(t, states@, closure@, s, f);
                }
            }
        }
        closure
    }

    /// One transition slot of a DFA row agrees with the subset construction:
    /// for the NFA symbol with index `c`, the slot `c - 1` leads to the row
    /// standing for the epsilon-closed step target of row `q`'s set, and is
    /// absent exactly when that target is empty.
    pub open spec fn slot_correct(
        self,
        rows: Seq<RowV>,
        sets: Seq<Seq<bool>>,
        q: int,
        c: int,
    ) -> bool {
        let t = self.transitions@;
        let target = closure_of(t, step_of(t, sets[q], c));
        match rows[q].transitions[c - 1] {
            Some(q2) => q2 < rows.len() && sets[q2 as int] == target,
            None => empty_set(target),
        }
    }

    /// Every transition slot of row `q` agrees with the subset construction.
    pub open spec fn row_slots_correct(self, rows: Seq<RowV>, sets: Seq<Seq<bool>>, q: int) -> bool {
        forall|c: int|
            1 <= c < self.character_map.symbols@.len() ==> self.slot_correct(rows, sets, q, c)
    }

    /// The table is an image of this NFA under the subset construction: each
    /// row `q` stands for the epsilon-closed state set `sets[q]`, row 0 for
    /// the closure of the start state alone; a row accepts exactly when its
    /// set holds an accepting NFA state; and every transition slot leads to
    /// the row of the epsilon-closed step target of its set, absent exactly
    /// when that target is empty.
    pub open spec fn dfa_abstraction(self, rows: Seq<RowV>, sets: Seq<Seq<bool>>) -> bool {
        let t = self.transitions@;
        let n = self.num_states();
        &&& rows.len() >= 1
        &&& sets.len() == rows.len()
        &&& (forall|q: int| 0 <= q < sets.len() ==> (#[trigger] sets[q]).len() == n)
        &&& (forall|q: int| 0 <= q < sets.len() ==> !empty_set(#[trigger] sets[q]))
        &&& (forall|a: int, b: int| 0 <= a < b < sets.len() ==> sets[a] != sets[b])
        &&& sets[0] == closure_of(t, Seq::new(n, |i: int| i == 0))
        &&& (forall|q: int|
            0 <= q < rows.len() ==> ((#[trigger] rows[q]).accepting <==> exists|s: int|
                0 <= s < n && sets[q][s] && self.accepting_states@[s]))
        &&& (forall|q: int|
            0 <= q < rows.len() ==> (#[trigger] rows[q]).transitions.len()
                == self.character_map.symbols@.len() - 1)
        &&& (forall|q: int|
            0 <= q < rows.len() ==> #[trigger] self.row_slots_correct(rows, sets, q))
    }

    /// The NFA accepts the rest of the input from the given epsilon-closed
    /// state set: at the end, the set must hold an accepting state; on a
    /// character, the run steps on the character's NFA symbol index (its
    /// mapping index plus one, past the epsilon symbol) and closes over
    /// epsilon again; an unmapped character, or one whose symbol the NFA does
    /// not know, rejects.
    pub open spec fn accepts_from(
        self,
        set: Seq<bool>,
        cmap: Map<char, usize>,
        s: Seq<char>,
        i: int,
    ) -> bool
        decreases s.len() - i,
    {
        let t = self.transitions@;
        if i < 0 || i >= s.len() {
            exists|st: int| 0 <= st < self.num_states() && set[st] && self.accepting_states@[st]
        } else if !cmap.contains_key(s[i]) {
            false
        } else if cmap[s[i]] + 1 >= self.character_map.symbols@.len() {
            false
        } else {
            self.accepts_from(
                closure_of(t, step_of(t, set, cmap[s[i]] as int + 1)),
                cmap,
                s,
                i + 1,
            )
        }
    }

    /// The NFA accepts the string, read with the non-epsilon character
    /// mapping `cmap`: the set-run that starts at the epsilon closure of
    /// state 0 ends in a set holding an accepting state.
    pub open spec fn nfa_accepts(self, cmap: Map<char, usize>, s: Seq<char>) -> bool {
        self.accepts_from(
            closure_of(self.transitions@, Seq::new(self.num_states(), |i: int| i == 0)),
            cmap,
            s,
            0,
        )
    }

    /// From the empty state set the NFA accepts nothing.
    proof fn lemma_empty_set_rejects(self, set: Seq<bool>, cmap: Map<char, usize>, s: Seq<char>, i: int)
        requires
            set.len() == self.num_states(),
            empty_set(set),
        ensures
            !self.accepts_from(set, cmap, s, i),
        decreases s.len() - i,
    {
        let t = self.transitions@;
        if 0 <= i < s.len() && cmap.contains_key(s[i]) && cmap[s[i]] + 1
            < self.character_map.symbols@.len() {
            let c = cmap[s[i]] as int + 1;
            assert(empty_set(step_of(t, set, c))) by {
                assert forall|u: int| 0 <= u < t.len() implies !(#[trigger] step_of(t, set, c)[
                u]) by {
                    if step_of(t, set, c)[u] {
                        let p = choose|p: int|
                            0 <= p < t.len() && set[p] && (#[trigger] t[p]@[c]@).contains(
                                u as usize,
                            );
                    }
                }
            }
            lemma_closure_of_empty(t, step_of(t, set, c));
            self.lemma_empty_set_rejects(closure_of(t, step_of(t, set, c)), cmap, s, i + 1);
        }
    }

    /// The matcher on a table built by the subset construction agrees, from
    /// any row, with the NFA's set-run from the set that row stands for.
    proof fn lemma_match_agrees_with_run(
        self,
        rows: Seq<RowV>,
        sets: Seq<Seq<bool>>,
        cmap: Map<char, usize>,
        s: Seq<char>,
        i: int,
        q: int,
    )
        requires
            self.wf(),
            self.dfa_abstraction(rows, sets),
            0 <= q < rows.len(),
            0 <= i <= s.len(),
        ensures
            match_from(rows, cmap, s, i, q) is None <==> self.accepts_from(sets[q], cmap, s, i),
        decreases s.len() - i,
    {
        let t = self.transitions@;
        let cm_len = self.character_map.symbols@.len();
        assert(self.row_slots_correct(rows, sets, q));
        if i == s.len() {
        } else if !cmap.contains_key(s[i]) {
        } else if cmap[s[i]] >= rows[q].transitions.len() {
            assert(rows[q].transitions.len() == cm_len - 1);
        } else {
            let ci = cmap[s[i]] as int;
            let c = ci + 1;
            assert(self.slot_correct(rows, sets, q, c));
            let target = closure_of(t, step_of(t, sets[q], c));
            match rows[q].transitions[ci] {
                Some(q2) => {
                    assert(sets[q2 as int] == target);
                    self.lemma_match_agrees_with_run(rows, sets, cmap, s, i + 1, q2 as int);
                },
                None => {
                    assert(empty_set(target));
                    self.lemma_empty_set_rejects(target, cmap, s, i + 1);
                },
            }
        }
    }

    /// Subset construction preserves the language: a table standing in the
    /// image relation to this NFA matches exactly the strings the NFA
    /// accepts, whatever the character mapping.
    pub proof fn lemma_to_dfa_language(
        self,
        rows: Seq<RowV>,
        sets: Seq<Seq<bool>>,
        cmap: Map<char, usize>,
        s: Seq<char>,
    )
        requires
            self.wf(),
            self.dfa_abstraction(rows, sets),
        ensures
            table_match(rows, cmap, s) is None <==> self.nfa_accepts(cmap, s),
    {
        let t = self.transitions@;
        let init0 = Seq::new(self.num_states(), |i: int| i == 0);
        assert(sets[0] == closure_of(t, init0));
        if s.len() == 0 && !rows[0].accepting {
            assert(!self.nfa_accepts(cmap, s));
        } else {
            self.lemma_match_agrees_with_run(rows, sets, cmap, s, 0, 0);
        }
    }

    /// The epsilon closure of the start state alone, as a specification:
    /// what the subset construction's first row stands for.
    pub open spec fn start_closure_accepting(self) -> bool {
        exists|s: int|
            0 <= s < self.num_states() && eps_reach(
                self.transitions@,
                Seq::new(self.num_states(), |i: int| i == 0),
                s,
            ) && self.accepting_states@[s]
    }

    /// Subset construction: builds a DFA table over the non-epsilon alphabet
    /// (symbol index `c` of the NFA becomes DFA index `c - 1`) by worklist
    /// exploration of epsilon-closed state sets. Each distinct non-empty set
    /// becomes one row, in discovery order, the start closure as row 0; a
    /// symbol whose target closure is empty keeps an absent transition; a row
    /// is accepting exactly when its set holds an accepting NFA state. The
    /// result is well formed — dense ids, one shared width, every present
    /// transition naming an existing row — and has no unreachable states by
    /// construction.
    pub fn to_dfa(&self) -> (r: Table)
        requires
            self.wf(),
            self.num_states() >= 1,
        ensures
            r.wf(),
            r@.len() >= 1,
            width(r@) == self.character_map.symbols@.len() - 1,
            r@[0].accepting == self.start_closure_accepting(),
            exists|sets: Seq<Seq<bool>>| self.dfa_abstraction(r@, sets),
    {
        let n = self.transitions.len();
        let ghost t = self.transitions@;
        let cm_len = self.character_map.len();
        let alpha_len = cm_len - 1;

        let mut seed: Vec<bool> = Vec::new();
        for i in 0..n
            invariant
                seed@.len() == i,
                forall|k: int| 0 <= k < i ==> #[trigger] seed@[k] == (k == 0),
        {
            seed.push(i == 0);
        }
        proof {
            assert(seed@ =~= Seq::new(self.num_states(), |i: int| i == 0));
        }
        let start = self.follow_lambda(&seed);
        let acc0 = self.set_has_accepting(&start);
        let ghost start_acc = acc0;
        proof {
            let init0 = Seq::new(self.num_states(), |i: int| i == 0);
            assert(seed@ == init0);
            assert(start@ =~= closure_of(t, init0));
            assert(eps_reach_in(t, init0, 0, 0));
            assert(start@[0]);
            assert(start_acc == self.start_closure_accepting()) by {
                if acc0 {
                    let s = choose|s: int|
                        0 <= s < self.num_states() && start@[s] && self.accepting_states@[s];
                    assert(eps_reach(t, init0, s) && self.accepting_states@[s]);
                }
                if self.start_closure_accepting() {
                    let s = choose|s: int|
                        0 <= s < self.num_states() && eps_reach(t, init0, s)
                            && self.accepting_states@[s];
                    assert(start@[s]);
                }
            }
        }

        let row0 = Row::blank_row(acc0, 0, alpha_len);
        let ghost mut grv: Seq<RowV> = seq![row0@];
        let ghost mut gsv: Seq<Seq<bool>> = seq![start@];
        let mut rows: Vec<Row> = Vec::new();
        rows.push(row0);
        let mut sets: Vec<Vec<bool>> = Vec::new();
        sets.push(start);
        let mut pending: Vec<usize> = Vec::new();
        pending.push(0);
        proof {
            lemma_distinct_sets_bound(gsv, n as nat);
            assert(pending@[0] == 0usize);
        }

        while pending.len() > 0
            invariant
                n == self.num_states(),
                n >= 1,
                self.wf(),
                t == self.transitions@,
                cm_len == self.character_map.symbols@.len(),
                cm_len >= 1,
                alpha_len == cm_len - 1,
                grv.len() == rows@.len(),
                forall|k: int| 0 <= k < grv.len() ==> #[trigger] grv[k] == rows@[k]@,
                gsv.len() == sets@.len(),
                forall|k: int| 0 <= k < gsv.len() ==> #[trigger] gsv[k] == sets@[k]@,
                grv.len() == gsv.len(),
                1 <= gsv.len() <= two_pow(n as nat),
                forall|a: int, b: int| 0 <= a < b < gsv.len() ==> gsv[a] != gsv[b],
                forall|a: int| 0 <= a < gsv.len() ==> !empty_set(#[trigger] gsv[a]),
                forall|a: int| 0 <= a < gsv.len() ==> (#[trigger] gsv[a]).len() == n,
                forall|a: int| 0 <= a < pending@.len() ==> #[trigger] pending@[a] < grv.len(),
                forall|a: int, b: int| 0 <= a < b < pending@.len() ==> pending@[a] != pending@[b],
                forall|q: int| 0 <= q < grv.len() ==> (#[trigger] grv[q]).id == q,
                forall|q: int| 0 <= q < grv.len() ==> (#[trigger] grv[q]).transitions.len() == alpha_len,
                grv[0].accepting == start_acc,
                gsv[0] == closure_of(t, Seq::new(n as nat, |i: int| i == 0)),
                forall|q: int|
                    0 <= q < grv.len() ==> ((#[trigger] grv[q]).accepting <==> exists|s: int|
                        0 <= s < n && gsv[q][s] && self.accepting_states@[s]),
                forall|a: int, c2: int|
                    0 <= a < pending@.len() && 0 <= c2 < alpha_len ==> (#[trigger] grv[
                        pending@[a] as int
                    ].transitions[c2]) is None,
                forall|q: usize|
                    q < grv.len() && !pending@.contains(q)
                        ==> #[trigger] self.row_slots_correct(grv, gsv, q as int),
            decreases two_pow(n as nat) + 1 - gsv.len(), pending@.len(),
        {
            let ghost pre_pop = pending@;
            let cur = pending.pop().unwrap();
            proof {
                assert(pre_pop.last() == cur);
                assert(!pending@.contains(cur)) by {
                    if pending@.contains(cur) {
                        let a = choose|a: int| 0 <= a < pending@.len() && pending@[a] == cur;
                        assert(pre_pop[a] == cur);
                        assert(pre_pop[pre_pop.len() - 1] == cur);
                    }
                }
                assert forall|q: usize|
                    q < grv.len() && !pending@.contains(q) && q != cur implies !pre_pop.contains(
                    q,
                ) by {
                    if pre_pop.contains(q) {
                        let a = choose|a: int| 0 <= a < pre_pop.len() && pre_pop[a] == q;
                        if a < pre_pop.len() - 1 {
                            assert(pending@[a] == q);
                        }
                    }
                }
            }
            let ghost sets0 = gsv.len();
            let ghost pend0 = pending@.len();
            let cur_set = clone_bools(&sets[cur]);
            proof {
                assert(gsv[cur as int] == sets@[cur as int]@);
                assert(gsv[cur as int].len() == n);
                assert(cur_set@ == gsv[cur as int]);
            }
            let mut c: usize = 1;
            while c < cm_len
                invariant
                    gsv.len() >= sets0,
                    pending@.len() - pend0 == gsv.len() - sets0,
                    n == self.num_states(),
                    n >= 1,
                    self.wf(),
                    t == self.transitions@,
                    cm_len == self.character_map.symbols@.len(),
                    cm_len >= 1,
                    alpha_len == cm_len - 1,
                    1 <= c <= cm_len,
                    cur < grv.len(),
                    cur_set@ == gsv[cur as int],
                    cur_set@.len() == n,
                    grv.len() == rows@.len(),
                    forall|k: int| 0 <= k < grv.len() ==> #[trigger] grv[k] == rows@[k]@,
                    gsv.len() == sets@.len(),
                    forall|k: int| 0 <= k < gsv.len() ==> #[trigger] gsv[k] == sets@[k]@,
                    grv.len() == gsv.len(),
                    1 <= gsv.len() <= two_pow(n as nat),
                    forall|a: int, b: int| 0 <= a < b < gsv.len() ==> gsv[a] != gsv[b],
                    forall|a: int| 0 <= a < gsv.len() ==> !empty_set(#[trigger] gsv[a]),
                    forall|a: int| 0 <= a < gsv.len() ==> (#[trigger] gsv[a]).len() == n,
                    forall|a: int| 0 <= a < pending@.len() ==> #[trigger] pending@[a] < grv.len(),
                    forall|a: int, b: int|
                        0 <= a < b < pending@.len() ==> pending@[a] != pending@[b],
                    !pending@.contains(cur),
                    forall|q: int| 0 <= q < grv.len() ==> (#[trigger] grv[q]).id == q,
                    forall|q: int|
                        0 <= q < grv.len() ==> (#[trigger] grv[q]).transitions.len() == alpha_len,
                    grv[0].accepting == start_acc,
                    gsv[0] == closure_of(t, Seq::new(n as nat, |i: int| i == 0)),
                    forall|q: int|
                        0 <= q < grv.len() ==> ((#[trigger] grv[q]).accepting <==> exists|s: int|
                            0 <= s < n && gsv[q][s] && self.accepting_states@[s]),
                    forall|a: int, c2: int|
                        0 <= a < pending@.len() && 0 <= c2 < alpha_len ==> (#[trigger] grv[
                            pending@[a] as int
                        ].transitions[c2]) is None,
                    forall|q: usize|
                        q < grv.len() && !pending@.contains(q) && q != cur
                            ==> #[trigger] self.row_slots_correct(grv, gsv, q as int),
                    forall|c2: int|
                        1 <= c2 < c ==> #[trigger] self.slot_correct(grv, gsv, cur as int, c2),
                    forall|c2: int|
                        c <= c2 < cm_len ==> (#[trigger] grv[cur as int].transitions[c2 - 1])
                            is None,
                decreases cm_len - c,
            {
                let stepped = self.follow_char(&cur_set, c);
                let target = self.follow_lambda(&stepped);
                proof {
                    assert(stepped@ =~= step_of(t, cur_set@, c as int));
                    assert(target@ =~= closure_of(t, stepped@));
                    assert(target@ == closure_of(t, step_of(t, gsv[cur as int], c as int)));
                }
                if !set_is_empty(&target) {
                    let ghost tv = target@;
                    let tid: usize = match find_set(&sets, &target) {
                        Some(q) => q,
                        None => {
                            let id = rows.len();
                            let acc = self.set_has_accepting(&target);
                            let new_row = Row::blank_row(acc, id, alpha_len);
                            let ghost grv0 = grv;
                            let ghost gsv0 = gsv;
                            let ghost pend_before = pending@;
                            proof {
                                grv = grv.push(new_row@);
                                gsv = gsv.push(tv);
                            }
                            rows.push(new_row);
                            sets.push(target);
                            pending.push(id);
                            proof {
                                assert forall|a: int, b: int|
                                    0 <= a < b < gsv.len() implies gsv[a] != gsv[b] by {
                                    if b == gsv.len() - 1 {
                                        assert(gsv0[a] == sets@[a]@);
                                    }
                                }
                                lemma_distinct_sets_bound(gsv, n as nat);
                                assert(pending@.last() == id);
                                // Finished rows stay correct: the new row only
                                // extends the table, and prefix entries are
                                // untouched.
                                assert forall|q: usize|
                                    q < grv.len() && !pending@.contains(q) && q != cur
                                    implies #[trigger] self.row_slots_correct(
                                    grv,
                                    gsv,
                                    q as int,
                                ) by {
                                    assert((q as int) < grv0.len()) by {
                                        if q as int == grv0.len() {
                                            assert(pending@[pending@.len() - 1] == q);
                                            assert(pending@.contains(q));
                                        }
                                    }
                                    assert(!pend_before.contains(q)) by {
                                        if pend_before.contains(q) {
                                            let a = choose|a: int|
                                                0 <= a < pend_before.len() && pend_before[a] == q;
                                            assert(pending@[a] == q);
                                        }
                                    }
                                    assert(self.row_slots_correct(grv0, gsv0, q as int));
                                    assert forall|c2: int|
                                        1 <= c2 < cm_len implies self.slot_correct(
                                        grv,
                                        gsv,
                                        q as int,
                                        c2,
                                    ) by {
                                        assert(self.slot_correct(grv0, gsv0, q as int, c2));
                                        assert(grv[q as int] == grv0[q as int]);
                                        assert(gsv[q as int] == gsv0[q as int]);
                                        match grv0[q as int].transitions[c2 - 1] {
                                            Some(q2) => {
                                                assert(gsv[q2 as int] == gsv0[q2 as int]);
                                            },
                                            None => {},
                                        }
                                    }
                                }
                                // So do the finished slots of the row in hand.
                                assert forall|c2: int|
                                    1 <= c2 < c implies #[trigger] self.slot_correct(
                                    grv,
                                    gsv,
                                    cur as int,
                                    c2,
                                ) by {
                                    assert(self.slot_correct(grv0, gsv0, cur as int, c2));
                                    assert(grv[cur as int] == grv0[cur as int]);
                                    assert(gsv[cur as int] == gsv0[cur as int]);
                                    match grv0[cur as int].transitions[c2 - 1] {
                                        Some(q2) => {
                                            assert(gsv[q2 as int] == gsv0[q2 as int]);
                                        },
                                        None => {},
                                    }
                                }
                            }
                            id
                        },
                    };
                    proof {
                        assert(gsv[tid as int] == target@);
                    }
                    let ghost grv1 = grv;
                    proof {
                        grv = grv.update(
                            cur as int,
                            RowV {
                                transitions: grv1[cur as int].transitions.update(
                                    c - 1,
                                    Some(tid),
                                ),
                                ..grv1[cur as int]
                            },
                        );
                    }
                    rows[cur].transitions[c - 1] = Some(tid);
                    proof {
                        assert(grv[cur as int] =~= rows@[cur as int]@);
                        assert(self.slot_correct(grv, gsv, cur as int, c as int));
                        assert forall|q: usize|
                            q < grv.len() && !pending@.contains(q) && q != cur
                            implies #[trigger] self.row_slots_correct(grv, gsv, q as int) by {
                            assert(self.row_slots_correct(grv1, gsv, q as int));
                            assert forall|c2: int|
                                1 <= c2 < cm_len implies self.slot_correct(
                                grv,
                                gsv,
                                q as int,
                                c2,
                            ) by {
                                assert(self.slot_correct(grv1, gsv, q as int, c2));
                                assert(grv[q as int] == grv1[q as int]);
                            }
                        }
                        assert forall|c2: int|
                            1 <= c2 < c + 1 implies #[trigger] self.slot_correct(
                            grv,
                            gsv,
                            cur as int,
                            c2,
                        ) by {
                            if c2 < c {
                                assert(self.slot_correct(grv1, gsv, cur as int, c2));
                                assert(grv[cur as int].transitions[c2 - 1] == grv1[
                                    cur as int
                                ].transitions[c2 - 1]);
                            }
                        }
                    }
                } else {
                    proof {
                        assert(grv[cur as int].transitions[c - 1] is None);
                        assert(empty_set(target@));
                        assert(self.slot_correct(grv, gsv, cur as int, c as int));
                    }
                }
                c = c + 1;
            }
            proof {
                assert forall|q: usize|
                    q < grv.len() && !pending@.contains(q)
                    implies #[trigger] self.row_slots_correct(grv, gsv, q as int) by {
                    if q == cur {
                        assert forall|c2: int|
                            1 <= c2 < cm_len implies self.slot_correct(
                            grv,
                            gsv,
                            cur as int,
                            c2,
                        ) by {}
                    }
                }
            }
        }
        let num = rows.len();
        let table = Table::new(rows, num);
        proof {
            assert(table@ =~= grv);
            assert(table@[0].accepting == start_acc);
            assert(table_wf(table@)) by {
                assert(width(table@) == alpha_len);
                assert forall|q: int, c: int|
                    0 <= q < table@.len() && 0 <= c < table@[q].transitions.len() implies ((
                #[trigger] table@[q].transitions[c]) matches Some(x) ==> x < table@.len()) by {
                    assert(!pending@.contains(q as usize));
                    assert(self.row_slots_correct(grv, gsv, q));
                    assert(self.slot_correct(grv, gsv, q, c + 1));
                }
            }
            assert(self.dfa_abstraction(table@, gsv)) by {
                assert forall|q: int|
                    0 <= q < table@.len() implies #[trigger] self.row_slots_correct(
                    table@,
                    gsv,
                    q,
                ) by {
                    assert(!pending@.contains(q as usize));
                    assert(self.row_slots_correct(grv, gsv, q));
                    assert forall|c2: int|
                        1 <= c2 < cm_len implies self.slot_correct(table@, gsv, q, c2) by {
                        assert(self.slot_correct(grv, gsv, q, c2));
                    }
                }
            }
        }
        table
    }

    /// The set of NFA states obtained by following the symbol with index `c`
    /// once from every state of `states` (not epsilon-closed).
    pub fn follow_char(&self, states: &StateSet, c: usize) -> (r: StateSet)
        requires
            self.wf(),
            states@.len() == self.num_states(),
            c < self.character_map.symbols@.len(),
        ensures
            r@.len() == self.num_states(),
            forall|s: int|
                0 <= s < self.num_states() ==> (#[trigger] r@[s] <==> exists|p: int|
                    0 <= p < self.num_states() && states@[p]
                        && (#[trigger] self.transitions@[p]@[c as int]@).contains(s as usize)),
    {
        let n = self.transitions.len();
        let ghost t = self.transitions@;
        let mut follow: Vec<bool> = Vec::new();
        for s in 0..n
            invariant
                follow@.len() == s,
                forall|k: int| 0 <= k < s ==> !(#[trigger] follow@[k]),
        {
            follow.push(false);
        }
        for p in 0..n
            invariant
                n == self.num_states(),
                self.wf(),
                t == self.transitions@,
                states@.len() == n,
                c < self.character_map.symbols@.len(),
                follow@.len() == n,
                forall|s: int|
                    0 <= s < n ==> (#[trigger] follow@[s] <==> exists|q: int|
                        0 <= q < p && states@[q] && (#[trigger] t[q]@[c as int]@).contains(
                            s as usize,
                        )),
        {
            if states[p] {
                let m = self.transitions[p][c].len();
                for k in 0..m
                    invariant
                        n == self.num_states(),
                        self.wf(),
                        t == self.transitions@,
                        states@.len() == n,
                        states@[p as int],
                        c < self.character_map.symbols@.len(),
                        p < n,
                        m == t[p as int]@[c as int]@.len(),
                        follow@.len() == n,
                        forall|s: int|
                            0 <= s < n ==> (#[trigger] follow@[s] <==> (exists|q: int|
                                0 <= q < p && states@[q] && (#[trigger] t[q]@[c as int]@).contains(
                                    s as usize,
                                )) || (exists|k2: int|
                                0 <= k2 < k && #[trigger] t[p as int]@[c as int]@[k2]
                                    == s as usize)),
                {
                    let u = self.transitions[p][c][k];
                    follow[u] = true;
                    proof {
                        assert(t[p as int]@[c as int]@[k as int] == u);
                    }
                }
            }
            proof {
                assert forall|s: int|
                    0 <= s < n implies (#[trigger] follow@[s] <==> exists|q: int|
                        0 <= q < p + 1 && states@[q] && (#[trigger] t[q]@[c as int]@).contains(
                            s as usize,
                        )) by {
                    if follow@[s] {
                        if exists|q: int|
                            0 <= q < p && states@[q] && (#[trigger] t[q]@[c as int]@).contains(
                                s as usize,
                            ) {
                        } else {
                            if states@[p as int] {
                                let k2 = choose|k2: int|
                                    0 <= k2 < t[p as int]@[c as int]@.len() && #[trigger] t[
                                        p as int
                                    ]@[c as int]@[k2] == s as usize;
                                assert(t[p as int]@[c as int]@.contains(s as usize));
                            }
                        }
                    } else {
                        if exists|q: int|
                            0 <= q < p + 1 && states@[q] && (#[trigger] t[q]@[c as int]@).contains(
                                s as usize,
                            ) {
                            let q = choose|q: int|
                                0 <= q < p + 1 && states@[q] && (#[trigger] t[
                                    q
                                ]@[c as int]@).contains(s as usize);
                            if q == p {
                                let k2 = choose|k2: int|
                                    0 <= k2 < t[q]@[c as int]@.len() && t[q]@[c as int]@[k2]
                                        == s as usize;
                            }
                            assert(false);
                        }
                    }
                }
            }
        }
        follow
    }
}

} // verus!
