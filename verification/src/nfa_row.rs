//! One line of an NFA description: an accepting mark, a source and a
//! destination state id, and the symbols labelling the parallel edges between
//! them — together with the tokenizing of the line formats.

use vstd::prelude::*;

use crate::char_map::CharMap;
use crate::text::{chars_of, parse_usize, parse_usize_spec, tokenize, tokens_of};

verus! {

/// Mathematical image of an NFA edge line.
#[verifier::ext_equal]
pub ghost struct NfaRowV {
    pub accepting: bool,
    pub from_id: usize,
    pub to_id: usize,
    pub transitions: Seq<char>,
}

/// What parsing an NFA line yields: the line must tokenize into an accepting
/// mark (`+` or `-`), two state ids, and any number of single-character
/// symbols; anything else is a malformed line.
pub open spec fn parse_row_spec(s: Seq<char>) -> Option<NfaRowV> {
    let toks = tokens_of(s);
    if toks.len() < 3 {
        None
    } else if !(toks[0] == seq!['+'] || toks[0] == seq!['-']) {
        None
    } else if parse_usize_spec(toks[1]) is None {
        None
    } else if parse_usize_spec(toks[2]) is None {
        None
    } else if exists|k: int| 3 <= k < toks.len() && (#[trigger] toks[k]).len() != 1 {
        None
    } else {
        Some(
            NfaRowV {
                accepting: toks[0] == seq!['+'],
                from_id: parse_usize_spec(toks[1])->Some_0,
                to_id: parse_usize_spec(toks[2])->Some_0,
                transitions: toks.skip(3).map(|i: int, t: Seq<char>| t[0]),
            },
        )
    }
}

/// One parsed NFA line: whether `from_id` accepts, the edge's endpoints, and
/// the symbols of the parallel edges it declares.
#[derive(Debug)]
pub struct Row {
    pub accepting_state: bool,
    pub from_id: usize,
    pub to_id: usize,
    pub transitions: Vec<char>,
}

impl View for Row {
    type V = NfaRowV;

    open spec fn view(&self) -> NfaRowV {
        NfaRowV {
            accepting: self.accepting_state,
            from_id: self.from_id,
            to_id: self.to_id,
            transitions: self.transitions@,
        }
    }
}

impl Row {
    /// A row assembled from its parts.
    pub fn new(accepting_state: bool, from_id: usize, to_id: usize, transitions: Vec<char>) -> (r:
        Row)
        ensures
            r@ == (NfaRowV {
                accepting: accepting_state,
                from_id: from_id,
                to_id: to_id,
                transitions: transitions@,
            }),
    {
        Row { accepting_state, from_id, to_id, transitions }
    }

    /// Whether the source state accepts.
    pub fn get_accepting_state(&self) -> (r: bool)
        ensures
            r == self@.accepting,
    {
        self.accepting_state
    }

    /// The edge's source state.
    pub fn get_from_id(&self) -> (r: usize)
        ensures
            r == self@.from_id,
    {
        self.from_id
    }

    /// Replaces the edge's source state.
    pub fn set_from_id(&mut self, value: usize)
        ensures
            final(self)@ == (NfaRowV { from_id: value, ..old(self)@ }),
    {
        self.from_id = value;
    }

    /// The edge's destination state.
    pub fn get_to_id(&self) -> (r: usize)
        ensures
            r == self@.to_id,
    {
        self.to_id
    }

    /// Replaces the edge's destination state.
    pub fn set_to_id(&mut self, value: usize)
        ensures
            final(self)@ == (NfaRowV { to_id: value, ..old(self)@ }),
    {
        self.to_id = value;
    }

    /// The symbols labelling the declared parallel edges.
    pub fn get_transitions(&self) -> (r: &Vec<char>)
        ensures
            r@ == self@.transitions,
    {
        &self.transitions
    }

    /// Parses one NFA line, `"<+|-> <fromId> <toId> <symbol>..."`: a malformed
    /// line — too few fields, a mark other than `+` or `-`, an unparsable id,
    /// a symbol of more than one character — is a fatal parse failure.
    pub fn from_str_custom(input: &str) -> (r: Result<Row, ()>)
        ensures
            match r {
                Ok(row) => parse_row_spec(input@) == Some(row@),
                Err(_) => parse_row_spec(input@) is None,
            },
    {
        let chars = chars_of(input);
        let toks = tokenize(&chars);
        let ghost tv = tokens_of(input@);
        proof {
            assert(toks@.map(|i: int, t: Vec<char>| t@) == tv);
        }
        if toks.len() < 3 {
            return Err(());
        }
        let mark = &toks[0];
        let is_plus = mark.len() == 1 && *mark_char(mark) == '+';
        let is_minus = mark.len() == 1 && *mark_char(mark) == '-';
        proof {
            assert(toks@[0]@ == tv[0]);
            assert(is_plus == (tv[0] == seq!['+'])) by {
                if tv[0].len() == 1 && tv[0][0] == '+' {
                    assert(tv[0] =~= seq!['+']);
                }
            }
            assert(is_minus == (tv[0] == seq!['-'])) by {
                if tv[0].len() == 1 && tv[0][0] == '-' {
                    assert(tv[0] =~= seq!['-']);
                }
            }
        }
        if !is_plus && !is_minus {
            return Err(());
        }
        proof {
            assert(toks@[1]@ == tv[1]);
            assert(toks@[2]@ == tv[2]);
        }
        let from_id = match parse_usize(&toks[1]) {
            Some(v) => v,
            None => {
                return Err(());
            },
        };
        let to_id = match parse_usize(&toks[2]) {
            Some(v) => v,
            None => {
                return Err(());
            },
        };
        let mut transitions: Vec<char> = Vec::new();
        let tl = toks.len();
        let mut k: usize = 3;
        while k < tl
            invariant
                tl == toks@.len(),
                3 <= k <= tl,
                toks@.map(|i: int, t: Vec<char>| t@) == tv,
                tv == tokens_of(input@),
                tv.len() >= 3,
                tv[0] == seq!['+'] || tv[0] == seq!['-'],
                parse_usize_spec(tv[1]) is Some,
                parse_usize_spec(tv[2]) is Some,
                forall|q: int| 3 <= q < k ==> (#[trigger] tv[q]).len() == 1,
                transitions@.len() == k - 3,
                forall|q: int| 0 <= q < k - 3 ==> #[trigger] transitions@[q] == tv[q + 3][0],
            decreases tl - k,
        {
            proof {
                assert(toks@[k as int]@ == tv[k as int]);
            }
            if toks[k].len() != 1 {
                proof {
                    assert(tv[k as int].len() != 1);
                }
                return Err(());
            }
            let c = *mark_char(&toks[k]);
            transitions.push(c);
            k = k + 1;
        }
        proof {
            assert(transitions@ =~= tv.skip(3).map(|i: int, t: Seq<char>| t[0]));
            if exists|q: int| 3 <= q < tv.len() && (#[trigger] tv[q]).len() != 1 {
                let q = choose|q: int| 3 <= q < tv.len() && (#[trigger] tv[q]).len() != 1;
                assert(false);
            }
        }
        Ok(Row::new(is_plus, from_id, to_id, transitions))
    }
}

/// The single character of a one-character token.
fn mark_char(tok: &Vec<char>) -> (r: &char)
    requires
        tok@.len() >= 1,
    ensures
        *r == tok@[0],
{
    &tok[0]
}

/// The declared state count: the first token of an NFA description's first
/// line, read as an unsigned integer.
pub fn get_num_states(first_line: &str) -> (r: Option<usize>)
    ensures
        r == (if tokens_of(first_line@).len() >= 1 {
            parse_usize_spec(tokens_of(first_line@)[0])
        } else {
            None
        }),
{
    let chars = chars_of(first_line);
    let toks = tokenize(&chars);
    if toks.len() == 0 {
        return None;
    }
    proof {
        assert(toks@[0]@ == tokens_of(first_line@)[0]);
    }
    parse_usize(&toks[0])
}

/// The alphabet of an NFA description's first line: the tokens after the
/// state count, each a single character, the epsilon symbol first, mapped to
/// their positions. `None` for a missing alphabet, a symbol of more than one
/// character, or a repeated symbol.
pub fn get_char_map(first_line: &str) -> (r: Option<(CharMap, char)>)
    ensures
        r matches Some(p) ==> {
            let toks = tokens_of(first_line@);
            &&& toks.len() >= 2
            &&& (forall|k: int| 1 <= k < toks.len() ==> (#[trigger] toks[k]).len() == 1)
            &&& p.0.symbols@ == toks.skip(1).map(|i: int, t: Seq<char>| t[0])
            &&& p.0.wf()
            &&& p.1 == p.0.symbols@[0]
        },
        r is None ==> {
            let toks = tokens_of(first_line@);
            ||| toks.len() < 2
            ||| exists|k: int| 1 <= k < toks.len() && (#[trigger] toks[k]).len() != 1
            ||| !crate::char_map::distinct_chars(toks.skip(1).map(|i: int, t: Seq<char>| t[0]))
        },
{
    let chars = chars_of(first_line);
    let toks = tokenize(&chars);
    let ghost tv = tokens_of(first_line@);
    let tl = toks.len();
    if tl < 2 {
        return None;
    }
    let mut symbols: Vec<char> = Vec::new();
    let mut k: usize = 1;
    while k < tl
        invariant
            tl == toks@.len(),
            tl >= 2,
            1 <= k <= tl,
            toks@.map(|i: int, t: Vec<char>| t@) == tv,
            tv == tokens_of(first_line@),
            forall|q: int| 1 <= q < k ==> (#[trigger] tv[q]).len() == 1,
            symbols@.len() == k - 1,
            forall|q: int| 0 <= q < k - 1 ==> #[trigger] symbols@[q] == tv[q + 1][0],
        decreases tl - k,
    {
        proof {
            assert(toks@[k as int]@ == tv[k as int]);
        }
        if toks[k].len() != 1 {
            proof {
                assert(tv[k as int].len() != 1);
            }
            return None;
        }
        let c = *mark_char(&toks[k]);
        symbols.push(c);
        k = k + 1;
    }
    proof {
        assert(symbols@ =~= tv.skip(1).map(|i: int, t: Seq<char>| t[0]));
        if exists|q: int| 1 <= q < tv.len() && (#[trigger] tv[q]).len() != 1 {
            let q = choose|q: int| 1 <= q < tv.len() && (#[trigger] tv[q]).len() != 1;
            assert(false);
        }
    }
    let lambda = *mark_char(&symbols);
    match CharMap::new(symbols) {
        Ok(m) => Some((m, lambda)),
        Err(_) => None,
    }
}

/// The ids that a row list mentions, in scan order — the start state 0 first,
/// then each row's source and destination.
pub open spec fn occ_ids(rows: Seq<NfaRowV>, k: int) -> Seq<usize>
    decreases k,
{
    if k <= 0 {
        seq![0usize]
    } else {
        occ_ids(rows, k - 1) + seq![rows[k - 1].from_id, rows[k - 1].to_id]
    }
}

/// A sequence with its repeated elements dropped, keeping first occurrences
/// in order.
pub open spec fn dedup_first(s: Seq<usize>) -> Seq<usize>
    decreases s.len(),
{
    if s.len() == 0 {
        Seq::empty()
    } else {
        let p = dedup_first(s.drop_last());
        if p.contains(s.last()) {
            p
        } else {
            p.push(s.last())
        }
    }
}

/// The distinct ids a row list mentions, in first-appearance order with the
/// start state always first: position in this list is the dense id that
/// renumbering assigns.
pub open spec fn table_ids(rows: Seq<NfaRowV>) -> Seq<usize> {
    dedup_first(occ_ids(rows, rows.len() as int))
}

/// The first position of `x` in `s`.
pub open spec fn pos_of(s: Seq<usize>, x: usize) -> int
    decreases s.len(),
{
    if s.len() == 0 {
        0
    } else if s[0] == x {
        0
    } else {
        1 + pos_of(s.drop_first(), x)
    }
}

proof fn lemma_pos_of_first(s: Seq<usize>, a: int, x: usize)
    requires
        0 <= a < s.len(),
        s[a] == x,
        forall|k: int| 0 <= k < a ==> s[k] != x,
    ensures
        pos_of(s, x) == a,
    decreases a,
{
    if a > 0 {
        lemma_pos_of_first(s.drop_first(), a - 1, x);
    }
}

/// Deduplicating keeps exactly the elements.
proof fn lemma_dedup_contains(s: Seq<usize>, x: usize)
    ensures
        dedup_first(s).contains(x) <==> s.contains(x),
    decreases s.len(),
{
    if s.len() > 0 {
        lemma_dedup_contains(s.drop_last(), x);
        let p = dedup_first(s.drop_last());
        let d = dedup_first(s);
        if s.contains(x) {
            let a = choose|a: int| 0 <= a < s.len() && s[a] == x;
            if a < s.len() - 1 {
                assert(s.drop_last()[a] == x);
                assert(s.drop_last().contains(x));
                assert(p.contains(x));
                if !p.contains(s.last()) {
                    let b = choose|b: int| 0 <= b < p.len() && p[b] == x;
                    assert(d[b] == x);
                    assert(d.contains(x));
                }
            } else {
                assert(s.last() == x);
                if !p.contains(x) {
                    assert(d[d.len() - 1] == x);
                    assert(d.contains(x));
                }
            }
        }
        if d.contains(x) && !s.contains(x) {
            assert(!s.drop_last().contains(x)) by {
                if s.drop_last().contains(x) {
                    let a = choose|a: int| 0 <= a < s.drop_last().len() && s.drop_last()[a] == x;
                    assert(s[a] == x);
                }
            }
            assert(!p.contains(x));
            assert(s.last() != x) by {
                assert(s[s.len() - 1] == s.last());
            }
            if p.contains(s.last()) {
                assert(d == p);
                assert(false);
            } else {
                let b = choose|b: int| 0 <= b < d.len() && d[b] == x;
                if b < p.len() {
                    assert(p[b] == x);
                    assert(p.contains(x));
                } else {
                    assert(d[b] == s.last());
                }
                assert(false);
            }
        }
    }
}

/// Every id a row mentions occurs in the scan-order list.
proof fn lemma_occ_has(rows: Seq<NfaRowV>, n: int, k: int)
    requires
        0 <= k < n,
    ensures
        occ_ids(rows, n).contains(rows[k].from_id),
        occ_ids(rows, n).contains(rows[k].to_id),
    decreases n,
{
    let whole = occ_ids(rows, n);
    let prefix = occ_ids(rows, n - 1);
    if k == n - 1 {
        assert(whole[prefix.len() as int] == rows[k].from_id);
        assert(whole[prefix.len() as int + 1] == rows[k].to_id);
    } else {
        lemma_occ_has(rows, n - 1, k);
        let a = choose|a: int| 0 <= a < prefix.len() && prefix[a] == rows[k].from_id;
        assert(whole[a] == rows[k].from_id);
        let b = choose|b: int| 0 <= b < prefix.len() && prefix[b] == rows[k].to_id;
        assert(whole[b] == rows[k].to_id);
    }
}

/// Whether `x` occurs in `ids`.
fn ids_contains(ids: &Vec<usize>, x: usize) -> (r: bool)
    ensures
        r == ids@.contains(x),
{
    let n = ids.len();
    for a in 0..n
        invariant
            n == ids@.len(),
            forall|q: int| 0 <= q < a ==> ids@[q] != x,
    {
        if ids[a] == x {
            proof {
                assert(ids@[a as int] == x);
            }
            return true;
        }
    }
    proof {
        if ids@.contains(x) {
            let a = choose|a: int| 0 <= a < ids@.len() && ids@[a] == x;
            assert(ids@[a] != x);
        }
    }
    false
}

/// The first position of `x` in `ids`.
fn ids_position(ids: &Vec<usize>, x: usize) -> (r: usize)
    requires
        ids@.contains(x),
    ensures
        r < ids@.len(),
        r as int == pos_of(ids@, x),
{
    let n = ids.len();
    for a in 0..n
        invariant
            n == ids@.len(),
            ids@.contains(x),
            forall|q: int| 0 <= q < a ==> ids@[q] != x,
    {
        if ids[a] == x {
            proof {
                lemma_pos_of_first(ids@, a as int, x);
            }
            return a;
        }
    }
    proof {
        let a = choose|a: int| 0 <= a < ids@.len() && ids@[a] == x;
        assert(ids@[a] != x);
        assert(false);
    }
    0
}

/// Renumbers the rows' source and destination ids densely, in first-appearance
/// scan order, with the start id 0 always mapped to 0: after the call every
/// id is the position its old value holds among the distinct ids mentioned.
pub fn make_indexable(rows: &mut Vec<Row>)
    ensures
        final(rows)@.len() == old(rows)@.len(),
        forall|k: int|
            0 <= k < old(rows)@.len() ==> (#[trigger] final(rows)@[k])@ == (NfaRowV {
                from_id: pos_of(
                    table_ids(old(rows)@.map(|i: int, r: Row| r@)),
                    old(rows)@[k]@.from_id,
                ) as usize,
                to_id: pos_of(
                    table_ids(old(rows)@.map(|i: int, r: Row| r@)),
                    old(rows)@[k]@.to_id,
                ) as usize,
                ..old(rows)@[k]@
            }),
{
    let ghost rowsv = rows@.map(|i: int, r: Row| r@);
    let n = rows.len();
    let mut ids: Vec<usize> = Vec::new();
    ids.push(0);
    proof {
        assert(dedup_first(Seq::<usize>::empty()) =~= Seq::<usize>::empty());
        assert(occ_ids(rowsv, 0) =~= seq![0usize]);
        assert(occ_ids(rowsv, 0).drop_last() =~= Seq::<usize>::empty());
        assert(ids@ =~= dedup_first(occ_ids(rowsv, 0)));
    }
    for k in 0..n
        invariant
            rows@.map(|i: int, r: Row| r@) == rowsv,
            n == rows@.len(),
            ids@ == dedup_first(occ_ids(rowsv, k as int)),
    {
        proof {
            assert(rows@[k as int]@ == rowsv[k as int]);
        }
        let f = rows[k].from_id;
        if !ids_contains(&ids, f) {
            ids.push(f);
        }
        let ghost ids_after_f = ids@;
        let t = rows[k].to_id;
        if !ids_contains(&ids, t) {
            ids.push(t);
        }
        proof {
            let pre = occ_ids(rowsv, k as int);
            let withf = pre + seq![f];
            let witht = withf + seq![t];
            assert(withf.drop_last() =~= pre);
            assert(withf.last() == f);
            assert(witht.drop_last() =~= withf);
            assert(witht.last() == t);
            assert(witht =~= occ_ids(rowsv, k + 1));
            assert(ids_after_f == dedup_first(withf));
            assert(ids@ == dedup_first(witht));
        }
    }
    proof {
        assert(ids@ == table_ids(rowsv));
    }
    for k in 0..n
        invariant
            n == rows@.len(),
            rowsv.len() == n,
            ids@ == table_ids(rowsv),
            forall|q: int| k <= q < n ==> (#[trigger] rows@[q])@ == rowsv[q],
            forall|q: int|
                0 <= q < k ==> (#[trigger] rows@[q])@ == (NfaRowV {
                    from_id: pos_of(table_ids(rowsv), rowsv[q].from_id) as usize,
                    to_id: pos_of(table_ids(rowsv), rowsv[q].to_id) as usize,
                    ..rowsv[q]
                }),
    {
        proof {
            assert(rows@[k as int]@ == rowsv[k as int]);
            lemma_occ_has(rowsv, n as int, k as int);
            lemma_dedup_contains(occ_ids(rowsv, n as int), rowsv[k as int].from_id);
            lemma_dedup_contains(occ_ids(rowsv, n as int), rowsv[k as int].to_id);
        }
        let nf = ids_position(&ids, rows[k].from_id);
        let nt = ids_position(&ids, rows[k].to_id);
        rows[k].from_id = nf;
        rows[k].to_id = nt;
        proof {
            assert(rows@[k as int]@ == (NfaRowV {
                from_id: pos_of(table_ids(rowsv), rowsv[k as int].from_id) as usize,
                to_id: pos_of(table_ids(rowsv), rowsv[k as int].to_id) as usize,
                ..rowsv[k as int]
            }));
        }
    }
}

/// Some row declares an edge from `s` to `tgt` labelled `ch`.
pub open spec fn declares_edge(rows: Seq<NfaRowV>, s: usize, ch: char, tgt: usize) -> bool {
    exists|j: int|
        0 <= j < rows.len() && (#[trigger] rows[j]).from_id == s && rows[j].to_id == tgt && rows[
            j
        ].transitions.contains(ch)
}

/// Whether a symbol list holds `ch`.
fn chars_contain(v: &Vec<char>, ch: char) -> (r: bool)
    ensures
        r == v@.contains(ch),
{
    let n = v.len();
    for a in 0..n
        invariant
            n == v@.len(),
            forall|q: int| 0 <= q < a ==> v@[q] != ch,
    {
        if v[a] == ch {
            proof {
                assert(v@[a as int] == ch);
            }
            return true;
        }
    }
    proof {
        if v@.contains(ch) {
            let a = choose|a: int| 0 <= a < v@.len() && v@[a] == ch;
            assert(v@[a] != ch);
        }
    }
    false
}

/// The NFA transition structure the rows declare: for state `s` and symbol
/// index `c`, the destinations of the edges from `s` labelled with the
/// `c`th symbol — each destination once per declaring row, in scan order.
pub fn get_transitions(rows: &Vec<Row>, char_map: &CharMap, num_states: usize) -> (r: Vec<
    Vec<Vec<usize>>,
>)
    requires
        char_map.wf(),
        forall|j: int|
            0 <= j < rows@.len() ==> (#[trigger] rows@[j])@.from_id < num_states && rows@[j]@.to_id
                < num_states,
    ensures
        r@.len() == num_states,
        forall|s: int| 0 <= s < num_states ==> (#[trigger] r@[s])@.len() == char_map.symbols@.len(),
        forall|s: int, c: int, k: int|
            0 <= s < num_states && 0 <= c < r@[s]@.len() && 0 <= k < r@[s]@[c]@.len() ==> (
            #[trigger] r@[s]@[c]@[k]) < num_states,
        forall|s: int, c: int, tgt: usize|
            0 <= s < num_states && 0 <= c < char_map.symbols@.len() ==> (#[trigger] r@[s]@[c]@.contains(tgt) <==> declares_edge(
                rows@.map(|i: int, x: Row| x@),
                s as usize,
                char_map.symbols@[c],
                tgt,
            )),
{
    let ghost rowsv = rows@.map(|i: int, x: Row| x@);
    let nrows = rows.len();
    let cm_len = char_map.len();
    let mut outer: Vec<Vec<Vec<usize>>> = Vec::new();
    for s in 0..num_states
        invariant
            rowsv == rows@.map(|i: int, x: Row| x@),
            nrows == rows@.len(),
            cm_len == char_map.symbols@.len(),
            forall|j: int|
                0 <= j < rows@.len() ==> (#[trigger] rows@[j])@.from_id < num_states
                    && rows@[j]@.to_id < num_states,
            outer@.len() == s,
            forall|q: int| 0 <= q < s ==> (#[trigger] outer@[q])@.len() == cm_len,
            forall|q: int, c: int, k: int|
                0 <= q < s && 0 <= c < outer@[q]@.len() && 0 <= k < outer@[q]@[c]@.len() ==> (
                #[trigger] outer@[q]@[c]@[k]) < num_states,
            forall|q: int, c: int, tgt: usize|
                0 <= q < s && 0 <= c < cm_len ==> (#[trigger] outer@[q]@[c]@.contains(tgt) <==> declares_edge(
                    rowsv,
                    q as usize,
                    char_map.symbols@[c],
                    tgt,
                )),
    {
        let mut per_sym: Vec<Vec<usize>> = Vec::new();
        for c in 0..cm_len
            invariant
                rowsv == rows@.map(|i: int, x: Row| x@),
                nrows == rows@.len(),
                cm_len == char_map.symbols@.len(),
                forall|j: int|
                    0 <= j < rows@.len() ==> (#[trigger] rows@[j])@.from_id < num_states
                        && rows@[j]@.to_id < num_states,
                s < num_states,
                per_sym@.len() == c,
                forall|c2: int, k: int|
                    0 <= c2 < c && 0 <= k < per_sym@[c2]@.len() ==> (#[trigger] per_sym@[c2]@[k])
                        < num_states,
                forall|c2: int, tgt: usize|
                    0 <= c2 < c ==> (#[trigger] per_sym@[c2]@.contains(tgt) <==> declares_edge(
                        rowsv,
                        s as usize,
                        char_map.symbols@[c2],
                        tgt,
                    )),
        {
            let ghost ch = char_map.symbols@[c as int];
            let mut lst: Vec<usize> = Vec::new();
            for j in 0..nrows
                invariant
                    rowsv == rows@.map(|i: int, x: Row| x@),
                    nrows == rows@.len(),
                    cm_len == char_map.symbols@.len(),
                    c < cm_len,
                    ch == char_map.symbols@[c as int],
                    forall|j2: int|
                        0 <= j2 < rows@.len() ==> (#[trigger] rows@[j2])@.from_id < num_states
                            && rows@[j2]@.to_id < num_states,
                    s < num_states,
                    forall|k: int| 0 <= k < lst@.len() ==> (#[trigger] lst@[k]) < num_states,
                    forall|tgt: usize|
                        lst@.contains(tgt) <==> exists|j2: int|
                            0 <= j2 < j && (#[trigger] rowsv[j2]).from_id == s as usize
                                && rowsv[j2].to_id == tgt && rowsv[j2].transitions.contains(ch),
            {
                proof {
                    assert(rows@[j as int]@ == rowsv[j as int]);
                }
                if rows[j].from_id == s && chars_contain(&rows[j].transitions, char_map.symbols[c])
                {
                    let ghost pre = lst@;
                    lst.push(rows[j].to_id);
                    proof {
                        assert(lst@.last() == rowsv[j as int].to_id);
                        assert forall|tgt: usize| lst@.contains(tgt) implies (exists|j2: int|
                            0 <= j2 < j + 1 && (#[trigger] rowsv[j2]).from_id == s as usize
                                && rowsv[j2].to_id == tgt && rowsv[j2].transitions.contains(
                                ch,
                            )) by {
                            let a = choose|a: int| 0 <= a < lst@.len() && lst@[a] == tgt;
                            if a < pre.len() {
                                assert(pre[a] == tgt);
                                assert(pre.contains(tgt));
                            } else {
                                assert(rowsv[j as int].from_id == s as usize && rowsv[
                                    j as int
                                ].to_id == tgt && rowsv[j as int].transitions.contains(ch));
                            }
                        }
                        assert forall|tgt: usize|
                            (exists|j2: int|
                                0 <= j2 < j + 1 && (#[trigger] rowsv[j2]).from_id == s as usize
                                    && rowsv[j2].to_id == tgt && rowsv[j2].transitions.contains(
                                    ch,
                                )) implies lst@.contains(tgt) by {
                            let j2 = choose|j2: int|
                                0 <= j2 < j + 1 && (#[trigger] rowsv[j2]).from_id == s as usize
                                    && rowsv[j2].to_id == tgt && rowsv[j2].transitions.contains(ch);
                            if j2 < j {
                                assert(pre.contains(tgt));
                                let a = choose|a: int| 0 <= a < pre.len() && pre[a] == tgt;
                                assert(lst@[a] == tgt);
                            } else {
                                assert(lst@.last() == tgt);
                            }
                        }
                    }
                } else {
                    proof {
                        assert forall|tgt: usize|
                            (exists|j2: int|
                                0 <= j2 < j + 1 && (#[trigger] rowsv[j2]).from_id == s as usize
                                    && rowsv[j2].to_id == tgt && rowsv[j2].transitions.contains(
                                    ch,
                                )) implies lst@.contains(tgt) by {
                            let j2 = choose|j2: int|
                                0 <= j2 < j + 1 && (#[trigger] rowsv[j2]).from_id == s as usize
                                    && rowsv[j2].to_id == tgt && rowsv[j2].transitions.contains(ch);
                            assert(j2 < j);
                        }
                    }
                }
            }
            per_sym.push(lst);
            proof {
                assert forall|tgt: usize|
                    (#[trigger] per_sym@[c as int]@.contains(tgt) <==> declares_edge(
                        rowsv,
                        s as usize,
                        ch,
                        tgt,
                    )) by {
                    assert(per_sym@[c as int]@ == lst@);
                }
            }
        }
        outer.push(per_sym);
    }
    outer
}

/// The accepting set the rows declare: state `s` accepts when some row with
/// source `s` carries the accepting mark.
pub fn accepting_of(rows: &Vec<Row>, num_states: usize) -> (r: Vec<bool>)
    requires
        forall|j: int| 0 <= j < rows@.len() ==> (#[trigger] rows@[j])@.from_id < num_states,
    ensures
        r@.len() == num_states,
        forall|s: int|
            0 <= s < num_states ==> (#[trigger] r@[s] <==> exists|j: int|
                0 <= j < rows@.len() && (#[trigger] rows@[j]@).accepting && rows@[j]@.from_id
                    == s as usize),
{
    let ghost rowsv = rows@.map(|i: int, x: Row| x@);
    let nrows = rows.len();
    let mut acc: Vec<bool> = Vec::new();
    for s in 0..num_states
        invariant
            acc@.len() == s,
            forall|k: int| 0 <= k < s ==> !(#[trigger] acc@[k]),
    {
        acc.push(false);
    }
    for j in 0..nrows
        invariant
            nrows == rows@.len(),
            forall|j2: int| 0 <= j2 < rows@.len() ==> (#[trigger] rows@[j2])@.from_id < num_states,
            acc@.len() == num_states,
            forall|s: int|
                0 <= s < num_states ==> (#[trigger] acc@[s] <==> exists|j2: int|
                    0 <= j2 < j && (#[trigger] rows@[j2]@).accepting && rows@[j2]@.from_id
                        == s as usize),
    {
        let ghost pre = acc@;
        if rows[j].get_accepting_state() {
            let f = rows[j].get_from_id();
            acc[f] = true;
        }
        proof {
            assert forall|s: int|
                0 <= s < num_states implies (#[trigger] acc@[s] <==> exists|j2: int|
                    0 <= j2 < j + 1 && (#[trigger] rows@[j2]@).accepting && rows@[j2]@.from_id
                        == s as usize) by {
                if acc@[s] {
                    if pre[s] {
                    } else {
                        assert(rows@[j as int]@.accepting && rows@[j as int]@.from_id
                            == s as usize);
                    }
                }
                if exists|j2: int|
                    0 <= j2 < j + 1 && (#[trigger] rows@[j2]@).accepting && rows@[j2]@.from_id
                        == s as usize {
                    let j2 = choose|j2: int|
                        0 <= j2 < j + 1 && (#[trigger] rows@[j2]@).accepting && rows@[j2]@.from_id
                            == s as usize;
                    if j2 < j {
                        assert(pre[s]);
                        assert(acc@[s]);
                    } else {
                        assert(acc@[s]);
                    }
                }
            }
        }
    }
    acc
}

} // verus!
