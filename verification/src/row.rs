//! A single DFA state's record: accepting flag, dense identifier, and a
//! transition vector with one optional target per alphabet symbol.

use vstd::prelude::*;

use vstd::string::StringExecFns;

use crate::text::{
    append_number, chars_of, dec_digits, parse_usize, parse_usize_spec, tokenize, tokens_of,
};

verus! {

/// What parsing one line of the table text format yields: an accepting mark
/// (`+` or `-`), the row id, and one entry per alphabet position, each either
/// a destination row id or the literal `E` for "absent"; anything else is a
/// malformed line.
pub open spec fn parse_table_row_spec(s: Seq<char>) -> Option<RowV> {
    let toks = tokens_of(s);
    if toks.len() < 2 {
        None
    } else if !(toks[0] == seq!['+'] || toks[0] == seq!['-']) {
        None
    } else if parse_usize_spec(toks[1]) is None {
        None
    } else if exists|k: int|
        2 <= k < toks.len() && !((#[trigger] toks[k]) == seq!['E'] || parse_usize_spec(toks[k])
            is Some) {
        None
    } else {
        Some(
            RowV {
                accepting: toks[0] == seq!['+'],
                id: parse_usize_spec(toks[1])->Some_0,
                transitions: toks.skip(2).map(
                    |i: int, t: Seq<char>|
                        if t == seq!['E'] {
                            None
                        } else {
                            Some(parse_usize_spec(t)->Some_0)
                        },
                ),
            },
        )
    }
}

/// The characters of one transition entry of the table text format: the
/// target id in decimal, or `E` for "absent".
pub open spec fn entry_chars(t: Option<usize>) -> Seq<char> {
    match t {
        None => seq!['E'],
        Some(v) => dec_digits(v as nat),
    }
}

/// The characters of a row's transition entries, each preceded by a space.
pub open spec fn entries_chars(ts: Seq<Option<usize>>) -> Seq<char>
    decreases ts.len(),
{
    if ts.len() == 0 {
        Seq::empty()
    } else {
        entries_chars(ts.drop_last()) + seq![' '] + entry_chars(ts.last())
    }
}

/// One line of the table text format: the accepting mark, the id in decimal,
/// and the transition entries, space-separated.
pub open spec fn row_line(r: RowV) -> Seq<char> {
    seq![
        if r.accepting {
            '+'
        } else {
            '-'
        },
        ' ',
    ] + dec_digits(r.id as nat) + entries_chars(r.transitions)
}

/// Mathematical image of a row: what the table-level specifications speak of.
#[verifier::ext_equal]
pub ghost struct RowV {
    pub accepting: bool,
    pub id: usize,
    pub transitions: Seq<Option<usize>>,
}

/// One DFA state: its accepting flag, its id, and, for each symbol index of
/// the alphabet, either the id of the target row or `None` for "no
/// transition".
#[derive(Clone, Debug)]
pub struct Row {
    pub accepting_state: bool,
    pub id: usize,
    pub transitions: Vec<Option<usize>>,
}

impl View for Row {
    type V = RowV;

    open spec fn view(&self) -> RowV {
        RowV {
            accepting: self.accepting_state,
            id: self.id,
            transitions: self.transitions@,
        }
    }
}

impl Row {
    /// Parses one line of the table text format,
    /// `"<+|-> <id> <t0> <t1> ..."`, where each entry is a destination row id
    /// or `E` for "absent": a malformed line is a fatal parse failure.
    pub fn from_str_custom(input: &str) -> (r: Result<Row, ()>)
        ensures
            match r {
                Ok(row) => parse_table_row_spec(input@) == Some(row@),
                Err(_) => parse_table_row_spec(input@) is None,
            },
    {
        let chars = chars_of(input);
        let toks = tokenize(&chars);
        let ghost tv = tokens_of(input@);
        proof {
            assert(toks@.map(|i: int, t: Vec<char>| t@) == tv);
        }
        if toks.len() < 2 {
            return Err(());
        }
        let mark = &toks[0];
        let is_plus = mark.len() == 1 && mark[0] == '+';
        let is_minus = mark.len() == 1 && mark[0] == '-';
        proof {
            assert(toks@[0]@ == tv[0]);
            assert(is_plus == (tv[0] == seq!['+'])) by {
                if tv[0].len() == 1 && tv[0][0] == '+' {
                    assert(tv[0] =~= seq!['+']);
                }
            }
            assert(is_minus == (tv[0] == seq!['-'])) by {
                if tv[0].len() == 1 && tv[0][0] == '-' {
                    assert(tv[0] =~= seq!['-']);
                }
            }
        }
        if !is_plus && !is_minus {
            return Err(());
        }
        proof {
            assert(toks@[1]@ == tv[1]);
        }
        let id = match parse_usize(&toks[1]) {
            Some(v) => v,
            None => {
                return Err(());
            },
        };
        let mut transitions: Vec<Option<usize>> = Vec::new();
        let tl = toks.len();
        let mut k: usize = 2;
        while k < tl
            invariant
                tl == toks@.len(),
                2 <= k <= tl,
                toks@.map(|i: int, t: Vec<char>| t@) == tv,
                tv == tokens_of(input@),
                tv.len() >= 2,
                tv[0] == seq!['+'] || tv[0] == seq!['-'],
                parse_usize_spec(tv[1]) is Some,
                forall|q: int|
                    2 <= q < k ==> ((#[trigger] tv[q]) == seq!['E'] || parse_usize_spec(tv[q])
                        is Some),
                transitions@.len() == k - 2,
                forall|q: int|
                    0 <= q < k - 2 ==> #[trigger] transitions@[q] == (if tv[q + 2] == seq!['E'] {
                        None
                    } else {
                        Some(parse_usize_spec(tv[q + 2])->Some_0)
                    }),
            decreases tl - k,
        {
            proof {
                assert(toks@[k as int]@ == tv[k as int]);
            }
            let tok = &toks[k];
            let is_absent = tok.len() == 1 && tok[0] == 'E';
            proof {
                assert(is_absent == (tv[k as int] == seq!['E'])) by {
                    if tv[k as int].len() == 1 && tv[k as int][0] == 'E' {
                        assert(tv[k as int] =~= seq!['E']);
                    }
                }
            }
            if is_absent {
                transitions.push(None);
            } else {
                match parse_usize(tok) {
                    Some(v) => {
                        transitions.push(Some(v));
                    },
                    None => {
                        return Err(());
                    },
                }
            }
            k = k + 1;
        }
        proof {
            assert(transitions@ =~= tv.skip(2).map(
                |i: int, t: Seq<char>|
                    if t == seq!['E'] {
                        None
                    } else {
                        Some(parse_usize_spec(t)->Some_0)
                    },
            ));
            if exists|q: int|
                2 <= q < tv.len() && !((#[trigger] tv[q]) == seq!['E'] || parse_usize_spec(tv[q])
                    is Some) {
                let q = choose|q: int|
                    2 <= q < tv.len() && !((#[trigger] tv[q]) == seq!['E'] || parse_usize_spec(
                        tv[q],
                    ) is Some);
                assert(false);
            }
        }
        Ok(Row::new(is_plus, id, transitions))
    }

    /// Renders the row in the table text format,
    /// `"<+|-> <id> <t0> <t1> ..."`, with `E` for an absent transition.
    pub fn to_line(&self) -> (r: String)
        ensures
            r@ == row_line(self@),
    {
        proof {
            reveal_strlit("+");
            reveal_strlit("-");
            reveal_strlit(" ");
            reveal_strlit("E");
        }
        let mut out = if self.accepting_state {
            String::from_str("+")
        } else {
            String::from_str("-")
        };
        out.append(" ");
        proof {
            assert(out@ =~= seq![
                if self@.accepting {
                    '+'
                } else {
                    '-'
                },
                ' ',
            ]);
        }
        append_number(&mut out, self.id);
        let ghost head = out@;
        proof {
            assert(entries_chars(self@.transitions.take(0)) =~= Seq::<char>::empty());
            assert(out@ =~= head + entries_chars(self@.transitions.take(0)));
        }
        let w = self.transitions.len();
        for c in 0..w
            invariant
                w == self@.transitions.len(),
                head == seq![
                    if self@.accepting {
                        '+'
                    } else {
                        '-'
                    },
                    ' ',
                ] + dec_digits(self@.id as nat),
                out@ == head + entries_chars(self@.transitions.take(c as int)),
        {
            proof {
                reveal_strlit(" ");
                reveal_strlit("E");
            }
            out.append(" ");
            match self.transitions[c] {
                None => {
                    out.append("E");
                },
                Some(v) => {
                    append_number(&mut out, v);
                },
            }
            proof {
                assert(self@.transitions.take(c + 1).drop_last() =~= self@.transitions.take(
                    c as int,
                ));
                assert(self@.transitions.take(c + 1).last() == self@.transitions[c as int]);
                assert(out@ =~= head + entries_chars(self@.transitions.take(c + 1)));
            }
        }
        proof {
            assert(self@.transitions.take(w as int) =~= self@.transitions);
            assert(out@ =~= row_line(self@));
        }
        out
    }

    /// A row assembled from its parts.
    pub fn new(accepting_state: bool, id: usize, transitions: Vec<Option<usize>>) -> (r: Row)
        ensures
            r@ == (RowV { accepting: accepting_state, id: id, transitions: transitions@ }),
    {
        Row { accepting_state, id, transitions }
    }

    /// A row with `num_transitions` transition slots, all absent.
    pub fn blank_row(accepting_state: bool, id: usize, num_transitions: usize) -> (r: Row)
        ensures
            r@.accepting == accepting_state,
            r@.id == id,
            r@.transitions.len() == num_transitions,
            forall|c: int| 0 <= c < num_transitions ==> r@.transitions[c] is None,
    {
        let mut transitions: Vec<Option<usize>> = Vec::new();
        for k in 0..num_transitions
            invariant
                transitions@.len() == k,
                forall|c: int| 0 <= c < k ==> transitions@[c] is None,
        {
            transitions.push(None);
        }
        Row { accepting_state, id, transitions }
    }

    /// Whether this state accepts.
    pub fn is_accepting(&self) -> (r: bool)
        ensures
            r == self@.accepting,
    {
        self.accepting_state
    }

    /// Sets the accepting flag, leaving id and transitions as they were.
    pub fn set_accepting(&mut self, accepting: bool)
        ensures
            final(self)@ == (RowV { accepting: accepting, ..old(self)@ }),
    {
        self.accepting_state = accepting;
    }

    /// The transition vector, one optional target per symbol index.
    pub fn transitions(&self) -> (r: &Vec<Option<usize>>)
        ensures
            r@ == self@.transitions,
    {
        &self.transitions
    }

    /// Mutable access to the transition vector.
    pub fn transitions_mut(&mut self) -> (r: &mut Vec<Option<usize>>)
        ensures
            r@ == old(self)@.transitions,
            final(self)@ == (RowV { transitions: final(r)@, ..old(self)@ }),
    {
        &mut self.transitions
    }
}

} // verus!
