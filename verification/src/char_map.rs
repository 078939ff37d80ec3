//! Bidirectional mapping between input symbols and dense integer indices.
//!
//! A `CharMap` assigns each symbol of an ordered alphabet the index of its
//! position, `0` up to `len - 1`. Construction fails when a symbol occurs
//! twice; lookup of a symbol outside the table returns `None`, which is an
//! ordinary runtime condition for the matcher, not an error.

use vstd::prelude::*;

verus! {

/// Error returned when an alphabet lists the same symbol twice.
#[derive(Clone, Copy, Debug, PartialEq, Eq, Structural)]
pub struct DuplicateSymbolError;

/// An ordered alphabet of distinct symbols; the index of a symbol is its
/// position in `symbols`.
#[derive(Clone, Debug)]
pub struct CharMap {
    pub symbols: Vec<char>,
}

/// Pairwise distinctness of a symbol sequence.
pub open spec fn distinct_chars(s: Seq<char>) -> bool {
    forall|i: int, j: int| 0 <= i < j < s.len() ==> s[i] != s[j]
}

impl CharMap {
    /// The alphabet is well formed when no symbol repeats.
    pub open spec fn wf(self) -> bool {
        distinct_chars(self.symbols@)
    }

    /// The mapping as a mathematical map from symbol to its index.
    pub open spec fn as_map(self) -> Map<char, usize> {
        Map::new(
            |c: char| self.symbols@.contains(c),
            |c: char| (choose|i: int| 0 <= i < self.symbols@.len() && self.symbols@[i] == c) as usize,
        )
    }

    /// Builds the mapping from an ordered list of symbols, assigning each its
    /// position as index; a repeated symbol is a configuration error.
    pub fn new(symbols: Vec<char>) -> (r: Result<CharMap, DuplicateSymbolError>)
        ensures
            r is Ok <==> distinct_chars(symbols@),
            r matches Ok(m) ==> m.symbols@ == symbols@ && m.wf(),
    {
        let n = symbols.len();
        for i in 0..n
            invariant
                n == symbols@.len(),
                forall|p: int, q: int| 0 <= p < q < symbols@.len() && p < i ==> symbols@[p] != symbols@[q],
        {
            for j in (i + 1)..n
                invariant
                    n == symbols@.len(),
                    i < n,
                    forall|p: int, q: int| 0 <= p < q < symbols@.len() && p < i ==> symbols@[p] != symbols@[q],
                    forall|q: int| i < q < j ==> symbols@[i as int] != symbols@[q],
            {
                if symbols[i] == symbols[j] {
                    return Err(DuplicateSymbolError);
                }
            }
        }
        Ok(CharMap { symbols })
    }

    /// Reports whether the alphabet is well formed: no symbol repeats.
    pub fn check_wf(&self) -> (r: bool)
        ensures
            r == self.wf(),
    {
        let n = self.symbols.len();
        for i in 0..n
            invariant
                n == self.symbols@.len(),
                forall|p: int, q: int|
                    0 <= p < q < self.symbols@.len() && p < i ==> self.symbols@[p]
                        != self.symbols@[q],
        {
            for j in (i + 1)..n
                invariant
                    n == self.symbols@.len(),
                    i < n,
                    forall|q: int| i < q < j ==> self.symbols@[i as int] != self.symbols@[q],
            {
                if self.symbols[i] == self.symbols[j] {
                    proof {
                        assert(self.symbols@[i as int] == self.symbols@[j as int]);
                    }
                    return false;
                }
            }
        }
        true
    }

    /// Number of symbols in the alphabet.
    pub fn len(&self) -> (r: usize)
        ensures
            r == self.symbols@.len(),
    {
        self.symbols.len()
    }

    /// The dense index assigned to `c`, or `None` for a symbol outside the
    /// table.
    pub fn index_of(&self, c: char) -> (r: Option<usize>)
        requires
            self.wf(),
        ensures
            r is Some <==> self.as_map().contains_key(c),
            r matches Some(i) ==> i < self.symbols@.len() && self.symbols@[i as int] == c
                && self.as_map()[c] == i,
    {
        let n = self.symbols.len();
        for i in 0..n
            invariant
                n == self.symbols@.len(),
                self.wf(),
                forall|p: int| 0 <= p < i ==> self.symbols@[p] != c,
        {
            if self.symbols[i] == c {
                proof {
                    assert(self.symbols@.contains(c));
                    let w = choose|k: int| 0 <= k < self.symbols@.len() && self.symbols@[k] == c;
                    assert(w == i);
                }
                return Some(i);
            }
        }
        proof {
            if self.symbols@.contains(c) {
                let w = choose|k: int| 0 <= k < self.symbols@.len() && self.symbols@[k] == c;
                assert(self.symbols@[w] != c);
            }
        }
        None
    }

    /// The alphabet with its first symbol dropped and every remaining index
    /// shifted down by one: the DFA alphabet of an NFA whose epsilon symbol
    /// stands first.
    pub fn drop_first(&self) -> (r: CharMap)
        requires
            self.wf(),
            self.symbols@.len() >= 1,
        ensures
            r.symbols@ == self.symbols@.drop_first(),
            r.wf(),
    {
        let n = self.symbols.len();
        let mut rest: Vec<char> = Vec::new();
        for i in 1..n
            invariant
                n == self.symbols@.len(),
                rest@ == self.symbols@.subrange(1, i as int),
        {
            rest.push(self.symbols[i]);
        }
        proof {
            assert(rest@ =~= self.symbols@.drop_first());
        }
        CharMap { symbols: rest }
    }
}

} // verus!
