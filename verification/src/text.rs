//! The line formats' low-level tokenizing: splitting on whitespace runs and
//! reading unsigned integers, with their exact specifications.

use vstd::prelude::*;
use vstd::string::StringExecFns;

verus! {

/// The separators of the line formats.
pub open spec fn is_space(c: char) -> bool {
    c == ' ' || c == '\t' || c == '\r' || c == '\n'
}

/// Length of the leading run of non-separator characters.
pub open spec fn first_token_len(s: Seq<char>) -> int
    decreases s.len(),
{
    if s.len() == 0 || is_space(s[0]) {
        0
    } else {
        1 + first_token_len(s.drop_first())
    }
}

proof fn lemma_first_token_len_bounds(s: Seq<char>)
    ensures
        0 <= first_token_len(s) <= s.len(),
    decreases s.len(),
{
    if s.len() > 0 && !is_space(s[0]) {
        lemma_first_token_len_bounds(s.drop_first());
    }
}

/// The maximal runs of non-separator characters, in order: what splitting the
/// line on whitespace yields.
pub open spec fn tokens_of(s: Seq<char>) -> Seq<Seq<char>>
    decreases s.len(),
    via tokens_of_decreases
{
    if s.len() == 0 {
        Seq::empty()
    } else if is_space(s[0]) {
        tokens_of(s.drop_first())
    } else {
        seq![s.take(first_token_len(s))] + tokens_of(s.skip(first_token_len(s)))
    }
}

#[via_fn]
proof fn tokens_of_decreases(s: Seq<char>) {
    if s.len() > 0 && !is_space(s[0]) {
        lemma_first_token_len_bounds(s.drop_first());
        assert(first_token_len(s) >= 1);
        lemma_first_token_len_bounds(s);
    }
}

/// A decimal digit.
pub open spec fn is_digit(c: char) -> bool {
    48 <= c as int <= 57
}

/// The number a string of decimal digits denotes.
pub open spec fn digits_val(s: Seq<char>) -> int
    decreases s.len(),
{
    if s.len() == 0 {
        0
    } else {
        digits_val(s.drop_last()) * 10 + (s.last() as int - 48)
    }
}

/// Every character is a decimal digit.
pub open spec fn all_digits(s: Seq<char>) -> bool {
    forall|i: int| 0 <= i < s.len() ==> is_digit(#[trigger] s[i])
}

/// What parsing a token as an unsigned integer yields: the denoted number,
/// for a non-empty all-digit token whose value fits the machine; `None`
/// otherwise.
pub open spec fn parse_usize_spec(s: Seq<char>) -> Option<usize> {
    if s.len() >= 1 && all_digits(s) && digits_val(s) <= usize::MAX {
        Some(digits_val(s) as usize)
    } else {
        None
    }
}

/// The characters of a string, in order.
pub fn chars_of(s: &str) -> (r: Vec<char>)
    ensures
        r@ == s@,
{
    let n = s.unicode_len();
    let mut r: Vec<char> = Vec::new();
    for i in 0..n
        invariant
            n == s@.len(),
            r@.len() == i,
            forall|k: int| 0 <= k < i ==> r@[k] == s@[k],
    {
        r.push(s.get_char(i));
    }
    proof {
        assert(r@ =~= s@);
    }
    r
}

/// Whether a character separates tokens.
fn is_space_exec(c: char) -> (r: bool)
    ensures
        r == is_space(c),
{
    c == ' ' || c == '\t' || c == '\r' || c == '\n'
}

/// Splits a line into its maximal runs of non-separator characters.
pub fn tokenize(chars: &Vec<char>) -> (r: Vec<Vec<char>>)
    ensures
        r@.map(|i: int, t: Vec<char>| t@) == tokens_of(chars@),
{
    let n = chars.len();
    let mut toks: Vec<Vec<char>> = Vec::new();
    let mut i: usize = 0;
    proof {
        assert(chars@.skip(0) =~= chars@);
        assert(toks@.map(|q: int, t: Vec<char>| t@) =~= Seq::<Seq<char>>::empty());
        assert((Seq::<Seq<char>>::empty() + tokens_of(chars@)) =~= tokens_of(chars@));
    }
    while i < n
        invariant
            n == chars@.len(),
            i <= n,
            toks@.map(|q: int, t: Vec<char>| t@) + tokens_of(chars@.skip(i as int)) == tokens_of(
                chars@,
            ),
        decreases n - i,
    {
        if is_space_exec(chars[i]) {
            proof {
                assert(chars@.skip(i as int).drop_first() =~= chars@.skip(i + 1));
            }
            i = i + 1;
        } else {
            let start = i;
            let mut cur: Vec<char> = Vec::new();
            while i < n && !is_space_exec(chars[i])
                invariant
                    n == chars@.len(),
                    start <= i <= n,
                    cur@ =~= chars@.subrange(start as int, i as int),
                    forall|k: int| start <= k < i ==> !is_space(#[trigger] chars@[k]),
                decreases n - i,
            {
                cur.push(chars[i]);
                i = i + 1;
            }
            proof {
                let rest = chars@.skip(start as int);
                lemma_ftl_of_scan(rest, i - start);
                assert(rest.take(first_token_len(rest)) =~= chars@.subrange(
                    start as int,
                    i as int,
                ));
                assert(rest.skip(first_token_len(rest)) =~= chars@.skip(i as int));
                assert(tokens_of(rest) == seq![cur@] + tokens_of(chars@.skip(i as int)));
            }
            let ghost prior = toks@.map(|q: int, t: Vec<char>| t@);
            toks.push(cur);
            proof {
                assert(toks@.map(|q: int, t: Vec<char>| t@) =~= prior + seq![cur@]);
                assert((prior + seq![cur@]) + tokens_of(chars@.skip(i as int)) =~= prior + (seq![
                    cur@
                ] + tokens_of(chars@.skip(i as int))));
            }
        }
    }
    proof {
        assert(tokens_of(chars@.skip(n as int)) =~= Seq::<Seq<char>>::empty());
        assert(toks@.map(|q: int, t: Vec<char>| t@) + tokens_of(chars@.skip(n as int)) =~= toks@.map(
            |q: int, t: Vec<char>| t@,
        ));
    }
    toks
}

/// A run of `k` non-separator characters, ended by the sequence's end or a
/// separator, is exactly the first token.
proof fn lemma_ftl_of_scan(s: Seq<char>, k: int)
    requires
        0 <= k <= s.len(),
        forall|j: int| 0 <= j < k ==> !is_space(#[trigger] s[j]),
        k == s.len() || is_space(s[k]),
    ensures
        first_token_len(s) == k,
    decreases k,
{
    if k == 0 {
    } else {
        lemma_ftl_of_scan(s.drop_first(), k - 1);
    }
}

/// Parses a token as an unsigned integer: the denoted number for a non-empty
/// all-digit token whose value fits the machine, `None` otherwise.
pub fn parse_usize(tok: &Vec<char>) -> (r: Option<usize>)
    ensures
        r == parse_usize_spec(tok@),
{
    let n = tok.len();
    if n == 0 {
        return None;
    }
    let mut v: usize = 0;
    for i in 0..n
        invariant
            n == tok@.len(),
            all_digits(tok@.take(i as int)),
            v == digits_val(tok@.take(i as int)),
    {
        let dv: usize = match tok[i] {
            '0' => 0,
            '1' => 1,
            '2' => 2,
            '3' => 3,
            '4' => 4,
            '5' => 5,
            '6' => 6,
            '7' => 7,
            '8' => 8,
            '9' => 9,
            _ => {
                proof {
                    assert(!is_digit(tok@[i as int]));
                }
                return None;
            },
        };
        proof {
            assert(dv as int == tok@[i as int] as int - 48);
        }
        if v > (usize::MAX - dv) / 10 {
            proof {
                lemma_digits_val_append(tok@, i as int, v as int, dv as int);
                assert(digits_val(tok@.take(i + 1)) > usize::MAX) by {
                    assert(v * 10 + dv > usize::MAX) by (nonlinear_arith)
                        requires
                            v > (usize::MAX - dv) / 10,
                            0 <= dv <= 9,
                    ;
                }
                if all_digits(tok@) && digits_val(tok@) <= usize::MAX {
                    lemma_digits_val_monotone(tok@, i + 1);
                }
            }
            return None;
        }
        proof {
            assert(v * 10 + dv <= usize::MAX) by (nonlinear_arith)
                requires
                    v <= (usize::MAX - dv) / 10,
                    0 <= dv <= 9,
            ;
            lemma_digits_val_append(tok@, i as int, v as int, dv as int);
        }
        v = v * 10 + dv;
    }
    proof {
        assert(tok@.take(n as int) =~= tok@);
    }
    Some(v)
}

/// Extending a digit string by one digit multiplies its value by ten and adds
/// the digit.
proof fn lemma_digits_val_append(s: Seq<char>, i: int, v: int, dv: int)
    requires
        0 <= i < s.len(),
        v == digits_val(s.take(i)),
        dv == s[i] as int - 48,
    ensures
        digits_val(s.take(i + 1)) == v * 10 + dv,
{
    assert(s.take(i + 1).drop_last() =~= s.take(i));
    assert(s.take(i + 1).last() == s[i]);
}

/// A digit string is worth at least any of its prefixes.
proof fn lemma_digits_val_monotone(s: Seq<char>, i: int)
    requires
        0 <= i <= s.len(),
        all_digits(s),
    ensures
        digits_val(s) >= digits_val(s.take(i)),
        digits_val(s.take(i)) >= 0,
    decreases s.len() - i,
{
    if i == s.len() {
        assert(s.take(i) =~= s);
        lemma_digits_val_nonneg(s, i);
    } else {
        lemma_digits_val_monotone(s, i + 1);
        lemma_digits_val_nonneg(s, i);
        assert(s.take(i + 1).drop_last() =~= s.take(i));
        assert(digits_val(s.take(i + 1)) == digits_val(s.take(i)) * 10 + (s[i] as int - 48));
        assert(digits_val(s.take(i)) * 10 >= digits_val(s.take(i))) by (nonlinear_arith)
            requires
                digits_val(s.take(i)) >= 0,
        ;
    }
}

/// A digit string's value is never negative.
proof fn lemma_digits_val_nonneg(s: Seq<char>, i: int)
    requires
        0 <= i <= s.len(),
        all_digits(s),
    ensures
        digits_val(s.take(i)) >= 0,
    decreases i,
{
    if i > 0 {
        lemma_digits_val_nonneg(s, i - 1);
        assert(s.take(i).drop_last() =~= s.take(i - 1));
        assert(is_digit(s[i - 1]));
        assert(digits_val(s.take(i)) == digits_val(s.take(i - 1)) * 10 + (s[i - 1] as int - 48));
        assert(digits_val(s.take(i - 1)) * 10 >= 0) by (nonlinear_arith)
            requires
                digits_val(s.take(i - 1)) >= 0,
        ;
    } else {
        assert(s.take(0) =~= Seq::<char>::empty());
    }
}

/// The character of one decimal digit.
pub open spec fn digit_char(d: int) -> char {
    (48 + d) as char
}

/// The decimal notation of a number, most significant digit first.
pub open spec fn dec_digits(n: nat) -> Seq<char>
    decreases n,
{
    if n < 10 {
        seq![digit_char(n as int)]
    } else {
        dec_digits(n / 10) + seq![digit_char((n % 10) as int)]
    }
}

/// The characters of a digit list read back to front: how a number collected
/// least significant digit first is printed.
pub open spec fn rev_digit_chars(ds: Seq<usize>) -> Seq<char>
    decreases ds.len(),
{
    if ds.len() == 0 {
        Seq::empty()
    } else {
        seq![digit_char(ds.last() as int)] + rev_digit_chars(ds.drop_last())
    }
}

proof fn lemma_rev_digit_chars_index(ds: Seq<usize>, i: int)
    requires
        0 <= i < ds.len(),
    ensures
        rev_digit_chars(ds).len() == ds.len(),
        rev_digit_chars(ds)[i] == digit_char(ds[ds.len() - 1 - i] as int),
    decreases ds.len(),
{
    lemma_rev_digit_chars_len(ds);
    if i > 0 {
        lemma_rev_digit_chars_index(ds.drop_last(), i - 1);
    }
}

proof fn lemma_rev_digit_chars_len(ds: Seq<usize>)
    ensures
        rev_digit_chars(ds).len() == ds.len(),
    decreases ds.len(),
{
    if ds.len() > 0 {
        lemma_rev_digit_chars_len(ds.drop_last());
    }
}

/// Appends one decimal digit to the line being built.
fn append_digit(out: &mut String, d: usize)
    requires
        d < 10,
    ensures
        final(out)@ == old(out)@ + seq![digit_char(d as int)],
{
    proof {
        reveal_strlit("0");
        reveal_strlit("1");
        reveal_strlit("2");
        reveal_strlit("3");
        reveal_strlit("4");
        reveal_strlit("5");
        reveal_strlit("6");
        reveal_strlit("7");
        reveal_strlit("8");
        reveal_strlit("9");
    }
    match d {
        0 => out.append("0"),
        1 => out.append("1"),
        2 => out.append("2"),
        3 => out.append("3"),
        4 => out.append("4"),
        5 => out.append("5"),
        6 => out.append("6"),
        7 => out.append("7"),
        8 => out.append("8"),
        _ => out.append("9"),
    }
    proof {
        assert(final(out)@ =~= old(out)@ + seq![digit_char(d as int)]);
    }
}

/// Appends the decimal notation of a number to the line being built.
pub fn append_number(out: &mut String, n: usize)
    ensures
        final(out)@ == old(out)@ + dec_digits(n as nat),
{
    let mut ds: Vec<usize> = Vec::new();
    let mut m = n;
    while m >= 10
        invariant
            forall|k: int| 0 <= k < ds@.len() ==> #[trigger] ds@[k] < 10,
            dec_digits(n as nat) == dec_digits(m as nat) + rev_digit_chars(ds@),
        decreases m,
    {
        let d = m % 10;
        let ghost prior = ds@;
        ds.push(d);
        m = m / 10;
        proof {
            assert(ds@.drop_last() =~= prior);
            assert(ds@.last() == d);
            assert(rev_digit_chars(ds@) =~= seq![digit_char(d as int)] + rev_digit_chars(prior));
            assert(dec_digits((m * 10 + d) as nat) == dec_digits(m as nat) + seq![
                digit_char(d as int),
            ]);
            assert(dec_digits(n as nat) =~= dec_digits(m as nat) + rev_digit_chars(ds@));
        }
    }
    let ghost prior = ds@;
    ds.push(m);
    proof {
        assert(ds@.drop_last() =~= prior);
        assert(ds@.last() == m);
        assert(dec_digits(m as nat) =~= seq![digit_char(m as int)]);
        assert(rev_digit_chars(ds@) =~= seq![digit_char(m as int)] + rev_digit_chars(prior));
        assert(dec_digits(n as nat) =~= rev_digit_chars(ds@));
        lemma_rev_digit_chars_len(ds@);
    }
    let k = ds.len();
    let mut i: usize = 0;
    while i < k
        invariant
            k == ds@.len(),
            i <= k,
            forall|q: int| 0 <= q < k ==> #[trigger] ds@[q] < 10,
            rev_digit_chars(ds@).len() == k,
            dec_digits(n as nat) == rev_digit_chars(ds@),
            out@ == old(out)@ + rev_digit_chars(ds@).take(i as int),
        decreases k - i,
    {
        let d = ds[k - 1 - i];
        proof {
            lemma_rev_digit_chars_index(ds@, i as int);
        }
        append_digit(out, d);
        proof {
            assert(out@ =~= old(out)@ + rev_digit_chars(ds@).take(i + 1));
        }
        i = i + 1;
    }
    proof {
        assert(rev_digit_chars(ds@).take(k as int) =~= rev_digit_chars(ds@));
    }
}

} // verus!
