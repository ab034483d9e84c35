//! Parsing of textual CNF formulas, for example
//! `(x1 OR x2) AND (-x2 OR x3) AND (x1 OR -x3)`.
//!
//! The text is split on the connective tokens `and` and `or`, matched
//! case-insensitively; each piece is trimmed, a clause may be wrapped in
//! parentheses, and a variable is an optional negation marker `-`
//! followed by `x` and a decimal number. Malformed input yields no
//! formula.
use vstd::prelude::*;
use vstd::string::StrSliceExecFns;

use crate::types::{Clause, Formula, Variable};

verus! {

/// The characters `str::trim` removes: the Unicode white-space
/// characters.
pub open spec fn is_space(c: char) -> bool {
    c == ' ' || c == '\t' || c == '\n' || c == '\r' || c == '\u{b}' || c == '\u{c}' || c
        == '\u{85}' || c == '\u{a0}' || c == '\u{1680}' || c == '\u{2000}' || c == '\u{2001}' || c
        == '\u{2002}' || c == '\u{2003}' || c == '\u{2004}' || c == '\u{2005}' || c == '\u{2006}'
        || c == '\u{2007}' || c == '\u{2008}' || c == '\u{2009}' || c == '\u{200a}' || c
        == '\u{2028}' || c == '\u{2029}' || c == '\u{202f}' || c == '\u{205f}' || c == '\u{3000}'
}

/// Whether the conjunction token `and` stands at position `i`, in any
/// letter case.
pub open spec fn is_and_at(s: Seq<char>, i: int) -> bool {
    &&& i + 3 <= s.len()
    &&& (s[i] == 'a' || s[i] == 'A')
    &&& (s[i + 1] == 'n' || s[i + 1] == 'N')
    &&& (s[i + 2] == 'd' || s[i + 2] == 'D')
}

/// Whether the disjunction token `or` stands at position `i`, in any
/// letter case.
pub open spec fn is_or_at(s: Seq<char>, i: int) -> bool {
    &&& i + 2 <= s.len()
    &&& (s[i] == 'o' || s[i] == 'O')
    &&& (s[i + 1] == 'r' || s[i + 1] == 'R')
}

/// The first position at or after `i` where the token `and` stands.
pub open spec fn find_and(s: Seq<char>, i: int) -> Option<int>
    decreases s.len() - i,
{
    if i + 3 > s.len() {
        None
    } else if is_and_at(s, i) {
        Some(i)
    } else {
        find_and(s, i + 1)
    }
}

/// The first position at or after `i` where the token `or` stands.
pub open spec fn find_or(s: Seq<char>, i: int) -> Option<int>
    decreases s.len() - i,
{
    if i + 2 > s.len() {
        None
    } else if is_or_at(s, i) {
        Some(i)
    } else {
        find_or(s, i + 1)
    }
}

proof fn lemma_find_and_bounds(s: Seq<char>, i: int)
    ensures
        match find_and(s, i) {
            Some(j) => i <= j && j + 3 <= s.len() && is_and_at(s, j) && (forall|k: int|
                i <= k < j ==> !is_and_at(s, k)),
            None => forall|k: int| i <= k ==> !is_and_at(s, k),
        },
    decreases s.len() - i,
{
    if i + 3 > s.len() {
    } else if is_and_at(s, i) {
    } else {
        lemma_find_and_bounds(s, i + 1);
    }
}

proof fn lemma_find_or_bounds(s: Seq<char>, i: int)
    ensures
        match find_or(s, i) {
            Some(j) => i <= j && j + 2 <= s.len() && is_or_at(s, j) && (forall|k: int|
                i <= k < j ==> !is_or_at(s, k)),
            None => forall|k: int| i <= k ==> !is_or_at(s, k),
        },
    decreases s.len() - i,
{
    if i + 2 > s.len() {
    } else if is_or_at(s, i) {
    } else {
        lemma_find_or_bounds(s, i + 1);
    }
}

/// The pieces of the text split on the token `and`, in order; the token
/// itself is dropped, as `str::split` does.
pub open spec fn split_and(s: Seq<char>) -> Seq<Seq<char>>
    decreases s.len(),
    via split_and_decreases
{
    match find_and(s, 0) {
        None => seq![s],
        Some(i) => seq![s.subrange(0, i)] + split_and(s.subrange(i + 3, s.len() as int)),
    }
}

#[via_fn]
proof fn split_and_decreases(s: Seq<char>) {
    lemma_find_and_bounds(s, 0);
}

/// The pieces of the text split on the token `or`, in order.
pub open spec fn split_or(s: Seq<char>) -> Seq<Seq<char>>
    decreases s.len(),
    via split_or_decreases
{
    match find_or(s, 0) {
        None => seq![s],
        Some(i) => seq![s.subrange(0, i)] + split_or(s.subrange(i + 2, s.len() as int)),
    }
}

#[via_fn]
proof fn split_or_decreases(s: Seq<char>) {
    lemma_find_or_bounds(s, 0);
}

/// The text with every leading character satisfying `p` removed.
pub open spec fn strip_front(s: Seq<char>, p: spec_fn(char) -> bool) -> Seq<char>
    decreases s.len(),
{
    if s.len() > 0 && p(s[0]) {
        strip_front(s.drop_first(), p)
    } else {
        s
    }
}

/// The text with every trailing character satisfying `p` removed.
pub open spec fn strip_back(s: Seq<char>, p: spec_fn(char) -> bool) -> Seq<char>
    decreases s.len(),
{
    if s.len() > 0 && p(s.last()) {
        strip_back(s.drop_last(), p)
    } else {
        s
    }
}

/// The white-space test, as a function value.
pub open spec fn space_pred() -> spec_fn(char) -> bool {
    |c: char| is_space(c)
}

/// The test for an opening parenthesis, as a function value.
pub open spec fn open_paren_pred() -> spec_fn(char) -> bool {
    |c: char| c == '('
}

/// The test for a closing parenthesis, as a function value.
pub open spec fn close_paren_pred() -> spec_fn(char) -> bool {
    |c: char| c == ')'
}

/// The test for a negation marker, as a function value.
pub open spec fn minus_pred() -> spec_fn(char) -> bool {
    |c: char| c == '-'
}

/// The text with leading and trailing white space removed, as
/// `str::trim` leaves it.
pub open spec fn spec_trim(s: Seq<char>) -> Seq<char> {
    strip_back(strip_front(s, space_pred()), space_pred())
}

proof fn lemma_strip_front_eq(s: Seq<char>, p: spec_fn(char) -> bool, a: int)
    requires
        0 <= a <= s.len(),
        forall|k: int| 0 <= k < a ==> p(s[k]),
        a == s.len() || !p(s[a]),
    ensures
        strip_front(s, p) == s.subrange(a, s.len() as int),
    decreases a,
{
    if a == 0 {
        if s.len() > 0 && p(s[0]) {
            assert(false);
        }
        assert(s.subrange(0, s.len() as int) =~= s);
    } else {
        let d = s.drop_first();
        assert(p(s[0]));
        lemma_strip_front_eq(d, p, a - 1);
        assert(d.subrange(a - 1, d.len() as int) =~= s.subrange(a, s.len() as int));
    }
}

proof fn lemma_strip_back_eq(s: Seq<char>, p: spec_fn(char) -> bool, b: int)
    requires
        0 <= b <= s.len(),
        forall|k: int| b <= k < s.len() ==> p(s[k]),
        b == 0 || !p(s[b - 1]),
    ensures
        strip_back(s, p) == s.subrange(0, b),
    decreases s.len() - b,
{
    if b == s.len() {
        if s.len() > 0 && p(s.last()) {
            assert(false);
        }
        assert(s.subrange(0, s.len() as int) =~= s);
    } else {
        let d = s.drop_last();
        assert(p(s.last()));
        lemma_strip_back_eq(d, p, b);
        assert(d.subrange(0, b) =~= s.subrange(0, b));
    }
}

/// Whether the character is a decimal digit.
pub open spec fn is_digit(c: char) -> bool {
    c == '0' || c == '1' || c == '2' || c == '3' || c == '4' || c == '5' || c == '6' || c == '7'
        || c == '8' || c == '9'
}

/// The value of a decimal digit character.
pub open spec fn digit_val(c: char) -> nat {
    if c == '1' {
        1
    } else if c == '2' {
        2
    } else if c == '3' {
        3
    } else if c == '4' {
        4
    } else if c == '5' {
        5
    } else if c == '6' {
        6
    } else if c == '7' {
        7
    } else if c == '8' {
        8
    } else if c == '9' {
        9
    } else {
        0
    }
}

/// Whether every character of the text is a decimal digit.
pub open spec fn all_digits(s: Seq<char>) -> bool {
    forall|i: int| 0 <= i < s.len() ==> is_digit(#[trigger] s[i])
}

/// The number a digit string denotes in decimal.
pub open spec fn digits_val(s: Seq<char>) -> nat
    decreases s.len(),
{
    if s.len() == 0 {
        0
    } else {
        digits_val(s.drop_last()) * 10 + digit_val(s.last())
    }
}

proof fn lemma_digits_val_prefix_le(s: Seq<char>, i: int)
    requires
        0 <= i <= s.len(),
    ensures
        digits_val(s.subrange(0, i)) <= digits_val(s),
    decreases s.len() - i,
{
    if i == s.len() {
        assert(s.subrange(0, i) =~= s);
    } else {
        lemma_digits_val_prefix_le(s, i + 1);
        let t = s.subrange(0, i + 1);
        assert(t.drop_last() =~= s.subrange(0, i));
        assert(digits_val(t) == digits_val(s.subrange(0, i)) * 10 + digit_val(t.last()));
    }
}

/// The number the text denotes as `u32::from_str` reads it: an optional
/// leading plus sign, then at least one decimal digit, denoting a value
/// that fits in 32 bits; anything else is rejected.
pub open spec fn spec_parse_u32(s: Seq<char>) -> Option<u32> {
    let d = if s.len() > 0 && s[0] == '+' {
        s.drop_first()
    } else {
        s
    };
    if d.len() > 0 && all_digits(d) && digits_val(d) <= u32::MAX {
        Some(digits_val(d) as u32)
    } else {
        None
    }
}

/// The literal identifier the text denotes: after trimming, the letter
/// `x` in either case followed by a number. Anything else is rejected.
pub open spec fn spec_parse_literal(s: Seq<char>) -> Option<u32> {
    let t = spec_trim(s);
    if t.len() == 0 {
        None
    } else if t[0] == 'x' || t[0] == 'X' {
        spec_parse_u32(t.drop_first())
    } else {
        None
    }
}

/// The variable the text denotes: after trimming, a literal, negative
/// when marked with one or more leading `-`.
pub open spec fn spec_parse_variable(s: Seq<char>) -> Option<Variable> {
    let t = spec_trim(s);
    if t.len() > 0 && t[0] == '-' {
        match spec_parse_literal(strip_front(t, minus_pred())) {
            Some(id) => Some(Variable::Negative(id)),
            None => None,
        }
    } else {
        match spec_parse_literal(t) {
            Some(id) => Some(Variable::Positive(id)),
            None => None,
        }
    }
}

/// The variables the pieces of a clause denote, in order; if any piece
/// is rejected the clause is rejected.
pub open spec fn spec_parse_vars(parts: Seq<Seq<char>>) -> Option<Seq<Variable>>
    decreases parts.len(),
{
    if parts.len() == 0 {
        Some(Seq::empty())
    } else {
        match spec_parse_variable(parts[0]) {
            Some(v) => match spec_parse_vars(parts.drop_first()) {
                Some(rest) => Some(seq![v] + rest),
                None => None,
            },
            None => None,
        }
    }
}

/// The clause the text denotes: after trimming and removing wrapping
/// parentheses, its variables split on the token `or`.
pub open spec fn spec_parse_clause(s: Seq<char>) -> Option<Seq<Variable>> {
    let core = strip_back(strip_front(spec_trim(s), open_paren_pred()), close_paren_pred());
    spec_parse_vars(split_or(core))
}

/// The clauses the pieces of a formula denote, in order; if any piece is
/// rejected the formula is rejected.
pub open spec fn spec_parse_clauses(parts: Seq<Seq<char>>) -> Option<Seq<Seq<Variable>>>
    decreases parts.len(),
{
    if parts.len() == 0 {
        Some(Seq::empty())
    } else {
        match spec_parse_clause(parts[0]) {
            Some(c) => match spec_parse_clauses(parts.drop_first()) {
                Some(rest) => Some(seq![c] + rest),
                None => None,
            },
            None => None,
        }
    }
}

/// The formula the text denotes: its clauses split on the token `and`.
pub open spec fn spec_parse(s: Seq<char>) -> Option<Seq<Seq<Variable>>> {
    spec_parse_clauses(split_and(s))
}

/// Whether the character is one that `str::trim` removes.
fn is_space_char(c: char) -> (r: bool)
    ensures
        r == is_space(c),
{
    c == ' ' || c == '\t' || c == '\n' || c == '\r' || c == '\u{b}' || c == '\u{c}' || c
        == '\u{85}' || c == '\u{a0}' || c == '\u{1680}' || c == '\u{2000}' || c == '\u{2001}' || c
        == '\u{2002}' || c == '\u{2003}' || c == '\u{2004}' || c == '\u{2005}' || c == '\u{2006}'
        || c == '\u{2007}' || c == '\u{2008}' || c == '\u{2009}' || c == '\u{200a}' || c
        == '\u{2028}' || c == '\u{2029}' || c == '\u{202f}' || c == '\u{205f}' || c == '\u{3000}'
}

/// The characters of the text, in order.
fn str_to_chars(s: &str) -> (r: Vec<char>)
    ensures
        r@ == s@,
{
    let n = s.unicode_len();
    let mut r: Vec<char> = Vec::new();
    let mut i: usize = 0;
    while i < n
        invariant
            i <= n,
            n == s@.len(),
            r@ == s@.subrange(0, i as int),
        decreases n - i,
    {
        r.push(s.get_char(i));
        proof {
            assert(s@.subrange(0, i + 1) =~= s@.subrange(0, i as int).push(s@[i as int]));
        }
        i = i + 1;
    }
    proof {
        assert(r@ =~= s@);
    }
    r
}

/// The position of the first `and` token in the text, if there is one.
fn find_and_in(v: &[char]) -> (r: Option<usize>)
    ensures
        match r {
            Some(j) => find_and(v@, 0) == Some(j as int),
            None => find_and(v@, 0) is None,
        },
{
    let n = v.len();
    let mut i: usize = 0;
    while n >= 3 && i <= n - 3
        invariant
            n == v@.len(),
            i <= n,
            find_and(v@, 0) == find_and(v@, i as int),
        decreases n - i,
    {
        let c0 = *vstd::slice::slice_index_get(v, i);
        let c1 = *vstd::slice::slice_index_get(v, i + 1);
        let c2 = *vstd::slice::slice_index_get(v, i + 2);
        if (c0 == 'a' || c0 == 'A') && (c1 == 'n' || c1 == 'N') && (c2 == 'd' || c2 == 'D') {
            proof {
                assert(is_and_at(v@, i as int));
            }
            return Some(i);
        }
        proof {
            assert(!is_and_at(v@, i as int));
            assert(find_and(v@, i as int) == find_and(v@, i + 1));
        }
        i = i + 1;
    }
    proof {
        assert(i + 3 > n);
        assert(find_and(v@, i as int) is None);
    }
    None
}

/// The position of the first `or` token in the text, if there is one.
fn find_or_in(v: &[char]) -> (r: Option<usize>)
    ensures
        match r {
            Some(j) => find_or(v@, 0) == Some(j as int),
            None => find_or(v@, 0) is None,
        },
{
    let n = v.len();
    let mut i: usize = 0;
    while n >= 2 && i <= n - 2
        invariant
            n == v@.len(),
            i <= n,
            find_or(v@, 0) == find_or(v@, i as int),
        decreases n - i,
    {
        let c0 = *vstd::slice::slice_index_get(v, i);
        let c1 = *vstd::slice::slice_index_get(v, i + 1);
        if (c0 == 'o' || c0 == 'O') && (c1 == 'r' || c1 == 'R') {
            proof {
                assert(is_or_at(v@, i as int));
            }
            return Some(i);
        }
        proof {
            assert(!is_or_at(v@, i as int));
            assert(find_or(v@, i as int) == find_or(v@, i + 1));
        }
        i = i + 1;
    }
    proof {
        assert(i + 2 > n);
        assert(find_or(v@, i as int) is None);
    }
    None
}

/// The pieces of the text split on `and` tokens.
fn split_and_exec(v: &[char]) -> (r: Vec<Vec<char>>)
    ensures
        r@.len() == split_and(v@).len(),
        forall|i: int| 0 <= i < r@.len() ==> (#[trigger] r@[i])@ == split_and(v@)[i],
{
    let mut r: Vec<Vec<char>> = Vec::new();
    let mut rest: Vec<char> = vstd::slice::slice_to_vec(v);
    loop
        invariant_except_break
            split_and(v@).len() == r@.len() + split_and(rest@).len(),
            forall|j: int|
                0 <= j < split_and(rest@).len() ==> #[trigger] split_and(rest@)[j] == split_and(
                    v@,
                )[r@.len() + j],
        invariant
            forall|i: int| 0 <= i < r@.len() ==> (#[trigger] r@[i])@ == split_and(v@)[i],
        ensures
            r@.len() == split_and(v@).len(),
            forall|i: int| 0 <= i < r@.len() ==> (#[trigger] r@[i])@ == split_and(v@)[i],
        decreases rest@.len(),
    {
        let found = find_and_in(rest.as_slice());
        match found {
            Some(i) => {
                proof {
                    lemma_find_and_bounds(rest@, 0);
                }
                let n = rest.len();
                let piece = vstd::slice::slice_to_vec(
                    vstd::slice::slice_subrange(rest.as_slice(), 0, i),
                );
                let newrest = vstd::slice::slice_to_vec(
                    vstd::slice::slice_subrange(rest.as_slice(), i + 3, n),
                );
                let ghost oldrest = rest@;
                r.push(piece);
                rest = newrest;
                proof {
                    assert(split_and(oldrest) == seq![oldrest.subrange(0, i as int)] + split_and(
                        oldrest.subrange(i + 3, oldrest.len() as int),
                    ));
                    assert(r@[r@.len() - 1]@ == split_and(oldrest)[0]);
                    assert forall|j: int| 0 <= j < split_and(rest@).len() implies #[trigger] split_and(
                        rest@,
                    )[j] == split_and(v@)[r@.len() + j] by {
                        assert(split_and(oldrest)[j + 1] == split_and(rest@)[j]);
                    }
                }
            },
            None => {
                let ghost rv = rest@;
                let ghost oldlen = r@.len() as int;
                proof {
                    assert(split_and(rv) == seq![rv]);
                    assert(split_and(rv)[0] == rv);
                    assert(split_and(v@)[oldlen] == rv);
                    assert(split_and(v@).len() == oldlen + 1);
                }
                r.push(rest);
                proof {
                    assert(r@[oldlen]@ == rv);
                }
                break ;
            },
        }
    }
    r
}

/// The pieces of the text split on `or` tokens.
fn split_or_exec(v: &[char]) -> (r: Vec<Vec<char>>)
    ensures
        r@.len() == split_or(v@).len(),
        forall|i: int| 0 <= i < r@.len() ==> (#[trigger] r@[i])@ == split_or(v@)[i],
{
    let mut r: Vec<Vec<char>> = Vec::new();
    let mut rest: Vec<char> = vstd::slice::slice_to_vec(v);
    loop
        invariant_except_break
            split_or(v@).len() == r@.len() + split_or(rest@).len(),
            forall|j: int|
                0 <= j < split_or(rest@).len() ==> #[trigger] split_or(rest@)[j] == split_or(
                    v@,
                )[r@.len() + j],
        invariant
            forall|i: int| 0 <= i < r@.len() ==> (#[trigger] r@[i])@ == split_or(v@)[i],
        ensures
            r@.len() == split_or(v@).len(),
            forall|i: int| 0 <= i < r@.len() ==> (#[trigger] r@[i])@ == split_or(v@)[i],
        decreases rest@.len(),
    {
        let found = find_or_in(rest.as_slice());
        match found {
            Some(i) => {
                proof {
                    lemma_find_or_bounds(rest@, 0);
                }
                let n = rest.len();
                let piece = vstd::slice::slice_to_vec(
                    vstd::slice::slice_subrange(rest.as_slice(), 0, i),
                );
                let newrest = vstd::slice::slice_to_vec(
                    vstd::slice::slice_subrange(rest.as_slice(), i + 2, n),
                );
                let ghost oldrest = rest@;
                r.push(piece);
                rest = newrest;
                proof {
                    assert(split_or(oldrest) == seq![oldrest.subrange(0, i as int)] + split_or(
                        oldrest.subrange(i + 2, oldrest.len() as int),
                    ));
                    assert(r@[r@.len() - 1]@ == split_or(oldrest)[0]);
                    assert forall|j: int| 0 <= j < split_or(rest@).len() implies #[trigger] split_or(
                        rest@,
                    )[j] == split_or(v@)[r@.len() + j] by {
                        assert(split_or(oldrest)[j + 1] == split_or(rest@)[j]);
                    }
                }
            },
            None => {
                let ghost rv = rest@;
                let ghost oldlen = r@.len() as int;
                proof {
                    assert(split_or(rv) == seq![rv]);
                    assert(split_or(rv)[0] == rv);
                    assert(split_or(v@)[oldlen] == rv);
                    assert(split_or(v@).len() == oldlen + 1);
                }
                r.push(rest);
                proof {
                    assert(r@[oldlen]@ == rv);
                }
                break ;
            },
        }
    }
    r
}


/// The text with leading and trailing white space removed.
fn trim_slice<'a>(v: &'a [char]) -> (r: &'a [char])
    ensures
        r@ == spec_trim(v@),
{
    let n = v.len();
    let mut a: usize = 0;
    while a < n && is_space_char(*vstd::slice::slice_index_get(v, a))
        invariant
            n == v@.len(),
            a <= n,
            forall|k: int| 0 <= k < a ==> is_space(#[trigger] v@[k]),
        decreases n - a,
    {
        a = a + 1;
    }
    let mut b: usize = n;
    while b > a && is_space_char(*vstd::slice::slice_index_get(v, b - 1))
        invariant
            n == v@.len(),
            a <= b <= n,
            forall|k: int| b <= k < n ==> is_space(#[trigger] v@[k]),
        decreases b,
    {
        b = b - 1;
    }
    proof {
        let sp = space_pred();
        assert forall|k: int| 0 <= k < a implies sp(v@[k]) by {
            assert(is_space(v@[k]));
        }
        assert(a == v@.len() || !sp(v@[a as int]));
        lemma_strip_front_eq(v@, sp, a as int);
        let f = strip_front(v@, sp);
        assert(f == v@.subrange(a as int, n as int));
        assert forall|k: int| b - a <= k < f.len() implies sp(f[k]) by {
            assert(f[k] == v@[a + k]);
            assert(is_space(v@[a + k]));
        }
        assert(b - a == 0 || !sp(f[b - a - 1]));
        lemma_strip_back_eq(f, sp, b - a);
        assert(f.subrange(0, b - a) =~= v@.subrange(a as int, b as int));
    }
    vstd::slice::slice_subrange(v, a, b)
}

/// The text with every leading opening parenthesis removed.
fn strip_open<'a>(v: &'a [char]) -> (r: &'a [char])
    ensures
        r@ == strip_front(v@, open_paren_pred()),
{
    let n = v.len();
    let mut a: usize = 0;
    while a < n && *vstd::slice::slice_index_get(v, a) == '('
        invariant
            n == v@.len(),
            a <= n,
            forall|k: int| 0 <= k < a ==> #[trigger] v@[k] == '(',
        decreases n - a,
    {
        a = a + 1;
    }
    proof {
        let p = open_paren_pred();
        assert forall|k: int| 0 <= k < a implies p(v@[k]) by {
            assert(v@[k] == '(');
        }
        assert(a == v@.len() || !p(v@[a as int]));
        lemma_strip_front_eq(v@, p, a as int);
    }
    vstd::slice::slice_subrange(v, a, n)
}

/// The text with every trailing closing parenthesis removed.
fn strip_close<'a>(v: &'a [char]) -> (r: &'a [char])
    ensures
        r@ == strip_back(v@, close_paren_pred()),
{
    let n = v.len();
    let mut b: usize = n;
    while b > 0 && *vstd::slice::slice_index_get(v, b - 1) == ')'
        invariant
            n == v@.len(),
            b <= n,
            forall|k: int| b <= k < n ==> #[trigger] v@[k] == ')',
        decreases b,
    {
        b = b - 1;
    }
    proof {
        let p = close_paren_pred();
        assert forall|k: int| b <= k < v@.len() implies p(v@[k]) by {
            assert(v@[k] == ')');
        }
        assert(b == 0 || !p(v@[b - 1]));
        lemma_strip_back_eq(v@, p, b as int);
    }
    vstd::slice::slice_subrange(v, 0, b)
}

/// The text with every leading negation marker removed.
fn strip_minus<'a>(v: &'a [char]) -> (r: &'a [char])
    ensures
        r@ == strip_front(v@, minus_pred()),
{
    let n = v.len();
    let mut a: usize = 0;
    while a < n && *vstd::slice::slice_index_get(v, a) == '-'
        invariant
            n == v@.len(),
            a <= n,
            forall|k: int| 0 <= k < a ==> #[trigger] v@[k] == '-',
        decreases n - a,
    {
        a = a + 1;
    }
    proof {
        let p = minus_pred();
        assert forall|k: int| 0 <= k < a implies p(v@[k]) by {
            assert(v@[k] == '-');
        }
        assert(a == v@.len() || !p(v@[a as int]));
        lemma_strip_front_eq(v@, p, a as int);
    }
    vstd::slice::slice_subrange(v, a, n)
}

/// The value of a decimal digit character, or nothing for any other
/// character.
fn digit_of(c: char) -> (r: Option<u32>)
    ensures
        r is Some <==> is_digit(c),
        r is Some ==> r.unwrap() == digit_val(c),
{
    match c {
        '0' => Some(0),
        '1' => Some(1),
        '2' => Some(2),
        '3' => Some(3),
        '4' => Some(4),
        '5' => Some(5),
        '6' => Some(6),
        '7' => Some(7),
        '8' => Some(8),
        '9' => Some(9),
        _ => None,
    }
}

/// The number the text denotes, as `u32::from_str` reads it.
fn parse_u32_slice(d: &[char]) -> (r: Option<u32>)
    ensures
        r == spec_parse_u32(d@),
{
    let n = d.len();
    let mut i: usize = 0;
    if n > 0 && *vstd::slice::slice_index_get(d, 0) == '+' {
        i = 1;
    }
    let ghost off = i as int;
    let ghost dseq = if d@.len() > 0 && d@[0] == '+' {
        d@.drop_first()
    } else {
        d@
    };
    proof {
        assert(dseq =~= d@.subrange(off, n as int));
    }
    if i >= n {
        return None;
    }
    let mut val: u64 = 0;
    let mut j: usize = i;
    while j < n
        invariant
            n == d@.len(),
            off <= j <= n,
            off == 0 || off == 1,
            dseq == d@.subrange(off, n as int),
            dseq == (if d@.len() > 0 && d@[0] == '+' {
                d@.drop_first()
            } else {
                d@
            }),
            val <= u32::MAX,
            val == digits_val(dseq.subrange(0, j - off)),
            forall|k: int| 0 <= k < j - off ==> is_digit(#[trigger] dseq[k]),
        decreases n - j,
    {
        let c = *vstd::slice::slice_index_get(d, j);
        proof {
            assert(dseq[j - off] == c);
        }
        match digit_of(c) {
            None => {
                proof {
                    assert(!is_digit(dseq[j - off]));
                    assert(!all_digits(dseq));
                }
                return None;
            },
            Some(dv) => {
                let nv: u64 = val * 10 + dv as u64;
                proof {
                    let pre = dseq.subrange(0, j - off + 1);
                    assert(pre.drop_last() =~= dseq.subrange(0, j - off));
                    assert(pre.last() == c);
                    assert(digits_val(pre) == digits_val(dseq.subrange(0, j - off)) * 10
                        + digit_val(c));
                }
                if nv > 0xFFFF_FFFFu64 {
                    proof {
                        lemma_digits_val_prefix_le(dseq, j - off + 1);
                        assert(digits_val(dseq) > u32::MAX);
                    }
                    return None;
                }
                val = nv;
            },
        }
        j = j + 1;
    }
    proof {
        assert(dseq.subrange(0, n - off) =~= dseq);
        assert(all_digits(dseq));
        assert(digits_val(dseq) == val);
    }
    Some(val as u32)
}

/// The literal identifier the text denotes: `x` or `X` followed by a
/// number, after trimming.
fn parse_literal_slice(v: &[char]) -> (r: Option<u32>)
    ensures
        r == spec_parse_literal(v@),
{
    let t = trim_slice(v);
    let n = t.len();
    if n == 0 {
        return None;
    }
    let c0 = *vstd::slice::slice_index_get(t, 0);
    if c0 == 'x' || c0 == 'X' {
        let rest = vstd::slice::slice_subrange(t, 1, n);
        proof {
            assert(rest@ =~= spec_trim(v@).drop_first());
        }
        parse_u32_slice(rest)
    } else {
        None
    }
}

/// Parse one variable: an optional negation marker, then a literal.
fn parse_variable_slice(v: &[char]) -> (r: Option<Variable>)
    ensures
        r == spec_parse_variable(v@),
{
    let t = trim_slice(v);
    if t.len() > 0 && *vstd::slice::slice_index_get(t, 0) == '-' {
        let stripped = strip_minus(t);
        match parse_literal_slice(stripped) {
            Some(id) => Some(Variable::Negative(id)),
            None => None,
        }
    } else {
        match parse_literal_slice(t) {
            Some(id) => Some(Variable::Positive(id)),
            None => None,
        }
    }
}

proof fn lemma_parse_vars_all(parts: Seq<Seq<char>>, vs: Seq<Variable>)
    requires
        vs.len() == parts.len(),
        forall|j: int| 0 <= j < parts.len() ==> spec_parse_variable(#[trigger] parts[j]) == Some(
            vs[j],
        ),
    ensures
        spec_parse_vars(parts) == Some(vs),
    decreases parts.len(),
{
    if parts.len() == 0 {
        assert(vs =~= Seq::<Variable>::empty());
    } else {
        let pr = parts.drop_first();
        let vr = vs.drop_first();
        assert forall|j: int| 0 <= j < pr.len() implies spec_parse_variable(#[trigger] pr[j])
            == Some(vr[j]) by {
            assert(pr[j] == parts[j + 1]);
            assert(vr[j] == vs[j + 1]);
        }
        lemma_parse_vars_all(pr, vr);
        assert(seq![vs[0]] + vr =~= vs);
    }
}

proof fn lemma_parse_vars_fail(parts: Seq<Seq<char>>, k: int)
    requires
        0 <= k < parts.len(),
        forall|j: int| 0 <= j < k ==> spec_parse_variable(#[trigger] parts[j]) is Some,
        spec_parse_variable(parts[k]) is None,
    ensures
        spec_parse_vars(parts) is None,
    decreases k,
{
    if k == 0 {
    } else {
        let pr = parts.drop_first();
        assert forall|j: int| 0 <= j < k - 1 implies spec_parse_variable(#[trigger] pr[j])
            is Some by {
            assert(pr[j] == parts[j + 1]);
        }
        assert(pr[k - 1] == parts[k]);
        lemma_parse_vars_fail(pr, k - 1);
    }
}

proof fn lemma_parse_clauses_all(parts: Seq<Seq<char>>, cs: Seq<Seq<Variable>>)
    requires
        cs.len() == parts.len(),
        forall|j: int| 0 <= j < parts.len() ==> spec_parse_clause(#[trigger] parts[j]) == Some(
            cs[j],
        ),
    ensures
        spec_parse_clauses(parts) == Some(cs),
    decreases parts.len(),
{
    if parts.len() == 0 {
        assert(cs =~= Seq::<Seq<Variable>>::empty());
    } else {
        let pr = parts.drop_first();
        let cr = cs.drop_first();
        assert forall|j: int| 0 <= j < pr.len() implies spec_parse_clause(#[trigger] pr[j]) == Some(
            cr[j],
        ) by {
            assert(pr[j] == parts[j + 1]);
            assert(cr[j] == cs[j + 1]);
        }
        lemma_parse_clauses_all(pr, cr);
        assert(seq![cs[0]] + cr =~= cs);
    }
}

proof fn lemma_parse_clauses_fail(parts: Seq<Seq<char>>, k: int)
    requires
        0 <= k < parts.len(),
        forall|j: int| 0 <= j < k ==> spec_parse_clause(#[trigger] parts[j]) is Some,
        spec_parse_clause(parts[k]) is None,
    ensures
        spec_parse_clauses(parts) is None,
    decreases k,
{
    if k == 0 {
    } else {
        let pr = parts.drop_first();
        assert forall|j: int| 0 <= j < k - 1 implies spec_parse_clause(#[trigger] pr[j]) is Some by {
            assert(pr[j] == parts[j + 1]);
        }
        assert(pr[k - 1] == parts[k]);
        lemma_parse_clauses_fail(pr, k - 1);
    }
}

/// Parse one clause: trim it, remove wrapping parentheses, and parse its
/// variables split on `or`.
fn parse_clause_slice(v: &[char]) -> (r: Option<Vec<Variable>>)
    ensures
        match r {
            Some(vars) => spec_parse_clause(v@) == Some(vars@),
            None => spec_parse_clause(v@) is None,
        },
{
    let t = trim_slice(v);
    let t2 = strip_open(t);
    let core = strip_close(t2);
    let parts = split_or_exec(core);
    let ghost pv = split_or(core@);
    let mut vars: Vec<Variable> = Vec::new();
    let mut k: usize = 0;
    let np = parts.len();
    while k < np
        invariant
            np == parts@.len(),
            k <= np,
            parts@.len() == pv.len(),
            forall|i: int| 0 <= i < pv.len() ==> (#[trigger] parts@[i])@ == pv[i],
            pv == split_or(
                strip_back(
                    strip_front(spec_trim(v@), open_paren_pred()),
                    close_paren_pred(),
                ),
            ),
            vars@.len() == k,
            forall|j: int| 0 <= j < k ==> spec_parse_variable(#[trigger] pv[j]) == Some(vars@[j]),
        decreases np - k,
    {
        match parse_variable_slice(parts[k].as_slice()) {
            Some(var) => {
                vars.push(var);
            },
            None => {
                proof {
                    lemma_parse_vars_fail(pv, k as int);
                }
                return None;
            },
        }
        k = k + 1;
    }
    proof {
        lemma_parse_vars_all(pv, vars@);
    }
    Some(vars)
}

/// Parse a string into a formula, for example
/// `(x1 OR x2) AND (-x2 OR x3) AND (x1 OR -x3)`. Malformed input yields
/// `None`.
pub fn parse(input: &str) -> (r: Option<Formula>)
    ensures
        match r {
            Some(f) => spec_parse(input@) == Some(f@),
            None => spec_parse(input@) is None,
        },
{
    let chars = str_to_chars(input);
    let parts = split_and_exec(chars.as_slice());
    let ghost pv = split_and(input@);
    let mut formula = Formula::new();
    let mut k: usize = 0;
    let np = parts.len();
    while k < np
        invariant
            np == parts@.len(),
            k <= np,
            parts@.len() == pv.len(),
            forall|i: int| 0 <= i < pv.len() ==> (#[trigger] parts@[i])@ == pv[i],
            pv == split_and(input@),
            formula@.len() == k,
            forall|j: int| 0 <= j < k ==> spec_parse_clause(#[trigger] pv[j]) == Some(formula@[j]),
        decreases np - k,
    {
        match parse_clause_slice(parts[k].as_slice()) {
            Some(vars) => {
                formula.add(Clause(vars));
            },
            None => {
                proof {
                    lemma_parse_clauses_fail(pv, k as int);
                }
                return None;
            },
        }
        k = k + 1;
    }
    proof {
        lemma_parse_clauses_all(pv, formula@);
    }
    Some(formula)
}

/// Parse one literal, for example `x12`; used by `parse` for each
/// variable after its negation markers are removed.
pub fn parse_literal(literal: &str) -> (r: Option<u32>)
    ensures
        r == spec_parse_literal(literal@),
{
    let chars = str_to_chars(literal);
    parse_literal_slice(chars.as_slice())
}

} // verus!

