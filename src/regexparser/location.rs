//! The grammar of location predicates:
//!
//! ```text
//! location ::= term (("|" | "&") term)*      (left-associative)
//! term     ::= "^" term | "(" location ")" | "%" | "<" suffix ">" | "{" name "}"
//!            | "l" number "-" number | "c" number "-" number
//! ```
use vstd::prelude::*;
use crate::error::ErrorKind;
use crate::regexparser::ast::Location;
use crate::regexparser::parsereplacement::digits_end;
use crate::text::{chars_of, decimal, parse_decimal, slice_of, string_of};

verus! {

/// `t` is `a-b` with `a` and `b` written in decimal.
pub open spec fn range_text(t: Seq<char>, a: usize, b: usize) -> bool {
    exists|i: int|
        0 < i < t.len() - 1 && #[trigger] t[i] == '-' && decimal(t.subrange(0, i)) == Some(a as nat)
            && decimal(t.subrange(i + 1, t.len() as int)) == Some(b as nat)
}

/// `t` is a text of the predicate `l`: its parts in their syntax, around which
/// any number of parentheses may stand.
pub open spec fn loc_text(l: Location, t: Seq<char>) -> bool
    decreases t.len(),
{
    ||| (t.len() >= 2 && t[0] == '(' && t[t.len() - 1] == ')' && loc_text(
        l,
        t.subrange(1, t.len() - 1),
    ))
    ||| match l {
        Location::All => t == seq!['%'],
        Location::Path(x) => t.len() >= 2 && t[0] == '<' && t[t.len() - 1] == '>' && t.subrange(
            1,
            t.len() - 1,
        ) == x@ && !x@.contains('>'),
        Location::Function(x) => t.len() >= 2 && t[0] == '{' && t[t.len() - 1] == '}'
            && t.subrange(1, t.len() - 1) == x@ && !x@.contains('}'),
        Location::LineRange(a, b) => t.len() >= 1 && t[0] == 'l' && range_text(t.drop_first(), a, b),
        Location::CharRange(a, b) => t.len() >= 1 && t[0] == 'c' && range_text(t.drop_first(), a, b),
        Location::Not(x) => t.len() >= 1 && t[0] == '^' && loc_text(*x, t.drop_first()),
        Location::Or(x, y) => exists|i: int|
            0 < i < t.len() && #[trigger] t[i] == '|' && loc_text(*x, t.subrange(0, i)) && loc_text(
                *y,
                t.subrange(i + 1, t.len() as int),
            ),
        Location::And(x, y) => exists|i: int|
            0 < i < t.len() && #[trigger] t[i] == '&' && loc_text(*x, t.subrange(0, i)) && loc_text(
                *y,
                t.subrange(i + 1, t.len() as int),
            ),
    }
}

/// The first `c` at or after `i`, if any.
pub open spec fn next_char(s: Seq<char>, i: int, c: char) -> Option<int>
    decreases s.len() - i,
{
    if i < 0 || i >= s.len() {
        None
    } else if s[i] == c {
        Some(i)
    } else {
        next_char(s, i + 1, c)
    }
}

/// Where a range `a-b` that starts at `pos` ends.
pub open spec fn rc_range(s: Seq<char>, pos: int) -> Option<int> {
    let j1 = digits_end(s, pos);
    if j1 == pos || j1 >= s.len() || s[j1] != '-' {
        None
    } else {
        let j2 = digits_end(s, j1 + 1);
        if j2 == j1 + 1 || decimal(s.subrange(pos, j1)) is None || decimal(s.subrange(j1 + 1, j2)) is None {
            None
        } else {
            Some(j2)
        }
    }
}

/// Where a name in delimiters that opens at `pos` ends: after the first `close`.
pub open spec fn rc_name(s: Seq<char>, pos: int, close: char) -> Option<int> {
    match next_char(s, pos + 1, close) {
        Some(k) => Some(k + 1),
        None => None,
    }
}

/// Where a term that starts at `pos` ends.
pub open spec fn rc_term(s: Seq<char>, pos: int) -> Option<int>
    decreases s.len() - pos, 0int,
{
    if pos < 0 || pos >= s.len() {
        None
    } else {
        let c = s[pos];
        if c == '^' {
            rc_term(s, pos + 1)
        } else if c == '(' {
            match rc_loc(s, pos + 1) {
                Some(p) => if p < s.len() && s[p] == ')' {
                    Some(p + 1)
                } else {
                    None
                },
                None => None,
            }
        } else if c == '%' {
            Some(pos + 1)
        } else if c == '<' {
            rc_name(s, pos, '>')
        } else if c == '{' {
            rc_name(s, pos, '}')
        } else if c == 'l' || c == 'c' {
            rc_range(s, pos + 1)
        } else {
            None
        }
    }
}

/// Where the terms that continue at `p`, each after `|` or `&`, end.
pub open spec fn rc_loc_rest(s: Seq<char>, p: int) -> Option<int>
    decreases s.len() - p, 1int,
{
    if 0 <= p < s.len() && (s[p] == '|' || s[p] == '&') {
        match rc_term(s, p + 1) {
            Some(q) => if q <= p || q > s.len() {
                None
            } else {
                rc_loc_rest(s, q)
            },
            None => None,
        }
    } else {
        Some(p)
    }
}

/// Where a location predicate that starts at `pos` ends.
pub open spec fn rc_loc(s: Seq<char>, pos: int) -> Option<int>
    decreases s.len() - pos, 2int,
{
    match rc_term(s, pos) {
        Some(p) => if p <= pos || p > s.len() {
            None
        } else {
            rc_loc_rest(s, p)
        },
        None => None,
    }
}

fn digits_at(s: &Vec<char>, pos: usize) -> (r: usize)
    requires
        pos <= s@.len(),
    ensures
        pos <= r <= s@.len(),
        forall|k: int| pos <= k < r ==> crate::text::is_digit(#[trigger] s@[k]),
        r < s@.len() ==> !crate::text::is_digit(s@[r as int]),
        r == digits_end(s@, pos as int),
{
    let mut k = pos;
    while k < s.len() && '0' <= s[k] && s[k] <= '9'
        invariant
            pos <= k <= s@.len(),
            forall|j: int| pos <= j < k ==> crate::text::is_digit(#[trigger] s@[j]),
            digits_end(s@, pos as int) == digits_end(s@, k as int),
        decreases s@.len() - k,
    {
        k = k + 1;
    }
    k
}

/// A range `a-b` at `pos`, and where it ends.
fn parse_range_at(s: &Vec<char>, pos: usize) -> (r: Result<(usize, usize, usize), ErrorKind>)
    requires
        pos <= s@.len(),
    ensures
        r matches Ok((a, b, n)) ==> pos < n <= s@.len() && range_text(
            s@.subrange(pos as int, n as int),
            a,
            b,
        ),
        r is Ok <==> rc_range(s@, pos as int) is Some,
        r matches Ok((_, _, n)) ==> rc_range(s@, pos as int) == Some(n as int),
{
    let j1 = digits_at(s, pos);
    if j1 == pos || j1 >= s.len() || s[j1] != '-' {
        return Err(ErrorKind::LocationSyntax);
    }
    let j2 = digits_at(s, j1 + 1);
    if j2 == j1 + 1 {
        return Err(ErrorKind::LocationSyntax);
    }
    let a = match parse_decimal(&slice_of(s, pos, j1)) {
        Some(a) => a,
        None => return Err(ErrorKind::LocationSyntax),
    };
    let b = match parse_decimal(&slice_of(s, j1 + 1, j2)) {
        Some(b) => b,
        None => return Err(ErrorKind::LocationSyntax),
    };
    proof {
        let t = s@.subrange(pos as int, j2 as int);
        let i = j1 - pos;
        assert(t.subrange(0, i) =~= s@.subrange(pos as int, j1 as int));
        assert(t.subrange(i + 1, t.len() as int) =~= s@.subrange(j1 + 1, j2 as int));
        assert(t[i] == '-');
    }
    Ok((a, b, j2))
}

/// The text from `pos + 1` up to the character `close`, and the position after it.
fn parse_name_at(s: &Vec<char>, pos: usize, close: char) -> (r: Result<(String, usize), ErrorKind>)
    requires
        pos < s@.len(),
    ensures
        r matches Ok((x, n)) ==> pos + 2 <= n <= s@.len() && s@[n - 1] == close && x@
            == s@.subrange(pos + 1, n - 1) && !x@.contains(close),
        r is Ok <==> rc_name(s@, pos as int, close) is Some,
        r matches Ok((_, n)) ==> rc_name(s@, pos as int, close) == Some(n as int),
{
    let n = s.len();
    let mut k = pos + 1;
    while k < s.len() && s[k] != close
        invariant
            pos + 1 <= k <= s@.len(),
            forall|j: int| pos + 1 <= j < k ==> s@[j] != close,
            next_char(s@, pos + 1, close) == next_char(s@, k as int, close),
        decreases s@.len() - k,
    {
        k = k + 1;
    }
    if k >= s.len() {
        return Err(ErrorKind::LocationSyntax);
    }
    let x = slice_of(s, pos + 1, k);
    proof {
        if x@.contains(close) {
            let j = choose|j: int| 0 <= j < x@.len() && x@[j] == close;
            assert(s@[pos + 1 + j] == close);
        }
    }
    Ok((string_of(&x), k + 1))
}

fn parse_term_at(s: &Vec<char>, pos: usize) -> (r: Result<(Box<Location>, usize), ErrorKind>)
    requires
        pos <= s@.len(),
    ensures
        r matches Ok((l, n)) ==> pos < n <= s@.len() && loc_text(
            *l,
            s@.subrange(pos as int, n as int),
        ),
        r is Ok <==> rc_term(s@, pos as int) is Some,
        r matches Ok((_, n)) ==> rc_term(s@, pos as int) == Some(n as int),
    decreases s@.len() - pos, 0int,
{
    if pos >= s.len() {
        return Err(ErrorKind::LocationSyntax);
    }
    let c = s[pos];
    if c == '^' {
        let (x, p) = match parse_term_at(s, pos + 1) {
            Ok(v) => v,
            Err(e) => return Err(e),
        };
        let r = Box::new(Location::Not(x));
        assert(s@.subrange(pos as int, p as int).drop_first() =~= s@.subrange(pos + 1, p as int));
        return Ok((r, p));
    }
    if c == '(' {
        let (x, p) = match parse_loc_at(s, pos + 1) {
            Ok(v) => v,
            Err(e) => return Err(e),
        };
        if p < s.len() && s[p] == ')' {
            let ghost t = s@.subrange(pos as int, p + 1);
            assert(t.subrange(1, t.len() - 1) =~= s@.subrange(pos + 1, p as int));
            return Ok((x, p + 1));
        }
        return Err(ErrorKind::LocationSyntax);
    }
    if c == '%' {
        assert(s@.subrange(pos as int, pos + 1) =~= seq!['%']);
        return Ok((Box::new(Location::All), pos + 1));
    }
    if c == '<' {
        let (x, p) = match parse_name_at(s, pos, '>') {
            Ok(v) => v,
            Err(e) => return Err(e),
        };
        let ghost t = s@.subrange(pos as int, p as int);
        assert(t.subrange(1, t.len() - 1) =~= x@);
        return Ok((Box::new(Location::Path(x)), p));
    }
    if c == '{' {
        let (x, p) = match parse_name_at(s, pos, '}') {
            Ok(v) => v,
            Err(e) => return Err(e),
        };
        let ghost t = s@.subrange(pos as int, p as int);
        assert(t.subrange(1, t.len() - 1) =~= x@);
        return Ok((Box::new(Location::Function(x)), p));
    }
    if c == 'l' || c == 'c' {
        let (a, b, p) = match parse_range_at(s, pos + 1) {
            Ok(v) => v,
            Err(e) => return Err(e),
        };
        assert(s@.subrange(pos as int, p as int).drop_first() =~= s@.subrange(pos + 1, p as int));
        if c == 'l' {
            return Ok((Box::new(Location::LineRange(a, b)), p));
        } else {
            return Ok((Box::new(Location::CharRange(a, b)), p));
        }
    }
    Err(ErrorKind::LocationSyntax)
}

fn parse_loc_at(s: &Vec<char>, pos: usize) -> (r: Result<(Box<Location>, usize), ErrorKind>)
    requires
        pos <= s@.len(),
    ensures
        r matches Ok((l, n)) ==> pos < n <= s@.len() && loc_text(
            *l,
            s@.subrange(pos as int, n as int),
        ),
        r is Ok <==> rc_loc(s@, pos as int) is Some,
        r matches Ok((_, n)) ==> rc_loc(s@, pos as int) == Some(n as int),
    decreases s@.len() - pos, 1int,
{
    let (first, p0) = match parse_term_at(s, pos) {
        Ok(v) => v,
        Err(e) => return Err(e),
    };
    let mut acc = first;
    let mut p = p0;
    while p < s.len() && (s[p] == '|' || s[p] == '&')
        invariant
            pos < p <= s@.len(),
            loc_text(*acc, s@.subrange(pos as int, p as int)),
            rc_loc(s@, pos as int) == rc_loc_rest(s@, p as int),
        decreases s@.len() - p,
    {
        let op = s[p];
        let (y, q) = match parse_term_at(s, p + 1) {
            Ok(v) => v,
            Err(e) => return Err(e),
        };
        let ghost x = *acc;
        let ghost t = s@.subrange(pos as int, q as int);
        let ghost i = p - pos;
        assert(t.subrange(0, i) =~= s@.subrange(pos as int, p as int));
        assert(t.subrange(i + 1, t.len() as int) =~= s@.subrange(p + 1, q as int));
        assert(t[i] == op);
        if op == '|' {
            acc = Box::new(Location::Or(acc, y));
        } else {
            acc = Box::new(Location::And(acc, y));
        }
        p = q;
    }
    Ok((acc, p))
}

/// Parses a whole location predicate.
pub fn parse_location(text: &str) -> (r: Result<Box<Location>, ErrorKind>)
    ensures
        r matches Ok(l) ==> loc_text(*l, text@),
        r is Ok <==> rc_loc(text@, 0) == Some(text@.len() as int),
        r matches Err(e) ==> e == ErrorKind::LocationSyntax,
{
    let cs = chars_of(text);
    match parse_loc_at(&cs, 0) {
        Ok((l, n)) => {
            if n == cs.len() {
                assert(cs@.subrange(0, n as int) =~= cs@);
                Ok(l)
            } else {
                Err(ErrorKind::LocationSyntax)
            }
        },
        Err(_) => Err(ErrorKind::LocationSyntax),
    }
}

} // verus!
