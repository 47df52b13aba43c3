//! Recursive-descent parsers for patterns, set bodies and location predicates.
//!
//! Each parser is stated against a printer (for patterns and sets) or a text
//! relation (for locations): what it returns prints back to the text it read.
use vstd::prelude::*;
use crate::error::ErrorKind;
use crate::regexparser::ast::{
    Any, Basic, Char, CharSet, Concatenation, Elementary, Eos, Group, Item, Items, Location,
    Negative, Plus, Positive, QuerySet, Range, Regex, Simple, Star, Union,
};
use crate::text::{chars_of, decimal, parse_decimal, slice_of, string_of};

verus! {

pub open spec fn print_char(c: Char) -> Seq<char> {
    match c {
        Char::Char(x) => seq![x],
        Char::Meta(x) => seq!['\\', x],
    }
}

pub open spec fn print_item(i: Item) -> Seq<char> {
    match i {
        Item::Range(r) => match *r {
            Range::O(a, b) => print_char(*a) + seq!['-'] + print_char(*b),
        },
        Item::Char(c) => print_char(*c),
    }
}

pub open spec fn print_items(it: Items) -> Seq<char>
    decreases it,
{
    match it {
        Items::Item(i) => print_item(*i),
        Items::Items(i, rest) => print_item(*i) + print_items(*rest),
    }
}

pub open spec fn print_set(s: CharSet) -> Seq<char> {
    match s {
        CharSet::Positive(p) => match *p {
            Positive::O(it) => seq!['['] + print_items(*it) + seq![']'],
        },
        CharSet::Negative(n) => match *n {
            Negative::O(it) => seq!['[', '^'] + print_items(*it) + seq![']'],
        },
        CharSet::QuerySet(q) => match *q {
            QuerySet::O(it) => seq!['[', '['] + print_items(*it) + seq![']', ']'],
        },
    }
}

pub open spec fn print_regex(r: Regex) -> Seq<char>
    decreases r,
{
    match r {
        Regex::Union(u) => match *u {
            Union::O(a, b) => print_regex(*a) + seq!['|'] + print_simple(*b),
        },
        Regex::Simple(s) => print_simple(*s),
    }
}

pub open spec fn print_simple(s: Simple) -> Seq<char>
    decreases s,
{
    match s {
        Simple::Concatenation(c) => match *c {
            Concatenation::O(a, b) => print_simple(*a) + print_basic(*b),
        },
        Simple::Basic(b) => print_basic(*b),
    }
}

pub open spec fn print_basic(b: Basic) -> Seq<char>
    decreases b,
{
    match b {
        Basic::Star(s) => match *s {
            Star::O(e) => print_elem(*e) + seq!['*'],
        },
        Basic::Plus(p) => match *p {
            Plus::O(e) => print_elem(*e) + seq!['+'],
        },
        Basic::Elementary(e) => print_elem(*e),
    }
}

pub open spec fn print_elem(e: Elementary) -> Seq<char>
    decreases e,
{
    match e {
        Elementary::Group(g) => match *g {
            Group::O(r) => seq!['('] + print_regex(*r) + seq![')'],
        },
        Elementary::Any(_) => seq!['.'],
        Elementary::Eos(_) => seq!['$'],
        Elementary::Char(c) => print_char(*c),
        Elementary::CharSet(s) => print_set(*s),
        Elementary::Nothing => Seq::empty(),
    }
}

/// Where a set character that starts at `pos` ends.
pub open spec fn rc_set_char(s: Seq<char>, pos: int) -> Option<int> {
    if pos < 0 || pos >= s.len() {
        None
    } else if s[pos] == '\\' {
        if pos + 1 >= s.len() {
            None
        } else {
            Some(pos + 2)
        }
    } else if s[pos] == '[' || s[pos] == ']' || s[pos] == '-' {
        None
    } else {
        Some(pos + 1)
    }
}

/// Where a set item (a character, or a range `a-b`) that starts at `pos` ends.
pub open spec fn rc_item(s: Seq<char>, pos: int) -> Option<int> {
    match rc_set_char(s, pos) {
        None => None,
        Some(p) => if p < s.len() && s[p] == '-' {
            rc_set_char(s, p + 1)
        } else {
            Some(p)
        },
    }
}

/// Where the items that continue at `p` end: at the end of the text or at a
/// closing bracket.
pub open spec fn rc_items_rest(s: Seq<char>, p: int) -> Option<int>
    decreases s.len() - p,
{
    if 0 <= p < s.len() && s[p] != ']' {
        match rc_item(s, p) {
            None => None,
            Some(q) => if q <= p {
                None
            } else {
                rc_items_rest(s, q)
            },
        }
    } else {
        Some(p)
    }
}

/// Where one or more set items that start at `pos` end.
pub open spec fn rc_items(s: Seq<char>, pos: int) -> Option<int> {
    match rc_item(s, pos) {
        None => None,
        Some(p) => rc_items_rest(s, p),
    }
}

/// Where a set that starts at `pos` (an opening bracket) ends.
pub open spec fn rc_set(s: Seq<char>, pos: int) -> Option<int> {
    if pos + 1 < s.len() && s[pos + 1] == '[' {
        match rc_items(s, pos + 2) {
            Some(p) => if p + 1 < s.len() && s[p] == ']' && s[p + 1] == ']' {
                Some(p + 2)
            } else {
                None
            },
            None => None,
        }
    } else if pos + 1 < s.len() && s[pos + 1] == '^' {
        match rc_items(s, pos + 2) {
            Some(p) => if p < s.len() && s[p] == ']' {
                Some(p + 1)
            } else {
                None
            },
            None => None,
        }
    } else {
        match rc_items(s, pos + 1) {
            Some(p) => if p < s.len() && s[p] == ']' {
                Some(p + 1)
            } else {
                None
            },
            None => None,
        }
    }
}

/// Where an elementary pattern that starts at `pos` ends.
pub open spec fn rc_elem(s: Seq<char>, pos: int) -> Option<int>
    decreases s.len() - pos, 0int,
{
    if pos < 0 || pos >= s.len() {
        None
    } else {
        let c = s[pos];
        if c == '(' {
            match rc_regex(s, pos + 1) {
                Some(p) => if p < s.len() && s[p] == ')' {
                    Some(p + 1)
                } else {
                    None
                },
                None => None,
            }
        } else if c == '.' || c == '$' {
            Some(pos + 1)
        } else if c == '[' {
            rc_set(s, pos)
        } else if c == '\\' {
            if pos + 1 < s.len() {
                Some(pos + 2)
            } else {
                None
            }
        } else if c == '|' || c == '*' || c == '+' || c == ')' || c == ']' {
            None
        } else {
            Some(pos + 1)
        }
    }
}

/// Where an elementary pattern that starts at `pos`, with its `*` or `+`, ends.
pub open spec fn rc_basic(s: Seq<char>, pos: int) -> Option<int>
    decreases s.len() - pos, 1int,
{
    match rc_elem(s, pos) {
        Some(p) => if p < s.len() && (s[p] == '*' || s[p] == '+') {
            Some(p + 1)
        } else {
            Some(p)
        },
        None => None,
    }
}

/// Where a concatenation that continues at `p` ends.
pub open spec fn rc_simple_rest(s: Seq<char>, p: int) -> Option<int>
    decreases s.len() - p, 2int,
{
    if 0 <= p < s.len() && s[p] != '|' && s[p] != ')' {
        match rc_basic(s, p) {
            Some(q) => if q <= p || q > s.len() {
                None
            } else {
                rc_simple_rest(s, q)
            },
            None => None,
        }
    } else {
        Some(p)
    }
}

/// Where a concatenation that starts at `pos` ends.
pub open spec fn rc_simple(s: Seq<char>, pos: int) -> Option<int>
    decreases s.len() - pos, 3int,
{
    match rc_basic(s, pos) {
        Some(p) => if p <= pos || p > s.len() {
            None
        } else {
            rc_simple_rest(s, p)
        },
        None => None,
    }
}

/// Where a union that continues at `p` ends.
pub open spec fn rc_regex_rest(s: Seq<char>, p: int) -> Option<int>
    decreases s.len() - p, 4int,
{
    if 0 <= p < s.len() && s[p] == '|' {
        match rc_simple(s, p + 1) {
            Some(q) => if q <= p || q > s.len() {
                None
            } else {
                rc_regex_rest(s, q)
            },
            None => None,
        }
    } else {
        Some(p)
    }
}

/// Where a pattern that starts at `pos` ends: the grammar read from left to
/// right, each repetition taking as much as it can.
pub open spec fn rc_regex(s: Seq<char>, pos: int) -> Option<int>
    decreases s.len() - pos, 5int,
{
    match rc_simple(s, pos) {
        Some(p) => if p <= pos || p > s.len() {
            None
        } else {
            rc_regex_rest(s, p)
        },
        None => None,
    }
}

/// A character of a set at `pos`.
fn parse_set_char(s: &Vec<char>, pos: usize) -> (r: Result<(Box<Char>, usize), ErrorKind>)
    requires
        pos <= s@.len(),
    ensures
        r matches Ok((c, n)) ==> pos < n <= s@.len() && print_char(*c) == s@.subrange(
            pos as int,
            n as int,
        ),
        r is Ok <==> rc_set_char(s@, pos as int) is Some,
        r matches Ok((_, n)) ==> rc_set_char(s@, pos as int) == Some(n as int),
{
    if pos >= s.len() {
        return Err(ErrorKind::RegexSyntax);
    }
    let c = s[pos];
    if c == '\\' {
        if pos + 1 >= s.len() {
            return Err(ErrorKind::RegexSyntax);
        }
        let r = Box::new(Char::Meta(s[pos + 1]));
        assert(print_char(*r) =~= s@.subrange(pos as int, pos + 2));
        return Ok((r, pos + 2));
    }
    if c == '[' || c == ']' || c == '-' {
        return Err(ErrorKind::RegexSyntax);
    }
    let r = Box::new(Char::Char(c));
    assert(print_char(*r) =~= s@.subrange(pos as int, pos + 1));
    Ok((r, pos + 1))
}

/// A set item at `pos`: a character, or a range `a-b`.
fn parse_item(s: &Vec<char>, pos: usize) -> (r: Result<(Box<Item>, usize), ErrorKind>)
    requires
        pos <= s@.len(),
    ensures
        r matches Ok((i, n)) ==> pos < n <= s@.len() && print_item(*i) == s@.subrange(
            pos as int,
            n as int,
        ),
        r is Ok <==> rc_item(s@, pos as int) is Some,
        r matches Ok((_, n)) ==> rc_item(s@, pos as int) == Some(n as int),
{
    let (a, p) = match parse_set_char(s, pos) {
        Ok(x) => x,
        Err(e) => return Err(e),
    };
    if p < s.len() && s[p] == '-' {
        let (b, q) = match parse_set_char(s, p + 1) {
            Ok(x) => x,
            Err(e) => return Err(e),
        };
        let ghost pa = print_char(*a);
        let ghost pb = print_char(*b);
        let r = Box::new(Item::Range(Box::new(Range::O(a, b))));
        assert(print_item(*r) =~= s@.subrange(pos as int, q as int));
        return Ok((r, q));
    }
    let r = Box::new(Item::Char(a));
    Ok((r, p))
}

/// One or more set items from `pos`, up to a closing bracket or the end.
fn parse_items_at(s: &Vec<char>, pos: usize) -> (r: Result<(Box<Items>, usize), ErrorKind>)
    requires
        pos <= s@.len(),
    ensures
        r matches Ok((it, n)) ==> pos < n <= s@.len() && print_items(*it) == s@.subrange(
            pos as int,
            n as int,
        ),
        r is Ok <==> rc_items(s@, pos as int) is Some,
        r matches Ok((_, n)) ==> rc_items(s@, pos as int) == Some(n as int),
{
    let mut items: Vec<Box<Item>> = Vec::new();
    let mut ends: Vec<usize> = Vec::new();
    let (first, p0) = match parse_item(s, pos) {
        Ok(x) => x,
        Err(e) => return Err(e),
    };
    items.push(first);
    ends.push(p0);
    let mut p = p0;
    while p < s.len() && s[p] != ']'
        invariant
            pos < p <= s@.len(),
            items@.len() == ends@.len(),
            items@.len() > 0,
            ends@[ends@.len() - 1] == p,
            rc_items(s@, pos as int) == rc_items_rest(s@, p as int),
            forall|k: int| 0 <= k < ends@.len() ==> pos < #[trigger] ends@[k] <= p,
            forall|k: int| 0 <= k < ends@.len() - 1 ==> #[trigger] ends@[k] < ends@[k + 1],
            print_item(*items@[0]) == s@.subrange(pos as int, ends@[0] as int),
            forall|k: int|
                1 <= k < items@.len() ==> print_item(*#[trigger] items@[k]) == s@.subrange(
                    ends@[k - 1] as int,
                    ends@[k] as int,
                ),
        decreases s@.len() - p,
    {
        let (it, q) = match parse_item(s, p) {
            Ok(x) => x,
            Err(e) => return Err(e),
        };
        items.push(it);
        ends.push(q);
        p = q;
    }
    assert(rc_items_rest(s@, p as int) == Some(p as int));
    let ghost all_items = items@;
    let ghost all_ends = ends@;
    let mut acc = Box::new(Items::Item(items.pop().unwrap()));
    let ghost last = ends@.len() - 1;
    assert(print_items(*acc) == s@.subrange(
        if last == 0 { pos as int } else { all_ends[last - 1] as int },
        p as int,
    ));
    while items.len() > 0
        invariant
            items@.len() > 0 ==> items@ == all_items.subrange(0, items@.len() as int),
            items@.len() < all_items.len(),
            all_items.len() == all_ends.len(),
            all_ends[all_ends.len() - 1] == p,
            pos < p <= s@.len(),
            rc_items(s@, pos as int) == Some(p as int),
            forall|k: int| 0 <= k < all_ends.len() ==> pos < #[trigger] all_ends[k] <= p,
            forall|k: int| 0 <= k < all_ends.len() - 1 ==> #[trigger] all_ends[k] < all_ends[k + 1],
            print_item(*all_items[0]) == s@.subrange(pos as int, all_ends[0] as int),
            forall|k: int|
                1 <= k < all_items.len() ==> print_item(*#[trigger] all_items[k]) == s@.subrange(
                    all_ends[k - 1] as int,
                    all_ends[k] as int,
                ),
            print_items(*acc) == s@.subrange(
                if items@.len() == 0 {
                    pos as int
                } else {
                    all_ends[items@.len() - 1] as int
                },
                p as int,
            ),
        decreases items@.len(),
    {
        let it = items.pop().unwrap();
        let ghost k = items@.len() as int;
        acc = Box::new(Items::Items(it, acc));
        proof {
            let lo = if k == 0 {
                pos as int
            } else {
                all_ends[k - 1] as int
            };
            assert(all_items[k] == it);
            assert(print_items(*acc) =~= s@.subrange(lo, all_ends[k] as int) + s@.subrange(
                all_ends[k] as int,
                p as int,
            ));
            assert(s@.subrange(lo, all_ends[k] as int) + s@.subrange(all_ends[k] as int, p as int)
                =~= s@.subrange(lo, p as int));
            if k > 0 {
                assert(items@ =~= all_items.subrange(0, k));
            }
        }
    }
    Ok((acc, p))
}

/// Parses the body of a set: one or more items.
pub fn parse_set(s: &str) -> (r: Result<Box<Items>, ErrorKind>)
    ensures
        r matches Ok(it) ==> print_items(*it) == s@,
        r is Ok <==> rc_items(s@, 0) == Some(s@.len() as int),
{
    let cs = chars_of(s);
    match parse_items_at(&cs, 0) {
        Ok((it, n)) => {
            if n == cs.len() {
                assert(cs@.subrange(0, n as int) =~= cs@);
                Ok(it)
            } else {
                Err(ErrorKind::RegexSyntax)
            }
        },
        Err(e) => Err(e),
    }
}

fn expect(s: &Vec<char>, pos: usize, c: char) -> (r: bool)
    ensures
        r == (pos < s@.len() && s@[pos as int] == c),
{
    pos < s.len() && s[pos] == c
}

/// A set at `pos`, which holds an opening bracket.
fn parse_set_at(s: &Vec<char>, pos: usize) -> (r: Result<(Box<CharSet>, usize), ErrorKind>)
    requires
        pos < s@.len(),
        s@[pos as int] == '[',
    ensures
        r matches Ok((c, n)) ==> pos < n <= s@.len() && print_set(*c) == s@.subrange(
            pos as int,
            n as int,
        ),
        r is Ok <==> rc_set(s@, pos as int) is Some,
        r matches Ok((_, n)) ==> rc_set(s@, pos as int) == Some(n as int),
{
    let n = s.len();
    if expect(s, pos + 1, '[') {
        let (it, p) = match parse_items_at(s, pos + 2) {
            Ok(x) => x,
            Err(e) => return Err(e),
        };
        if expect(s, p, ']') && expect(s, p + 1, ']') {
            let r = Box::new(CharSet::QuerySet(Box::new(QuerySet::O(it))));
            assert(print_set(*r) =~= s@.subrange(pos as int, p + 2));
            return Ok((r, p + 2));
        }
        return Err(ErrorKind::RegexSyntax);
    }
    if expect(s, pos + 1, '^') {
        let (it, p) = match parse_items_at(s, pos + 2) {
            Ok(x) => x,
            Err(e) => return Err(e),
        };
        if expect(s, p, ']') {
            let r = Box::new(CharSet::Negative(Box::new(Negative::O(it))));
            assert(print_set(*r) =~= s@.subrange(pos as int, p + 1));
            return Ok((r, p + 1));
        }
        return Err(ErrorKind::RegexSyntax);
    }
    let (it, p) = match parse_items_at(s, pos + 1) {
        Ok(x) => x,
        Err(e) => return Err(e),
    };
    if expect(s, p, ']') {
        let r = Box::new(CharSet::Positive(Box::new(Positive::O(it))));
        assert(print_set(*r) =~= s@.subrange(pos as int, p + 1));
        return Ok((r, p + 1));
    }
    Err(ErrorKind::RegexSyntax)
}

/// An elementary pattern at `pos`.
fn parse_elem_at(s: &Vec<char>, pos: usize) -> (r: Result<(Box<Elementary>, usize), ErrorKind>)
    requires
        pos <= s@.len(),
    ensures
        r matches Ok((e, n)) ==> pos < n <= s@.len() && print_elem(*e) == s@.subrange(
            pos as int,
            n as int,
        ),
        r is Ok <==> rc_elem(s@, pos as int) is Some,
        r matches Ok((_, n)) ==> rc_elem(s@, pos as int) == Some(n as int),
    decreases s@.len() - pos, 0int,
{
    if pos >= s.len() {
        return Err(ErrorKind::RegexSyntax);
    }
    let c = s[pos];
    if c == '(' {
        let (inner, p) = match parse_regex_at(s, pos + 1) {
            Ok(x) => x,
            Err(e) => return Err(e),
        };
        if expect(s, p, ')') {
            let r = Box::new(Elementary::Group(Box::new(Group::O(inner))));
            assert(print_elem(*r) =~= s@.subrange(pos as int, p + 1));
            return Ok((r, p + 1));
        }
        return Err(ErrorKind::RegexSyntax);
    }
    if c == '.' {
        let r = Box::new(Elementary::Any(Box::new(Any::O)));
        assert(print_elem(*r) =~= s@.subrange(pos as int, pos + 1));
        return Ok((r, pos + 1));
    }
    if c == '$' {
        let r = Box::new(Elementary::Eos(Box::new(Eos::O)));
        assert(print_elem(*r) =~= s@.subrange(pos as int, pos + 1));
        return Ok((r, pos + 1));
    }
    if c == '[' {
        let (set, p) = match parse_set_at(s, pos) {
            Ok(x) => x,
            Err(e) => return Err(e),
        };
        return Ok((Box::new(Elementary::CharSet(set)), p));
    }
    if c == '\\' {
        if pos + 1 >= s.len() {
            return Err(ErrorKind::RegexSyntax);
        }
        let r = Box::new(Elementary::Char(Box::new(Char::Meta(s[pos + 1]))));
        assert(print_elem(*r) =~= s@.subrange(pos as int, pos + 2));
        return Ok((r, pos + 2));
    }
    if c == '|' || c == '*' || c == '+' || c == ')' || c == ']' {
        return Err(ErrorKind::RegexSyntax);
    }
    let r = Box::new(Elementary::Char(Box::new(Char::Char(c))));
    assert(print_elem(*r) =~= s@.subrange(pos as int, pos + 1));
    Ok((r, pos + 1))
}

/// An elementary pattern at `pos`, with a `*` or `+` that follows it.
fn parse_basic_at(s: &Vec<char>, pos: usize) -> (r: Result<(Box<Basic>, usize), ErrorKind>)
    requires
        pos <= s@.len(),
    ensures
        r matches Ok((b, n)) ==> pos < n <= s@.len() && print_basic(*b) == s@.subrange(
            pos as int,
            n as int,
        ),
        r is Ok <==> rc_basic(s@, pos as int) is Some,
        r matches Ok((_, n)) ==> rc_basic(s@, pos as int) == Some(n as int),
    decreases s@.len() - pos, 1int,
{
    let n = s.len();
    let (e, p) = match parse_elem_at(s, pos) {
        Ok(x) => x,
        Err(err) => return Err(err),
    };
    if expect(s, p, '*') {
        let r = Box::new(Basic::Star(Box::new(Star::O(e))));
        assert(print_basic(*r) =~= s@.subrange(pos as int, p + 1));
        return Ok((r, p + 1));
    }
    if expect(s, p, '+') {
        let r = Box::new(Basic::Plus(Box::new(Plus::O(e))));
        assert(print_basic(*r) =~= s@.subrange(pos as int, p + 1));
        return Ok((r, p + 1));
    }
    Ok((Box::new(Basic::Elementary(e)), p))
}

/// A concatenation of elementary patterns from `pos`.
fn parse_simple_at(s: &Vec<char>, pos: usize) -> (r: Result<(Box<Simple>, usize), ErrorKind>)
    requires
        pos <= s@.len(),
    ensures
        r matches Ok((x, n)) ==> pos < n <= s@.len() && print_simple(*x) == s@.subrange(
            pos as int,
            n as int,
        ),
        r is Ok <==> rc_simple(s@, pos as int) is Some,
        r matches Ok((_, n)) ==> rc_simple(s@, pos as int) == Some(n as int),
    decreases s@.len() - pos, 2int,
{
    let (b, p0) = match parse_basic_at(s, pos) {
        Ok(x) => x,
        Err(e) => return Err(e),
    };
    let mut acc = Box::new(Simple::Basic(b));
    let mut p = p0;
    while p < s.len() && s[p] != '|' && s[p] != ')'
        invariant
            pos < p <= s@.len(),
            print_simple(*acc) == s@.subrange(pos as int, p as int),
            rc_simple(s@, pos as int) == rc_simple_rest(s@, p as int),
        decreases s@.len() - p,
    {
        let (b, q) = match parse_basic_at(s, p) {
            Ok(x) => x,
            Err(e) => return Err(e),
        };
        acc = Box::new(Simple::Concatenation(Box::new(Concatenation::O(acc, b))));
        assert(print_simple(*acc) =~= s@.subrange(pos as int, q as int));
        p = q;
    }
    Ok((acc, p))
}

/// A union of concatenations from `pos`.
fn parse_regex_at(s: &Vec<char>, pos: usize) -> (r: Result<(Box<Regex>, usize), ErrorKind>)
    requires
        pos <= s@.len(),
    ensures
        r matches Ok((x, n)) ==> pos < n <= s@.len() && print_regex(*x) == s@.subrange(
            pos as int,
            n as int,
        ),
        r is Ok <==> rc_regex(s@, pos as int) is Some,
        r matches Ok((_, n)) ==> rc_regex(s@, pos as int) == Some(n as int),
    decreases s@.len() - pos, 3int,
{
    let (first, p0) = match parse_simple_at(s, pos) {
        Ok(x) => x,
        Err(e) => return Err(e),
    };
    let mut acc = Box::new(Regex::Simple(first));
    let mut p = p0;
    while p < s.len() && s[p] == '|'
        invariant
            pos < p <= s@.len(),
            print_regex(*acc) == s@.subrange(pos as int, p as int),
            rc_regex(s@, pos as int) == rc_regex_rest(s@, p as int),
        decreases s@.len() - p,
    {
        let (b, q) = match parse_simple_at(s, p + 1) {
            Ok(x) => x,
            Err(e) => return Err(e),
        };
        acc = Box::new(Regex::Union(Box::new(Union::O(acc, b))));
        assert(print_regex(*acc) =~= s@.subrange(pos as int, q as int));
        p = q;
    }
    Ok((acc, p))
}

/// Parses a whole pattern.
pub fn parse_regex(text: &str) -> (r: Result<Box<Regex>, ErrorKind>)
    ensures
        r matches Ok(x) ==> print_regex(*x) == text@,
        r is Ok <==> rc_regex(text@, 0) == Some(text@.len() as int),
        r matches Err(e) ==> e == ErrorKind::RegexSyntax,
{
    let cs = chars_of(text);
    match parse_regex_at(&cs, 0) {
        Ok((x, n)) => {
            if n == cs.len() {
                assert(cs@.subrange(0, n as int) =~= cs@);
                Ok(x)
            } else {
                Err(ErrorKind::RegexSyntax)
            }
        },
        Err(_) => Err(ErrorKind::RegexSyntax),
    }
}

} // verus!
