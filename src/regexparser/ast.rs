//! The syntax trees of patterns, location predicates and replacement templates.
//!
//! Patterns follow this grammar:
//!
//! ```text
//! regex      ::= union | simple
//! union      ::= regex "|" simple
//! simple     ::= concat | basic
//! concat     ::= simple basic
//! basic      ::= star | plus | elementary
//! star       ::= elementary "*"
//! plus       ::= elementary "+"
//! elementary ::= group | any | eos | char | set
//! group      ::= "(" regex ")"
//! any        ::= "."
//! eos        ::= "$"
//! char       ::= any non-metacharacter | "\" any character
//! set        ::= "[" items "]" | "[^" items "]" | "[[" items "]]"
//! items      ::= item | item items
//! item       ::= char "-" char | char
//! ```
use vstd::prelude::*;
use crate::nfa::queryengine::{function_answer, QueryEngine};
use crate::text::{chars_of, count_newlines, ends_with, is_suffix, newlines_between};

verus! {

#[derive(Debug)]
pub enum Union {
    O(Box<Regex>, Box<Simple>),
}

#[derive(Debug)]
pub enum Regex {
    Union(Box<Union>),
    Simple(Box<Simple>),
}

#[derive(Debug)]
pub enum Simple {
    Concatenation(Box<Concatenation>),
    Basic(Box<Basic>),
}

#[derive(Debug)]
pub enum Concatenation {
    O(Box<Simple>, Box<Basic>),
}

#[derive(Debug)]
pub enum Basic {
    Star(Box<Star>),
    Plus(Box<Plus>),
    Elementary(Box<Elementary>),
}

#[derive(Debug)]
pub enum Star {
    O(Box<Elementary>),
}

#[derive(Debug)]
pub enum Plus {
    O(Box<Elementary>),
}

/// An elementary pattern. `Nothing` stands for the empty pattern and matches nothing.
#[derive(Debug)]
pub enum Elementary {
    Group(Box<Group>),
    Any(Box<Any>),
    Eos(Box<Eos>),
    Char(Box<Char>),
    CharSet(Box<CharSet>),
    Nothing,
}

#[derive(Debug)]
pub enum Group {
    O(Box<Regex>),
}

#[derive(Debug)]
pub enum Any {
    O,
}

#[derive(Debug)]
pub enum Eos {
    O,
}

/// A character of a pattern: `Meta` is one written after a backslash.
#[derive(Debug)]
pub enum Char {
    Char(char),
    Meta(char),
}

#[derive(Debug)]
pub enum CharSet {
    Positive(Box<Positive>),
    Negative(Box<Negative>),
    QuerySet(Box<QuerySet>),
}

#[derive(Debug)]
pub enum Positive {
    O(Box<Items>),
}

#[derive(Debug)]
pub enum Negative {
    O(Box<Items>),
}

#[derive(Debug)]
pub enum QuerySet {
    O(Box<Items>),
}

#[derive(Debug)]
pub enum Items {
    Item(Box<Item>),
    Items(Box<Item>, Box<Items>),
}

#[derive(Debug)]
pub enum Item {
    Range(Box<Range>),
    Char(Box<Char>),
}

#[derive(Debug)]
pub enum Range {
    O(Box<Char>, Box<Char>),
}

/// The body of a query set: a non-empty list of queries.
#[derive(Debug)]
pub enum Queries {
    Query(Box<Query>),
    Queries(Box<Query>, Box<Queries>),
}

/// One query: `key=value`, or the keyword `functions`.
#[derive(Debug)]
pub enum Query {
    Kv(String, String),
    Fun,
}

/// A predicate on where a match stands; ranges are half-open.
#[derive(Debug)]
pub enum Location {
    Path(String),
    Function(String),
    LineRange(usize, usize),
    CharRange(usize, usize),
    Or(Box<Location>, Box<Location>),
    And(Box<Location>, Box<Location>),
    Not(Box<Location>),
    All,
}

/// The line of position `k`: the newlines among the characters from index 1
/// up to `k` (the first character is not counted, as the line numbering of
/// location predicates has it).
pub open spec fn line_of(input: Seq<char>, k: int) -> nat {
    let hi = if k < input.len() {
        k
    } else {
        input.len() as int
    };
    if hi > 1 {
        count_newlines(input.subrange(1, hi))
    } else {
        0
    }
}

/// Whether a match starting at `start` in `input`, in the file `path`, stands
/// where the predicate `loc` asks.
pub open spec fn check_spec(
    loc: Location,
    input: Seq<char>,
    start: int,
    path: Seq<char>,
    qe: QueryEngine,
) -> bool
    decreases loc,
{
    match loc {
        Location::Path(suffix) => is_suffix(suffix@, path),
        Location::Function(name) => match function_answer(qe.functs@, name@, 0) {
            Some((a, b)) => a <= start < b,
            None => false,
        },
        Location::LineRange(a, b) => a <= line_of(input, start) < b,
        Location::CharRange(a, b) => a <= start < b,
        Location::Or(l, r) => check_spec(*l, input, start, path, qe) || check_spec(
            *r,
            input,
            start,
            path,
            qe,
        ),
        Location::And(l, r) => check_spec(*l, input, start, path, qe) && check_spec(
            *r,
            input,
            start,
            path,
            qe,
        ),
        Location::Not(l) => !check_spec(*l, input, start, path, qe),
        Location::All => true,
    }
}

/// The path suffixes that a predicate names, left to right.
pub open spec fn suffixes(loc: Location) -> Seq<Seq<char>>
    decreases loc,
{
    match loc {
        Location::Path(s) => seq![s@],
        Location::Or(l, r) => suffixes(*l) + suffixes(*r),
        Location::And(l, r) => suffixes(*l) + suffixes(*r),
        Location::Not(l) => suffixes(*l),
        _ => Seq::empty(),
    }
}

impl Location {
    /// Appends to `out` the path suffixes that the predicate names.
    pub fn get_filenames(&self, out: &mut Vec<String>)
        ensures
            final(out)@.map_values(|s: String| s@) == old(out)@.map_values(|s: String| s@)
                + suffixes(*self),
        decreases self,
    {
        match self {
            Location::Path(s) => {
                let ghost before = out@.map_values(|s: String| s@);
                out.push(s.clone());
                assert(out@.map_values(|s: String| s@) =~= before + suffixes(*self));
            },
            Location::Or(l, r) | Location::And(l, r) => {
                let ghost before = out@.map_values(|s: String| s@);
                l.get_filenames(out);
                r.get_filenames(out);
                assert(out@.map_values(|s: String| s@) =~= before + suffixes(*self));
            },
            Location::Not(l) => {
                l.get_filenames(out);
            },
            _ => {
                assert(out@.map_values(|s: String| s@) =~= out@.map_values(|s: String| s@)
                    + suffixes(*self));
            },
        }
    }

    /// Whether a match starting at `start` in `input`, in the file
    /// `path_name`, stands where the predicate asks.
    pub fn check(&self, input: &String, start: usize, path_name: &String, qe: &QueryEngine) -> (r:
        bool)
        ensures
            r == check_spec(*self, input@, start as int, path_name@, *qe),
    {
        let cs = chars_of(input.as_str());
        let ps = chars_of(path_name.as_str());
        self.check_chars(&cs, start, &ps, qe)
    }

    pub fn check_chars(&self, input: &Vec<char>, start: usize, path: &Vec<char>, qe: &QueryEngine) -> (r:
        bool)
        ensures
            r == check_spec(*self, input@, start as int, path@, *qe),
        decreases self,
    {
        match self {
            Location::Function(fun) => {
                match qe.function_location(fun) {
                    Some((fstart, fend)) => start >= fstart && start < fend,
                    None => false,
                }
            },
            Location::CharRange(cstart, cend) => start >= *cstart && start < *cend,
            Location::LineRange(lstart, lend) => {
                let hi = if start < input.len() {
                    start
                } else {
                    input.len()
                };
                let line = if hi > 1 {
                    newlines_between(input, 1, hi)
                } else {
                    0
                };
                line >= *lstart && line < *lend
            },
            Location::Path(suffix) => {
                let sc = chars_of(suffix.as_str());
                ends_with(path, &sc)
            },
            Location::Or(l, r) => l.check_chars(input, start, path, qe) || r.check_chars(
                input,
                start,
                path,
                qe,
            ),
            Location::And(l, r) => l.check_chars(input, start, path, qe) && r.check_chars(
                input,
                start,
                path,
                qe,
            ),
            Location::Not(l) => !l.check_chars(input, start, path, qe),
            Location::All => true,
        }
    }
}

#[derive(Debug)]
pub enum ReplaceItem {
    String(String),
    BackRef(usize),
}

/// A parsed command.
#[derive(Debug)]
pub struct Replace {
    pub find: Box<Regex>,
    pub replace: Box<Replacement>,
    pub global: bool,
    pub location: Box<Location>,
}

/// A command split into its four textual parts.
#[derive(Debug)]
pub struct ReplaceUnparsed {
    pub find: String,
    pub replace: String,
    pub location: String,
    pub global: bool,
}

/// A replacement template.
#[derive(Debug)]
pub struct Replacement {
    pub replacements: Vec<ReplaceItem>,
}

} // verus!
