//! The records that language scanners report, and the traits they implement.
use vstd::prelude::*;

verus! {

/// What the scanners report for one file.
pub struct Info {
    pub filename: String,
    pub functions: Vec<Function>,
    pub identifiers: Vec<Identifier>,
}

impl Info {
    pub fn new(filename: String, functions: Vec<Function>, identifiers: Vec<Identifier>) -> (r:
        Self)
        ensures
            r.filename == filename,
            r.functions == functions,
            r.identifiers == identifiers,
    {
        Self { filename, functions, identifiers }
    }
}

/// A named function: `start` is the offset of the opening brace of its body and
/// `end` the offset one past the closing brace.
#[derive(Debug)]
pub struct Function {
    pub name: String,
    pub start: usize,
    pub end: usize,
}

/// A typed identifier occupying the half-open span `[start, end)` of the source.
#[derive(Debug)]
pub struct Identifier {
    pub name: String,
    pub typ: String,
    pub start: usize,
    pub end: usize,
}

/// A function record seen as plain values: name, body start, body end.
pub open spec fn function_view(f: Function) -> (Seq<char>, usize, usize) {
    (f.name@, f.start, f.end)
}

/// An identifier record seen as plain values: name, type, start, end.
pub open spec fn ident_view(i: Identifier) -> (Seq<char>, Seq<char>, usize, usize) {
    (i.name@, i.typ@, i.start, i.end)
}

/// A scanner for languages with named functions.
pub trait Functions {
    /// The functions that the scanner reports for `text`.
    spec fn functions(&self, text: Seq<char>) -> Seq<(Seq<char>, usize, usize)>;

    /// Every named function declared in `text`.
    fn read_functions(&self, text: &str) -> (r: Vec<Function>)
        ensures
            r@.map_values(|f: Function| function_view(f)) == self.functions(text@),
    ;
}

/// A scanner for languages whose identifiers have statically known types.
pub trait Identifiers {
    /// The identifiers that the scanner reports for `text`.
    spec fn identifiers(&self, text: Seq<char>) -> Seq<(Seq<char>, Seq<char>, usize, usize)>;

    /// Every use or declaration of a typed identifier in `text`.
    fn read_identifiers(&self, text: &str) -> (r: Vec<Identifier>)
        ensures
            r@.map_values(|i: Identifier| ident_view(i)) == self.identifiers(text@),
    ;
}

impl Identifier {
    pub fn new(name: String, typ: String, start: usize, end: usize) -> (r: Self)
        ensures
            r.name == name,
            r.typ == typ,
            r.start == start,
            r.end == end,
    {
        Self { name, typ: typ, start, end }
    }
}

impl Function {
    pub fn new(name: String, start: usize, end: usize) -> (r: Self)
        ensures
            r.name == name,
            r.start == start,
            r.end == end,
    {
        Self { name, start, end }
    }
}

} // verus!
