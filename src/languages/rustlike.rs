//! The scanner for Rust-like languages.
use vstd::prelude::*;
use crate::languages::parsing::{function_view, ident_view, Function, Functions, Identifier, Identifiers};

verus! {

/// A scanner for Rust-like languages. It recognises no declarations yet, so it
/// reports none.
pub struct Rustlike {}

impl Functions for Rustlike {
    open spec fn functions(&self, text: Seq<char>) -> Seq<(Seq<char>, usize, usize)> {
        Seq::empty()
    }

    fn read_functions(&self, _text: &str) -> (r: Vec<Function>) {
        let r = Vec::new();
        assert(r@.map_values(|f: Function| function_view(f)) =~= Seq::<(Seq<char>, usize, usize)>::empty());
        r
    }
}

impl Identifiers for Rustlike {
    open spec fn identifiers(&self, text: Seq<char>) -> Seq<(Seq<char>, Seq<char>, usize, usize)> {
        Seq::empty()
    }

    fn read_identifiers(&self, _text: &str) -> (r: Vec<Identifier>) {
        let r = Vec::new();
        assert(r@.map_values(|i: Identifier| ident_view(i)) =~= Seq::<(Seq<char>, Seq<char>, usize, usize)>::empty());
        r
    }
}

} // verus!
