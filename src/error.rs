use vstd::prelude::*;

verus! {

/// The kinds of failure that the engine reports.
#[derive(Debug, Clone, Copy, PartialEq, Eq, Structural)]
pub enum ErrorKind {
    /// The command is not of the shape `LOCATIONs/FIND/REPLACE/[g]`.
    CommandSyntax,
    /// The pattern does not follow the regular-expression grammar.
    RegexSyntax,
    /// The location predicate does not follow its grammar.
    LocationSyntax,
    /// A back-reference in the replacement is malformed.
    ReplacementSyntax,
    /// A text-buffer access reaches past the end of the buffer.
    BufferBounds,
    /// A query-set body cannot be parsed.
    QueryMalformed,
    /// A transition would leave a node that the automaton does not have.
    InvalidNode,
}

} // verus!
