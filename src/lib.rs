//! A search-and-replace engine whose patterns can ask about program structure.
pub mod editing;
pub mod error;
pub mod languages;
pub mod matcher;
pub mod nfa;
pub mod regex2nfa;
pub mod regexparser;
pub mod text;
