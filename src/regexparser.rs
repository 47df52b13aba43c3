//! Parsing of commands, patterns, location predicates and replacements.
pub mod ast;
pub mod grammar;
pub mod location;
pub mod parsecommand;
pub mod parsereplacement;
pub mod queries;

pub use grammar::parse_set;

use vstd::prelude::*;
use crate::error::ErrorKind;
use ast::{Basic, Elementary, Location, Regex, Replace, Replacement, Simple};
use grammar::{parse_regex, print_regex, rc_regex};
use location::{loc_text, parse_location, rc_loc};
use parsecommand::command_parts;
use parsereplacement::{item_view, items_from};

verus! {

/// The pattern that matches nothing, which an empty pattern stands for.
pub open spec fn nothing_regex() -> Regex {
    Regex::Simple(Box::new(Simple::Basic(Box::new(Basic::Elementary(Box::new(Elementary::Nothing))))))
}

/// Parses a command `LOCATIONs/FIND/REPLACE/[g]` and each of its parts.
///
/// It fails with the kind of the first part that is malformed: the command's
/// shape, the location, the pattern, then the replacement. An empty pattern
/// stands for the pattern that matches nothing.
pub fn parse(text: &str) -> (r: Result<Replace, ErrorKind>)
    ensures
        command_parts(text@) is None ==> r == Err::<Replace, ErrorKind>(ErrorKind::CommandSyntax),
        command_parts(text@) matches Some((l, f, p, g)) ==> {
            &&& (r matches Ok(rep) ==> {
                &&& loc_text(*rep.location, l)
                &&& (f.len() == 0 ==> *rep.find == nothing_regex())
                &&& (f.len() > 0 ==> print_regex(*rep.find) == f)
                &&& items_from(p, 0) == Some(
                    rep.replace.replacements@.map_values(|i: ast::ReplaceItem| item_view(i)),
                )
                &&& rep.global == g
            })
            &&& (rc_loc(l, 0) != Some(l.len() as int) ==> r == Err::<Replace, ErrorKind>(
                ErrorKind::LocationSyntax,
            ))
            &&& (rc_loc(l, 0) == Some(l.len() as int) && f.len() > 0 && rc_regex(f, 0) != Some(
                f.len() as int,
            ) ==> r == Err::<Replace, ErrorKind>(ErrorKind::RegexSyntax))
            &&& (rc_loc(l, 0) == Some(l.len() as int) && (f.len() == 0 || rc_regex(f, 0) == Some(
                f.len() as int,
            )) ==> (r is Ok <==> items_from(p, 0) is Some))
            &&& (r matches Err(e) ==> e == ErrorKind::LocationSyntax || e == ErrorKind::RegexSyntax
                || (e == ErrorKind::ReplacementSyntax && items_from(p, 0) is None))
        },
{
    let n = crate::text::chars_of(text).len();
    let ru = match parsecommand::parse(text) {
        Ok(ru) => ru,
        Err(e) => return Err(e),
    };
    let location = match parse_location(ru.location.as_str()) {
        Ok(l) => l,
        Err(e) => return Err(e),
    };
    let find = if crate::text::chars_of(ru.find.as_str()).len() == 0 {
        Box::new(
            Regex::Simple(
                Box::new(Simple::Basic(Box::new(Basic::Elementary(Box::new(Elementary::Nothing))))),
            ),
        )
    } else {
        match parse_regex(ru.find.as_str()) {
            Ok(f) => f,
            Err(e) => return Err(e),
        }
    };
    proof {
        parsecommand::lemma_portion_end_bounds(text@, 0, 0);
        let a = parsecommand::portion_end(text@, 0, 0).unwrap();
        parsecommand::lemma_portion_end_bounds(text@, a + 1, a + 1);
        let b = parsecommand::portion_end(text@, a + 1, a + 1).unwrap();
        parsecommand::lemma_portion_end_bounds(text@, b + 1, b + 1);
    }
    let replace = match parsereplacement::parse(ru.replace.as_str()) {
        Ok(r) => r,
        Err(e) => return Err(e),
    };
    Ok(Replace { location, find, replace: Box::new(replace), global: ru.global })
}

/// Parses a renaming: the pattern `fromname` for file names, and the
/// replacement `rename`; it applies everywhere and to every match.
pub fn parse_rename(fromname: &str, rename: &str) -> (r: Result<Replace, ErrorKind>)
    requires
        rename@.len() < usize::MAX,
    ensures
        r matches Ok(rep) ==> {
            &&& *rep.location == Location::All
            &&& print_regex(*rep.find) == fromname@
            &&& items_from(rename@, 0) == Some(
                rep.replace.replacements@.map_values(|i: ast::ReplaceItem| item_view(i)),
            )
            &&& rep.global
        },
        r is Ok <==> (rc_regex(fromname@, 0) == Some(fromname@.len() as int) && items_from(
            rename@,
            0,
        ) is Some),
{
    let location = Box::new(Location::All);
    let find = match parse_regex(fromname) {
        Ok(f) => f,
        Err(e) => return Err(e),
    };
    let replace = match parsereplacement::parse(rename) {
        Ok(r) => r,
        Err(e) => return Err(e),
    };
    Ok(Replace { location, find, replace: Box::new(replace), global: true })
}

} // verus!
