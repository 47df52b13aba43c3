use semrep::error::ErrorKind;
use semrep::regexparser;
use semrep::regexparser::ast::{Location, ReplaceItem};
use semrep::regexparser::grammar::parse_regex;
use semrep::regexparser::location::parse_location;
use semrep::regexparser::parse_set;
use semrep::regexparser::parsecommand;
use semrep::regexparser::parsereplacement;
use semrep::regexparser::queries::parse_queries;

#[test]
fn parsing_reg() {
    assert!(parse_regex("a|b|c").is_ok());
    assert!(parse_regex("abc").is_ok());
    assert!(parse_regex("ab-c").is_ok());
    assert!(parse_regex("a=bc").is_ok());
    assert!(parse_regex("\\-").is_ok());
    assert!(parse_regex("[a-c]").is_ok());
    assert!(parse_regex("\\n").is_ok());
    assert!(parse_regex("[[name=x,type=int]]").is_ok());
    assert!(parse_regex("[[functions]]").is_ok());
    assert!(parse_regex("a|b|(").is_err());
    assert!(parse_regex("[[]]").is_err());
}

#[test]
fn parsing_set() {
    assert!(parse_set("abc").is_ok());
    assert!(parse_set("a-c").is_ok());
    assert!(parse_set("abc-d").is_ok());
    assert!(parse_set("ab-cd").is_ok());
    assert!(parse_set("\\n").is_ok());
    assert!(parse_set("name=x,type=int").is_ok());
    assert!(parse_set("functions").is_ok());
    assert!(parse_set("fun").is_ok());
    assert!(parse_set("abc-").is_err());
}

#[test]
fn parsing_query() {
    assert!(parse_queries("name=x").is_ok());
    assert!(parse_queries("name=x,type=int").is_ok());
    assert!(parse_queries("functions").is_ok());
    assert!(parse_queries("fun").is_err());
}

#[test]
fn parsing_location() {
    assert!(parse_location("<../../../>").is_ok());
    assert!(parse_location("{function}").is_ok());
    assert!(parse_location("{function}|l1-5").is_ok());
    assert!(parse_location("{function}&l1-5").is_ok());
    assert!(parse_location("^{function}|l1-5").is_ok());
    assert!(parse_location("(^{function}|l1-5)").is_ok());
    assert!(parse_location("l0-2").is_ok());
    assert!(parse_location("c0-2").is_ok());
    assert!(parse_location("%").is_ok());
    assert!(parse_location("%:").is_err());
}

#[test]
fn parsing_entire() {
    assert!(regexparser::parse("%s/westoff/Westhoff").is_err());
    assert!(regexparser::parse("%s/westoff/Westhoff/").is_ok());
    assert!(regexparser::parse("<mod.rs>s/jon/John/g").is_ok());
}

#[test]
fn parsing_command() {
    assert!(parsecommand::parse("%s/westoff/Westhoff").is_err());
    assert!(parsecommand::parse("").is_err());
    assert!(parsecommand::parse("%b/westoff/Westhoff/").is_err());
    let parsed = parsecommand::parse("%s/westoff/Westhoff/");
    assert!(parsed.is_ok());
    let x = parsed.unwrap();
    assert_eq!(x.location, "%");
    assert_eq!(x.find, "westoff");
    assert_eq!(x.replace, "Westhoff");
    assert_eq!(x.global, false);
    let parsed = parsecommand::parse("mod.rs:s/jon/John/g");
    assert!(parsed.is_ok());
    let x = parsed.unwrap();
    assert_eq!(x.location, "mod.rs:");
    assert_eq!(x.find, "jon");
    assert_eq!(x.replace, "John");
    assert_eq!(x.global, true);
}

#[test]
fn parsing_replacement() -> Result<(), Box<dyn std::error::Error>> {
    let parsed = parsereplacement::parse("bob\\\\\\13dole").unwrap();
    if let ReplaceItem::String(s) = parsed.replacements.get(0).ok_or("sad")? {
        assert_eq!(s, "bob");
    } else {
        panic!("Expected a string, but didn't get it");
    }
    if let ReplaceItem::String(s) = parsed.replacements.get(1).ok_or("sad")? {
        assert_eq!(s, "\\\\");
    } else {
        panic!("Expected a string, but didn't get it");
    }
    if let ReplaceItem::BackRef(x) = parsed.replacements.get(2).ok_or("sad")? {
        assert_eq!(*x, 13);
    } else {
        panic!("Expected a string, but didn't get it");
    }
    if let ReplaceItem::String(s) = parsed.replacements.get(3).ok_or("sad")? {
        assert_eq!(s, "dole");
    } else {
        panic!("Expected a string, but didn't get it");
    }
    assert_eq!(parsed.replacements.len(), 4);
    Ok(())
}

#[test]
fn command_errors_have_their_kinds() {
    assert_eq!(regexparser::parse("%s/a/b/x").unwrap_err(), ErrorKind::CommandSyntax);
    assert_eq!(regexparser::parse("%:s/a/b/").unwrap_err(), ErrorKind::LocationSyntax);
    assert_eq!(regexparser::parse("%s/a(/b/").unwrap_err(), ErrorKind::RegexSyntax);
    assert_eq!(regexparser::parse("%s/a/\\99999999999/").unwrap_err(), ErrorKind::ReplacementSyntax);
    assert_eq!(parse_queries("a,,b").unwrap_err(), ErrorKind::QueryMalformed);
}

#[test]
fn escaped_slash_stays_in_portion() {
    let x = parsecommand::parse("%s/a\\/b/c/").unwrap();
    assert_eq!(x.find, "a\\/b");
    assert_eq!(x.replace, "c");
}

#[test]
fn location_parses_to_expected_tree() {
    match *parse_location("l3-15").unwrap() {
        Location::LineRange(a, b) => assert_eq!((a, b), (3, 15)),
        _ => panic!("expected a line range"),
    }
    match *parse_location("^<x.rs>&{main}").unwrap() {
        Location::And(l, r) => {
            assert!(matches!(*l, Location::Not(_)));
            assert!(matches!(*r, Location::Function(ref f) if f == "main"));
        }
        _ => panic!("expected a conjunction"),
    }
}

#[test]
fn backslash_without_digits_is_literal() {
    let parsed = parsereplacement::parse("a\\xb").unwrap();
    assert_eq!(parsed.replacements.len(), 2);
    assert!(matches!(&parsed.replacements[0], ReplaceItem::String(s) if s == "a"));
    assert!(matches!(&parsed.replacements[1], ReplaceItem::String(s) if s == "\\xb"));
}
