use semrep::languages::parsing::Identifier;
use semrep::nfa::matcher::{find, Match};
use semrep::nfa::queryengine::QueryEngine;
use semrep::nfa::replacer::{replace, replace_matches, replace_to_string};
use semrep::regexparser;
use semrep::regexparser::ast::{ReplaceItem, Replacement};

fn run(command: &str, input: &str) -> String {
    let regex = regexparser::parse(command).unwrap();
    replace(&"".into(), &input.into(), &regex, |_: &str, _: &str| true).unwrap().0
}

#[test]
fn test_replace_to_string() {
    let m = Match::new(0, 0, vec![]);
    let x = Replacement {
        replacements: vec![
            ReplaceItem::String("hello".into()),
            ReplaceItem::String(" ".into()),
            ReplaceItem::String("world".into()),
            ReplaceItem::String("!".into()),
        ],
    };
    assert_eq!(replace_to_string(&x, &m, &"".to_string()), "hello world!");
}

#[test]
fn test_replace() {
    assert_eq!(run("%s/bill/bob/g", "joejoe"), "joejoe");
    assert_eq!(run("%s/(joe)|(bob)|(a*)/bob/g", "joejoe"), "bobbob");
    assert_eq!(run("%s/bob|joe|e*/jack/g", "joee"), "jackjack");
    assert_eq!(run("%s/bob|joe|e*/o/g", "joeejoe"), "ooo");
    assert_eq!(run("%s/(joe)*/bob/g", "joejoejoejo"), "bobjo");
    assert_eq!(run("%s/(joe)*/bob/g", "eee"), "eee");
    assert_eq!(run("%s/jo*e/bob/g", "jejoejooeej"), "bobbobbobej");
    assert_eq!(run("%s/jo+e/bob/g", "jejoejooeej"), "jebobbobej");
    assert_eq!(run("%s/[a-z]*/bob/g", "-2607"), "-2607");
    assert_eq!(run("%s/[a-z]*/bob/g", "-2e6f0z7a"), "-2bob6bob0bob7bob");
    assert_eq!(run("%s/[^a-z]*/bob/g", "joe"), "joe");
    assert_eq!(run("%s/[^a-z]*/bob/g", "2607"), "bob");
}

#[test]
fn test_replace_backref() {
    assert_eq!(run("%s/(1)/\\1\\1/g", "1"), "11");
}

#[test]
fn test_pos() {
    assert_eq!(run("%s/[[pos=0:3]]/bob/g", "joejoe"), "bobjoe");
    assert_eq!(run("%s/[[pos=1:3]]/bob/g", "joejoe"), "jboboe");
    assert_eq!(run("%s/[[pos=2:1]]joe/bob/g", "joejoe"), "jobob");
}

#[test]
fn empty_pattern_leaves_input_unchanged() {
    let regex = regexparser::parse("%s//bob/g").unwrap();
    let (out, changed) = replace(&"".into(), &"joejoe".into(), &regex, |_: &str, _: &str| true).unwrap();
    assert_eq!(out, "joejoe");
    assert!(!changed);
}

#[test]
fn rejecting_acceptor_changes_nothing() {
    let regex = regexparser::parse("%s/joe/bob/g").unwrap();
    let (out, changed) = replace(&"".into(), &"joejoe".into(), &regex, |_: &str, _: &str| false).unwrap();
    assert_eq!(out, "joejoe");
    assert!(!changed);
}

#[test]
fn acceptor_sees_match_and_replacement() {
    let regex = regexparser::parse("%s/jo+e/[&]/g").unwrap();
    let (out, changed) = replace(&"".into(), &"joe jooe".into(), &regex, |before: &str, after: &str| {
        before == "jooe" && after == "[&]"
    })
    .unwrap();
    assert_eq!(out, "joe [&]");
    assert!(changed);
}

#[test]
fn location_char_range_gates_rewrites() {
    let regex = regexparser::parse("c3-9s/joe/bob/g").unwrap();
    assert_eq!(replace(&"".into(), &"joejoejoe".into(), &regex, |_: &str, _: &str| true).unwrap().0, "joebobbob");
    let regex = regexparser::parse("^c3-9s/joe/bob/g").unwrap();
    assert_eq!(replace(&"".into(), &"joejoejoe".into(), &regex, |_: &str, _: &str| true).unwrap().0, "bobjoejoe");
}

#[test]
fn location_path_suffix_gates_rewrites() {
    let regex = regexparser::parse("<.rs>s/joe/bob/g").unwrap();
    assert_eq!(replace(&"src/x.rs".into(), &"joe".into(), &regex, |_: &str, _: &str| true).unwrap().0, "bob");
    assert_eq!(replace(&"src/x.java".into(), &"joe".into(), &regex, |_: &str, _: &str| true).unwrap().0, "joe");
}

#[test]
fn location_line_range_skips_first_character() {
    let regex = regexparser::parse("l1-2s/a/b/g").unwrap();
    assert_eq!(replace(&"".into(), &"a\na\na".into(), &regex, |_: &str, _: &str| true).unwrap().0, "a\nb\na");
    let regex = regexparser::parse("l0-1s/a/b/g").unwrap();
    assert_eq!(replace(&"".into(), &"\na".into(), &regex, |_: &str, _: &str| true).unwrap().0, "\nb");
}

#[test]
fn location_function_uses_scanned_bodies() {
    let text = "void f() { int a; a = 1; }\nint a;";
    let regex = regexparser::parse("{f}s/a/b/g").unwrap();
    let out = replace(&"".into(), &text.into(), &regex, |_: &str, _: &str| true).unwrap().0;
    assert_eq!(out, "void f() { int b; b = 1; }\nint a;");
}

#[test]
fn query_past_end_is_a_buffer_error() {
    let regex = regexparser::parse("%s/[[pos=1:9]]/x/g").unwrap();
    assert_eq!(
        replace(&"".into(), &"joe".into(), &regex, |_: &str, _: &str| true),
        Err(semrep::error::ErrorKind::BufferBounds)
    );
}

#[test]
fn type_query_rewrites_the_identifier_span() {
    let mut text: String = std::iter::repeat('x').take(601).collect();
    text.push_str("me = other;");
    let mut qe = QueryEngine::new();
    qe.idents.push(Identifier::new("me".into(), "Session".into(), 601, 603));
    let regex = regexparser::parse("%s/[[type=Session]]/sess/g").unwrap();
    let matches = find(&mut qe, &text, &regex.find);
    assert_eq!(matches.len(), 1);
    assert_eq!(matches[0].start(), 601);
    assert_eq!(matches[0].len(), 2);
    qe.set_offset(0);
    let (out, changed) = replace_matches(&qe, &"".into(), &text, &matches, &regex, &|_: &str, _: &str| true).unwrap();
    let mut expected: String = std::iter::repeat('x').take(601).collect();
    expected.push_str("sess = other;");
    assert_eq!(out, expected);
    assert!(changed);
}

#[test]
fn output_length_follows_replacements() {
    let input = "jejoejooeej";
    let out = run("%s/jo+e/bobby/g", input);
    // two matches, of lengths 3 and 4, each replaced by 5 characters
    assert_eq!(out.chars().count(), input.chars().count() + (5 - 3) + (5 - 4));
    assert_eq!(out, "jebobbybobbyej");
}

#[test]
fn replacing_with_same_text_keeps_input() {
    let regex = regexparser::parse("%s/joe/joe/g").unwrap();
    let (out, _) = replace(&"".into(), &"a joe and joe".into(), &regex, |_: &str, _: &str| true).unwrap();
    assert_eq!(out, "a joe and joe");
    let regex = regexparser::parse("%s/(o+)/\\1/g").unwrap();
    let (out, _) = replace(&"".into(), &"foo boo".into(), &regex, |_: &str, _: &str| true).unwrap();
    assert_eq!(out, "foo boo");
}

#[test]
fn backreference_to_missing_group_is_empty() {
    assert_eq!(run("%s/a/<\\3>/g", "xa"), "x<>");
}
