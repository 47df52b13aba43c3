use semrep::languages::parsing::Identifier;
use semrep::nfa::matcher::find;
use semrep::nfa::queryengine::QueryEngine;
use semrep::regexparser;

#[test]
fn mod_test_find() {
    let regex = regexparser::parse("%s/bob|joe|e*//g").unwrap().find;
    assert_eq!(semrep::matcher::find(&"bob dole".to_string(), &regex).len(), 2);
    let regex = regexparser::parse("%s/bob|joe|e*//g").unwrap().find;
    assert_eq!(semrep::matcher::find(&"bo".to_string(), &regex).len(), 0);
    let regex = regexparser::parse("%s/bob|joe|e*//g").unwrap().find;
    assert_eq!(semrep::matcher::find(&"joee".to_string(), &regex).len(), 4);
}

#[test]
fn matches_are_ordered_and_disjoint() {
    let regex = regexparser::parse("%s/o+|jo|e//g").unwrap().find;
    let mut qe = QueryEngine::new();
    let text = "joe jooe oooe".to_string();
    let ms = find(&mut qe, &text, &regex);
    assert!(ms.len() >= 3);
    for w in ms.windows(2) {
        assert!(w[0].start() + w[0].len() <= w[1].start());
    }
    for m in ms.iter() {
        assert!(m.len() > 0);
    }
}

#[test]
fn groups_lie_within_their_match() {
    let regex = regexparser::parse("%s/(o*)o//g").unwrap().find;
    let mut qe = QueryEngine::new();
    let text = "xooooo".to_string();
    let ms = find(&mut qe, &text, &regex);
    assert_eq!(ms.len(), 1);
    let m = &ms[0];
    assert_eq!(m.start(), 1);
    for g in m.groups.iter() {
        assert!(m.start() <= g.start);
        assert!(g.start + g.len <= m.start() + m.len());
        assert!(g.start + g.len <= text.chars().count());
    }
}

#[test]
fn result_without_query_sets_ignores_the_query_engine() {
    let regex = regexparser::parse("%s/jo+e|(b)*//g").unwrap().find;
    let text = "jooe bb joe".to_string();
    let mut empty = QueryEngine::new();
    let mut full = QueryEngine::new();
    full.idents.push(Identifier::new("jooe".into(), "int".into(), 0, 4));
    let a = find(&mut empty, &text, &regex);
    let b = find(&mut full, &text, &regex);
    assert_eq!(a.len(), b.len());
    for (x, y) in a.iter().zip(b.iter()) {
        assert_eq!((x.start(), x.len()), (y.start(), y.len()));
    }
}

#[test]
fn zero_length_matches_are_not_reported() {
    let regex = regexparser::parse("%s/a*//g").unwrap().find;
    let mut qe = QueryEngine::new();
    let ms = find(&mut qe, &"bab".to_string(), &regex);
    assert_eq!(ms.len(), 1);
    assert_eq!((ms[0].start(), ms[0].len()), (1, 1));
}

#[test]
fn get_group_reads_group_text() {
    let regex = regexparser::parse("%s/a(b+)c//g").unwrap().find;
    let mut qe = QueryEngine::new();
    let text = "xabbbc".to_string();
    let ms = find(&mut qe, &text, &regex);
    assert_eq!(ms.len(), 1);
    assert_eq!(ms[0].get_group(1, &text), "bbb");
    assert_eq!(ms[0].get_group(5, &text), "");
}
