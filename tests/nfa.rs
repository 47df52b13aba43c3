use semrep::nfa::context::Context;
use semrep::nfa::dfa::nfa_to_dfa;
use semrep::nfa::queryengine::QueryEngine;
use semrep::nfa::{Nfa, Node, NodePointer, NodeType};
use semrep::regex2nfa::build_nfa;
use semrep::regexparser;

#[test]
fn test_nfa_insert() {
    let mut nfa = Nfa::new(Vec::new());
    nfa.add_node(Node::new());
    nfa.add_node(Node::new());
    nfa.add_node(Node::new());
    assert_eq!(nfa.nodes.len(), 3);
}

#[test]
fn test_nfa_alpha_transition() {
    let mut nfa = Nfa::new(Vec::new());
    let a = nfa.add_node(Node::new());
    let b = nfa.add_node(Node::new());
    nfa.add_transition_alpha(&a, &b, 'a').unwrap();
    let mut ctx = Context::new(vec![a]);
    ctx.step(&nfa, 'b', &QueryEngine::new());
    assert_eq!(ctx.nodes.len(), 0);
    let mut ctx = Context::new(vec![a]);
    ctx.step(&nfa, 'a', &QueryEngine::new());
    assert_eq!(ctx.nodes.len(), 1);
    assert!(ctx.nodes.contains(&b));
}

#[test]
fn test_nfa_epsilon_transition() {
    let mut nfa = Nfa::new(Vec::new());
    let a = nfa.new_node();
    let b = nfa.new_node();
    let c = nfa.new_node();
    nfa.add_transition_alpha(&a, &b, 'a').unwrap();
    nfa.add_transition_epsilon(&b, &c).unwrap();
    let mut ctx = Context::new(vec![a]);
    ctx.step(&nfa, 'b', &QueryEngine::new());
    assert_eq!(ctx.nodes.len(), 0);
    let mut ctx = Context::new(vec![a]);
    ctx.step(&nfa, 'a', &QueryEngine::new());
    assert_eq!(ctx.nodes.len(), 2);
    assert!(ctx.nodes.contains(&b));
    assert!(ctx.nodes.contains(&c));
}

fn accepts_nfa(pattern: &str, text: &str) -> bool {
    let regex = regexparser::parse(pattern).unwrap();
    let (nfa, start, end) = build_nfa(&regex.find);
    let mut ctx = Context::new(Vec::new());
    ctx.add_epsilons(vec![start], &nfa);
    for c in text.chars() {
        ctx.step(&nfa, c, &QueryEngine::new());
    }
    ctx.contains(&end)
}

#[test]
fn test_regex() {
    assert!(accepts_nfa("%s/bob|joe|e*//g", "bob"));
    assert!(!accepts_nfa("%s/bob|joe|e*//g", "bobd"));
    assert!(!accepts_nfa("%s/bob|joe|e*//g", "bo"));
    assert!(accepts_nfa("%s/bob|joe|e*//g", "eeeeeeeeee"));
}

#[test]
fn add_transition_from_missing_node_fails() {
    let mut nfa = Nfa::new(Vec::new());
    let a = nfa.new_node();
    let missing = NodePointer::new(7);
    assert!(nfa.add_transition_alpha(&missing, &a, 'x').is_err());
    assert!(nfa.add_transition_epsilon(&a, &a).is_ok());
    assert_eq!(nfa.nodes[0].transitions.len(), 1);
}

#[test]
fn add_group_numbers_groups_from_one() {
    let mut nfa = Nfa::new(Vec::new());
    let a = nfa.new_node();
    let b = nfa.new_node();
    nfa.add_group(&a, &b, &b, &a).unwrap();
    nfa.add_group(&a, &b, &b, &a).unwrap();
    assert_eq!(nfa.index, 2);
}

#[test]
fn e_closure_is_sorted_and_complete() {
    let mut nfa = Nfa::new(Vec::new());
    let a = nfa.new_node();
    let b = nfa.new_node();
    let c = nfa.new_node();
    let d = nfa.new_node();
    nfa.add_transition_epsilon(&a, &c).unwrap();
    nfa.add_transition_epsilon(&c, &b).unwrap();
    nfa.add_transition_alpha(&b, &d, 'x').unwrap();
    assert_eq!(nfa.e_closure(a.id), vec![0, 1, 2]);
    assert_eq!(nfa.e_closure(d.id), vec![3]);
}

fn accepts_dfa(pattern: &str, text: &str) -> bool {
    let regex = regexparser::parse(pattern).unwrap();
    let (nfa, start, end) = build_nfa(&regex.find);
    let (dfa, dstart, _dend) = nfa_to_dfa(&nfa, &start, &end);
    let mut ctx = Context::new(Vec::new());
    ctx.add_epsilons(vec![dstart], &dfa);
    for c in text.chars() {
        ctx.step(&dfa, c, &QueryEngine::new());
    }
    ctx.nodes.iter().any(|n| dfa.nodes[n.id].nt == NodeType::Accept)
}

#[test]
fn dfa_accepts_what_nfa_accepts_on_samples() {
    let patterns = ["%s/bob|joe|e*//g", "%s/jo+e//g", "%s/[a-c]*d//g", "%s/[^x]x//g", "%s/a(b|c)*//g"];
    let samples = ["", "bob", "joe", "jooe", "je", "eee", "abcd", "d", "yx", "xx", "abcb", "a", "bo"];
    for p in patterns.iter() {
        for s in samples.iter() {
            assert_eq!(accepts_nfa(p, s), accepts_dfa(p, s), "pattern {} on {:?}", p, s);
        }
    }
}
