use semrep::languages::clike::Clike;
use semrep::languages::parsing::{Functions, Identifiers};
use semrep::nfa::queryengine::QueryEngine;

#[test]
fn clike_reserved_words() {
    assert!(Clike::is_allowed("bob"));
    assert!(!Clike::is_allowed("private"));
    assert!(!Clike::is_allowed("extends"));
}

#[test]
fn clike_finds_declarations_and_uses() {
    let text = "class A { Session me; void f() { me.go(); } }";
    let ids = Clike {}.read_identifiers(text);
    let found: Vec<(String, String, usize, usize)> =
        ids.iter().map(|i| (i.name.clone(), i.typ.clone(), i.start, i.end)).collect();
    assert!(found.contains(&("me".to_string(), "Session".to_string(), 18, 20)));
    assert!(found.contains(&("me".to_string(), "Session".to_string(), 33, 35)));
    for i in ids.iter() {
        let span: String = text.chars().skip(i.start).take(i.end - i.start).collect();
        assert_eq!(span, i.name);
    }
}

#[test]
fn clike_finds_function_bodies() {
    let text = "int main() { if (x) { y(); } return 0; }";
    let fs = Clike {}.read_functions(text);
    assert_eq!(fs.len(), 1);
    assert_eq!(fs[0].name, "main");
    assert_eq!(fs[0].end, text.chars().count());
}

#[test]
fn query_engine_answers_queries() {
    let text = "void f() { Session me; }";
    let qe = QueryEngine::build(&text.to_string(), &Clike {}, &Clike {});
    assert_eq!(qe.query(19, &"type=Session".to_string()), Some(21));
    assert_eq!(qe.query(19, &"name=me,type=Session".to_string()), Some(21));
    assert_eq!(qe.query(19, &"name=you".to_string()), None);
    assert_eq!(qe.query(4, &"pos=4:2".to_string()), Some(2));
    assert_eq!(qe.query(5, &"name=me,pos=4:2".to_string()), None);
    assert_eq!(qe.query(4, &"fun".to_string()), None);
    assert_eq!(qe.function_location(&"f".to_string()), Some((9, 24)));
    assert_eq!(qe.function_location(&"g".to_string()), None);
}

#[test]
fn whitespace_agrees_with_std_on_every_char() {
    for code in 0u32..=0x10FFFF {
        if let Some(c) = char::from_u32(code) {
            assert_eq!(semrep::languages::clike::is_whitespace(c), c.is_whitespace(), "{:?}", c);
        }
    }
}
