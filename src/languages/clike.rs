//! The scanner for C-like languages (C, C++, Java).
use vstd::prelude::*;
use crate::languages::parsing::{function_view, ident_view, Function, Functions, Identifier, Identifiers};
use crate::text::{chars_eq, chars_of, slice_of, string_of};

verus! {

/// A scanner for C-like languages.
pub struct Clike {}

/// What `char::is_alphanumeric` answers for `c`.
pub uninterp spec fn alphanumeric(c: char) -> bool;

/// What `char::is_alphabetic` answers for `c`.
pub uninterp spec fn alphabetic(c: char) -> bool;

/// Whether `c` has the Unicode White_Space property, as `char::is_whitespace`
/// answers: tab to carriage return, space, next line, no-break space, ogham
/// space mark, en quad to hair space, line and paragraph separators, narrow
/// no-break space, medium mathematical space and ideographic space.
pub open spec fn whitespace(c: char) -> bool {
    let n = c as u32;
    (0x9 <= n && n <= 0xD) || n == 0x20 || n == 0x85 || n == 0xA0 || n == 0x1680 || (0x2000 <= n
        && n <= 0x200A) || n == 0x2028 || n == 0x2029 || n == 0x202F || n == 0x205F || n == 0x3000
}

/// Relies on `char::is_alphanumeric`, which depends on `c` alone.
#[verifier::external_body]
fn is_alphanumeric(c: char) -> (r: bool)
    ensures
        r == alphanumeric(c),
{
    c.is_alphanumeric()
}

/// Relies on `char::is_alphabetic`, which depends on `c` alone.
#[verifier::external_body]
fn is_alphabetic(c: char) -> (r: bool)
    ensures
        r == alphabetic(c),
{
    c.is_alphabetic()
}

/// Whether `c` is white space.
pub fn is_whitespace(c: char) -> (r: bool)
    ensures
        r == whitespace(c),
{
    let n = c as u32;
    (0x9 <= n && n <= 0xD) || n == 0x20 || n == 0x85 || n == 0xA0 || n == 0x1680 || (0x2000 <= n
        && n <= 0x200A) || n == 0x2028 || n == 0x2029 || n == 0x202F || n == 0x205F || n == 0x3000
}

/// The words that are never reported as an identifier or a type.
pub open spec fn reserved_words() -> Seq<Seq<char>> {
    seq![
        seq!['p', 'u', 'b', 'l', 'i', 'c'],
        seq!['p', 'a', 'c', 'k', 'a', 'g', 'e'],
        seq!['p', 'r', 'i', 'v', 'a', 't', 'e'],
        seq!['p', 'r', 'o', 't', 'e', 'c', 't', 'e', 'd'],
        seq!['i', 'm', 'p', 'o', 'r', 't'],
        seq!['v', 'o', 'i', 'd'],
        seq!['t', 'r', 'u', 'e'],
        seq!['f', 'a', 'l', 's', 'e'],
        seq!['e', 'x', 't', 'e', 'n', 'd', 's'],
    ]
}

pub open spec fn allowed(x: Seq<char>) -> bool {
    !reserved_words().contains(x)
}

/// The states of the function scanner.
pub enum FunctionFsm {
    Name,
    Space,
    Brace,
    Inner,
    NoState,
    Parens(i64),
}

/// The states of the identifier scanner.
pub enum IFsm {
    NoState,
    Name1,
    Space,
    Name2,
    Dot,
}

/// What the function scanner has seen after a prefix of the text.
pub struct FnScan {
    pub s: FunctionFsm,
    pub start: usize,
    pub end: usize,
    pub start_body: usize,
    pub braces: usize,
    pub out: Seq<(Seq<char>, usize, usize)>,
}

/// One step of the function scanner, on the character at `i`.
pub open spec fn fn_step(text: Seq<char>, st: FnScan, i: int) -> FnScan {
    let c = text[i];
    match st.s {
        FunctionFsm::NoState => if alphanumeric(c) {
            FnScan { s: FunctionFsm::Name, start: i as usize, ..st }
        } else {
            st
        },
        FunctionFsm::Name => if c == '(' {
            FnScan { s: FunctionFsm::Parens(1), end: i as usize, ..st }
        } else if !alphanumeric(c) {
            FnScan { s: FunctionFsm::NoState, ..st }
        } else {
            st
        },
        FunctionFsm::Parens(j) => if c == '(' {
            FnScan { s: FunctionFsm::Parens(if j < i64::MAX { (j + 1) as i64 } else { j }), ..st }
        } else if c == ')' {
            FnScan { s: FunctionFsm::Parens(if j > i64::MIN { (j - 1) as i64 } else { j }), ..st }
        } else if whitespace(c) && j == 0 {
            FnScan { s: FunctionFsm::Space, ..st }
        } else if c == '{' && j == 0 {
            FnScan { s: FunctionFsm::Brace, ..st }
        } else {
            st
        },
        FunctionFsm::Space => if alphanumeric(c) {
            FnScan { s: FunctionFsm::Name, start: i as usize, ..st }
        } else if c == '{' {
            FnScan { s: FunctionFsm::Brace, start_body: i as usize, ..st }
        } else if !whitespace(c) {
            FnScan { s: FunctionFsm::NoState, ..st }
        } else {
            st
        },
        FunctionFsm::Brace => FnScan { s: FunctionFsm::Inner, braces: 1, ..st },
        FunctionFsm::Inner => {
            let b = if c == '{' && st.braces < usize::MAX {
                (st.braces + 1) as usize
            } else if c == '}' && st.braces > 0 {
                (st.braces - 1) as usize
            } else {
                st.braces
            };
            if b == 0 {
                let name = if st.start <= st.end {
                    text.subrange(st.start as int, st.end as int)
                } else {
                    Seq::empty()
                };
                FnScan {
                    s: FunctionFsm::NoState,
                    braces: b,
                    out: st.out.push((name, st.start_body, (i + 1) as usize)),
                    ..st
                }
            } else {
                FnScan { braces: b, ..st }
            }
        },
    }
}

/// The function scanner after the first `i` characters of `text`.
pub open spec fn fn_scan(text: Seq<char>, i: int) -> FnScan
    decreases i,
{
    if i <= 0 {
        FnScan {
            s: FunctionFsm::NoState,
            start: 0,
            end: 0,
            start_body: 0,
            braces: 0,
            out: Seq::empty(),
        }
    } else {
        fn_step(text, fn_scan(text, i - 1), i - 1)
    }
}

/// The functions that the C-like scanner reports for `text`.
pub open spec fn clike_functions(text: Seq<char>) -> Seq<(Seq<char>, usize, usize)> {
    fn_scan(text, text.len() as int).out
}

/// The scopes of the identifier scanner seen as plain values: per scope, its
/// declarations as (name, type) pairs.
pub open spec fn stack_view(st: Seq<Vec<(String, String)>>) -> Seq<Seq<(Seq<char>, Seq<char>)>> {
    st.map_values(|f: Vec<(String, String)>| f@.map_values(|e: (String, String)| (e.0@, e.1@)))
}

/// The type of the latest of the first `k` declarations of a scope that declares `name`.
pub open spec fn lookup_frame(frame: Seq<(Seq<char>, Seq<char>)>, name: Seq<char>, k: int) -> Option<Seq<char>>
    decreases k,
{
    if k <= 0 || k > frame.len() {
        None
    } else if frame[k - 1].0 == name {
        Some(frame[k - 1].1)
    } else {
        lookup_frame(frame, name, k - 1)
    }
}

/// The type of `name` in the innermost of the first `f` scopes that declares it.
pub open spec fn lookup_spec(stack: Seq<Seq<(Seq<char>, Seq<char>)>>, name: Seq<char>, f: int) -> Option<Seq<char>>
    decreases f,
{
    if f <= 0 || f > stack.len() {
        None
    } else {
        match lookup_frame(stack[f - 1], name, stack[f - 1].len() as int) {
            Some(t) => Some(t),
            None => lookup_spec(stack, name, f - 1),
        }
    }
}

/// What the identifier scanner has seen after a prefix of the text.
pub struct IdScan {
    pub s: IFsm,
    pub n1s: usize,
    pub n1e: usize,
    pub n2s: usize,
    pub stack: Seq<Seq<(Seq<char>, Seq<char>)>>,
    pub out: Seq<(Seq<char>, Seq<char>, usize, usize)>,
}

/// Reports the use of the name from `n1s` up to `n1e` when a scope declares it.
pub open spec fn report_use(text: Seq<char>, st: IdScan) -> IdScan {
    if st.n1s < st.n1e {
        let name = text.subrange(st.n1s as int, st.n1e as int);
        match lookup_spec(st.stack, name, st.stack.len() as int) {
            Some(t) => IdScan { out: st.out.push((name, t, st.n1s, st.n1e)), ..st },
            None => st,
        }
    } else {
        st
    }
}

/// Records the declaration of a name of type `text[n1s..n1e]` from `n2s` up to `n2e`.
pub open spec fn declare(text: Seq<char>, st: IdScan, n2e: usize) -> IdScan {
    if st.n1s <= st.n1e && st.n2s < n2e {
        let name = text.subrange(st.n2s as int, n2e as int);
        let typ = text.subrange(st.n1s as int, st.n1e as int);
        if allowed(name) && allowed(typ) {
            IdScan {
                out: st.out.push((name, typ, st.n2s, n2e)),
                stack: if st.stack.len() > 0 {
                    st.stack.update(st.stack.len() - 1, st.stack.last().push((name, typ)))
                } else {
                    st.stack
                },
                ..st
            }
        } else {
            st
        }
    } else {
        st
    }
}

/// One step of the identifier scanner, on the character at `i`: braces open and
/// close scopes; `type name` declares; a declared name is reported where used.
pub open spec fn id_step(text: Seq<char>, st0: IdScan, i: int) -> IdScan {
    let c = text[i];
    let st = if c == '{' {
        IdScan { s: IFsm::NoState, stack: st0.stack.push(Seq::empty()), ..st0 }
    } else if c == '}' {
        IdScan {
            s: IFsm::NoState,
            stack: if st0.stack.len() > 0 {
                st0.stack.drop_last()
            } else {
                st0.stack
            },
            ..st0
        }
    } else {
        st0
    };
    match st.s {
        IFsm::NoState => if c == '.' {
            IdScan { s: IFsm::Dot, ..st }
        } else if alphabetic(c) {
            IdScan { s: IFsm::Name1, n1s: i as usize, ..st }
        } else {
            st
        },
        IFsm::Dot => if whitespace(c) {
            IdScan { s: IFsm::Space, ..st }
        } else {
            st
        },
        IFsm::Name1 => if whitespace(c) {
            IdScan { s: IFsm::Space, n1e: i as usize, ..st }
        } else if !alphanumeric(c) {
            report_use(
                text,
                IdScan { s: if c == '.' { IFsm::Dot } else { IFsm::NoState }, n1e: i as usize, ..st },
            )
        } else {
            st
        },
        IFsm::Space => if alphabetic(c) {
            IdScan { s: IFsm::Name2, n2s: i as usize, ..st }
        } else if !whitespace(c) {
            report_use(text, IdScan { s: IFsm::NoState, ..st })
        } else {
            st
        },
        IFsm::Name2 => if !alphanumeric(c) {
            declare(
                text,
                IdScan { s: if c == '.' { IFsm::Dot } else { IFsm::NoState }, ..st },
                i as usize,
            )
        } else {
            st
        },
    }
}

/// The identifier scanner after the first `i` characters of `text`.
pub open spec fn id_scan(text: Seq<char>, i: int) -> IdScan
    decreases i,
{
    if i <= 0 {
        IdScan { s: IFsm::NoState, n1s: 0, n1e: 0, n2s: 0, stack: seq![Seq::empty()], out: Seq::empty() }
    } else {
        id_step(text, id_scan(text, i - 1), i - 1)
    }
}

/// The identifiers that the C-like scanner reports for `text`.
pub open spec fn clike_identifiers(text: Seq<char>) -> Seq<(Seq<char>, Seq<char>, usize, usize)> {
    id_scan(text, text.len() as int).out
}

impl Clike {
    /// Whether `x` is not a reserved word.
    pub fn is_allowed(x: &str) -> (r: bool)
        ensures
            r == allowed(x@),
    {
        let xs = chars_of(x);
        let words: Vec<Vec<char>> = vec![
            vec!['p', 'u', 'b', 'l', 'i', 'c'],
            vec!['p', 'a', 'c', 'k', 'a', 'g', 'e'],
            vec!['p', 'r', 'i', 'v', 'a', 't', 'e'],
            vec!['p', 'r', 'o', 't', 'e', 'c', 't', 'e', 'd'],
            vec!['i', 'm', 'p', 'o', 'r', 't'],
            vec!['v', 'o', 'i', 'd'],
            vec!['t', 'r', 'u', 'e'],
            vec!['f', 'a', 'l', 's', 'e'],
            vec!['e', 'x', 't', 'e', 'n', 'd', 's'],
        ];
        let ghost rw = reserved_words();
        assert(words@.len() == rw.len());
        assert(forall|k: int| 0 <= k < rw.len() ==> #[trigger] words@[k]@ == rw[k]) by {
            assert(words@[0]@ =~= rw[0]);
            assert(words@[1]@ =~= rw[1]);
            assert(words@[2]@ =~= rw[2]);
            assert(words@[3]@ =~= rw[3]);
            assert(words@[4]@ =~= rw[4]);
            assert(words@[5]@ =~= rw[5]);
            assert(words@[6]@ =~= rw[6]);
            assert(words@[7]@ =~= rw[7]);
            assert(words@[8]@ =~= rw[8]);
        }
        let mut i: usize = 0;
        while i < words.len()
            invariant
                i <= words@.len(),
                words@.len() == rw.len(),
                rw == reserved_words(),
                xs@ == x@,
                forall|k: int| 0 <= k < rw.len() ==> #[trigger] words@[k]@ == rw[k],
                forall|k: int| 0 <= k < i ==> rw[k] != xs@,
            decreases words@.len() - i,
        {
            if chars_eq(&words[i], &xs) {
                assert(rw[i as int] == xs@);
                return false;
            }
            i = i + 1;
        }
        true
    }

    /// The named functions declared in `text`: a name, a parenthesised list, and
    /// a body in braces. `start` is where the last opening brace that followed
    /// white space after the list stood (zero before any), and `end` is one past
    /// the closing brace of the body.
    pub fn functions_of(text: &Vec<char>) -> (v: Vec<Function>)
        ensures
            v@.map_values(|f: Function| function_view(f)) == clike_functions(text@),
            forall|k: int|
                0 <= k < v@.len() ==> (#[trigger] v@[k]).start < v@[k].end && v@[k].end
                    <= text@.len() && text@[v@[k].end - 1] == '}',
    {
        let mut s = FunctionFsm::NoState;
        let mut start: usize = 0;
        let mut end: usize = 0;
        let mut start_body: usize = 0;
        let mut braces: usize = 0;
        let mut v: Vec<Function> = Vec::new();
        assert(v@.map_values(|f: Function| function_view(f)) =~= Seq::<(Seq<char>, usize, usize)>::empty());
        let mut i: usize = 0;
        while i < text.len()
            invariant
                i <= text@.len(),
                start_body <= i,
                start <= i,
                end <= i,
                braces <= i + 1,
                s is Inner ==> braces >= 1,
                forall|k: int|
                    0 <= k < v@.len() ==> (#[trigger] v@[k]).start < v@[k].end && v@[k].end
                        <= text@.len() && text@[v@[k].end - 1] == '}',
                fn_scan(text@, i as int) == (FnScan {
                    s,
                    start,
                    end,
                    start_body,
                    braces,
                    out: v@.map_values(|f: Function| function_view(f)),
                }),
            decreases text@.len() - i,
        {
            let ghost before = v@.map_values(|f: Function| function_view(f));
            let c = text[i];
            match s {
                FunctionFsm::NoState => {
                    if is_alphanumeric(c) {
                        s = FunctionFsm::Name;
                        start = i;
                    }
                },
                FunctionFsm::Name => {
                    if c == '(' {
                        s = FunctionFsm::Parens(1);
                        end = i;
                    } else if !is_alphanumeric(c) {
                        s = FunctionFsm::NoState;
                    }
                },
                FunctionFsm::Parens(j) => {
                    if c == '(' {
                        s = FunctionFsm::Parens(if j < i64::MAX { j + 1 } else { j });
                    } else if c == ')' {
                        s = FunctionFsm::Parens(if j > i64::MIN { j - 1 } else { j });
                    } else if is_whitespace(c) && j == 0 {
                        s = FunctionFsm::Space;
                    } else if c == '{' && j == 0 {
                        s = FunctionFsm::Brace;
                    }
                },
                FunctionFsm::Space => {
                    if is_alphanumeric(c) {
                        s = FunctionFsm::Name;
                        start = i;
                    } else if c == '{' {
                        start_body = i;
                        s = FunctionFsm::Brace;
                    } else if !is_whitespace(c) {
                        s = FunctionFsm::NoState;
                    }
                },
                FunctionFsm::Brace => {
                    braces = 1;
                    s = FunctionFsm::Inner;
                },
                FunctionFsm::Inner => {
                    if c == '{' && braces < usize::MAX {
                        braces = braces + 1;
                    } else if c == '}' && braces > 0 {
                        braces = braces - 1;
                    }
                    if braces == 0 {
                        let name = if start <= end {
                            string_of(&slice_of(text, start, end))
                        } else {
                            String::new()
                        };
                        let ghost nv = name@;
                        v.push(Function::new(name, start_body, i + 1));
                        assert(v@.map_values(|f: Function| function_view(f)) =~= before.push(
                            (nv, start_body, (i + 1) as usize),
                        ));
                        s = FunctionFsm::NoState;
                    }
                },
            }
            i = i + 1;
        }
        assert(text@.len() == i);
        v
    }

    /// The typed identifiers of `text`: each declaration `type name` whose type
    /// and name are not reserved words, and each later use of a declared name in
    /// the same or an enclosing brace scope, reported with its declared type.
    pub fn identifiers_of(text: &Vec<char>) -> (v: Vec<Identifier>)
        ensures
            v@.map_values(|x: Identifier| ident_view(x)) == clike_identifiers(text@),
            forall|k: int|
                0 <= k < v@.len() ==> {
                    &&& (#[trigger] v@[k]).start < v@[k].end
                    &&& v@[k].end <= text@.len()
                    &&& v@[k].name@ == text@.subrange(v@[k].start as int, v@[k].end as int)
                    &&& allowed(v@[k].name@)
                    &&& allowed(v@[k].typ@)
                },
    {
        let mut s = IFsm::NoState;
        let mut n1s: usize = 0;
        let mut n1e: usize = 0;
        let mut n2s: usize = 0;
        let mut v: Vec<Identifier> = Vec::new();
        let mut stack: Vec<Vec<(String, String)>> = Vec::new();
        stack.push(Vec::new());
        proof {
            assert(stack_view(stack@) =~= seq![Seq::<(Seq<char>, Seq<char>)>::empty()]) by {
                assert(stack@[0]@.map_values(|e: (String, String)| (e.0@, e.1@)) =~= Seq::<(Seq<char>, Seq<char>)>::empty());
            }
            assert(v@.map_values(|x: Identifier| ident_view(x)) =~= Seq::<(Seq<char>, Seq<char>, usize, usize)>::empty());
        }
        let mut i: usize = 0;
        while i < text.len()
            invariant
                i <= text@.len(),
                n1s <= i,
                n1e <= i,
                n2s <= i,
                id_scan(text@, i as int) == (IdScan {
                    s,
                    n1s,
                    n1e,
                    n2s,
                    stack: stack_view(stack@),
                    out: v@.map_values(|x: Identifier| ident_view(x)),
                }),
                forall|f: int, k: int|
                    0 <= f < stack@.len() && 0 <= k < stack@[f]@.len() ==> allowed(
                        (#[trigger] stack@[f]@[k]).0@,
                    ) && allowed(stack@[f]@[k].1@),
                forall|k: int|
                    0 <= k < v@.len() ==> {
                        &&& (#[trigger] v@[k]).start < v@[k].end
                        &&& v@[k].end <= text@.len()
                        &&& v@[k].name@ == text@.subrange(v@[k].start as int, v@[k].end as int)
                        &&& allowed(v@[k].name@)
                        &&& allowed(v@[k].typ@)
                    },
            decreases text@.len() - i,
        {
            let c = text[i];
            let ghost sv0 = stack_view(stack@);
            let ghost out0 = v@.map_values(|x: Identifier| ident_view(x));
            if c == '{' {
                stack.push(Vec::new());
                s = IFsm::NoState;
                proof {
                    assert(stack_view(stack@) =~= sv0.push(Seq::empty())) by {
                        let l = stack@.len() - 1;
                        assert(stack@[l]@.map_values(|e: (String, String)| (e.0@, e.1@)) =~= Seq::<(Seq<char>, Seq<char>)>::empty());
                    }
                }
            } else if c == '}' {
                let ghost st0 = stack@;
                stack.pop();
                s = IFsm::NoState;
                proof {
                    if st0.len() > 0 {
                        assert(stack@ == st0.drop_last());
                        assert(stack_view(stack@) =~= sv0.drop_last());
                    }
                }
            }
            let ghost mid = IdScan {
                s,
                n1s,
                n1e,
                n2s,
                stack: stack_view(stack@),
                out: out0,
            };
            let ghost prev = id_scan(text@, i as int);
            assert(id_scan(text@, i + 1) == id_step(text@, prev, i as int));
            match s {
                IFsm::NoState => {
                    if c == '.' {
                        s = IFsm::Dot;
                    } else if is_alphabetic(c) {
                        s = IFsm::Name1;
                        n1s = i;
                    }
                },
                IFsm::Dot => {
                    if is_whitespace(c) {
                        s = IFsm::Space;
                    }
                },
                IFsm::Name1 => {
                    if is_whitespace(c) {
                        s = IFsm::Space;
                        n1e = i;
                    } else if !is_alphanumeric(c) {
                        if c == '.' {
                            s = IFsm::Dot;
                        } else {
                            s = IFsm::NoState;
                        }
                        n1e = i;
                        if n1s < n1e {
                            let name = slice_of(text, n1s, n1e);
                            match lookup(&stack, &name) {
                                Some(typ) => {
                                    let ghost tv = typ@;
                                    v.push(Identifier::new(string_of(&name), typ, n1s, n1e));
                                    assert(v@.map_values(|x: Identifier| ident_view(x)) =~= out0.push(
                                        (name@, tv, n1s, n1e),
                                    ));
                                },
                                None => {},
                            }
                        }
                    }
                },
                IFsm::Space => {
                    if is_alphabetic(c) {
                        s = IFsm::Name2;
                        n2s = i;
                    } else if !is_whitespace(c) {
                        s = IFsm::NoState;
                        if n1s < n1e {
                            let name = slice_of(text, n1s, n1e);
                            match lookup(&stack, &name) {
                                Some(typ) => {
                                    let ghost tv = typ@;
                                    v.push(Identifier::new(string_of(&name), typ, n1s, n1e));
                                    assert(v@.map_values(|x: Identifier| ident_view(x)) =~= out0.push(
                                        (name@, tv, n1s, n1e),
                                    ));
                                },
                                None => {},
                            }
                        }
                    }
                },
                IFsm::Name2 => {
                    if !is_alphanumeric(c) {
                        if c == '.' {
                            s = IFsm::Dot;
                        } else {
                            s = IFsm::NoState;
                        }
                        let n2e = i;
                        if n1s <= n1e && n2s < n2e {
                            let name = string_of(&slice_of(text, n2s, n2e));
                            let typ = string_of(&slice_of(text, n1s, n1e));
                            if Self::is_allowed(name.as_str()) && Self::is_allowed(typ.as_str()) {
                                v.push(Identifier::new(name.clone(), typ.clone(), n2s, n2e));
                                assert(v@.map_values(|x: Identifier| ident_view(x)) =~= out0.push(
                                    (name@, typ@, n2s, n2e),
                                ));
                                let ghost nm = name@;
                                let ghost ty = typ@;
                                let ghost sv1 = stack_view(stack@);
                                let k = stack.len();
                                if k > 0 {
                                    let ghost st1 = stack@;
                                    let mut frame = stack.pop().unwrap();
                                    let ghost fr0 = frame@;
                                    frame.push((name, typ));
                                    stack.push(frame);
                                    proof {
                                        assert(fr0 == st1[st1.len() - 1]@);
                                        assert(stack@ == st1.drop_last().push(frame));
                                        assert(frame@.map_values(|e: (String, String)| (e.0@, e.1@)) =~= fr0.map_values(|e: (String, String)| (e.0@, e.1@)).push((nm, ty)));
                                        assert(stack_view(stack@) =~= sv1.update(sv1.len() - 1, sv1.last().push((nm, ty))));
                                    }
                                }
                            }
                        }
                    }
                },
            }
            i = i + 1;
        }
        assert(i == text@.len());
        v
    }
}

/// The type of the innermost declaration of `name` in `stack`, the latest in
/// its scope.
fn lookup(stack: &Vec<Vec<(String, String)>>, name: &Vec<char>) -> (r: Option<String>)
    requires
        forall|fi: int, ki: int|
            0 <= fi < stack@.len() && 0 <= ki < stack@[fi]@.len() ==> allowed(
                (#[trigger] stack@[fi]@[ki]).0@,
            ) && allowed(stack@[fi]@[ki].1@),
    ensures
        r matches Some(t) ==> allowed(t@) && allowed(name@),
        match lookup_spec(stack_view(stack@), name@, stack@.len() as int) {
            Some(t) => r matches Some(x) && x@ == t,
            None => r is None,
        },
{
    let ghost sv = stack_view(stack@);
    let mut f = stack.len();
    while f > 0
        invariant
            f <= stack@.len(),
            sv == stack_view(stack@),
            lookup_spec(sv, name@, stack@.len() as int) == lookup_spec(sv, name@, f as int),
            forall|fi: int, ki: int|
                0 <= fi < stack@.len() && 0 <= ki < stack@[fi]@.len() ==> allowed(
                    (#[trigger] stack@[fi]@[ki]).0@,
                ) && allowed(stack@[fi]@[ki].1@),
        decreases f,
    {
        f = f - 1;
        let frame = &stack[f];
        let mut k = frame.len();
        while k > 0
            invariant
                k <= frame@.len(),
                *frame == stack@[f as int],
                f < stack@.len(),
                sv == stack_view(stack@),
                sv[f as int] == frame@.map_values(|e: (String, String)| (e.0@, e.1@)),
                lookup_spec(sv, name@, stack@.len() as int) == lookup_spec(sv, name@, f as int + 1),
                lookup_frame(sv[f as int], name@, frame@.len() as int) == lookup_frame(sv[f as int], name@, k as int),
                forall|fi: int, ki: int|
                    0 <= fi < stack@.len() && 0 <= ki < stack@[fi]@.len() ==> allowed(
                        (#[trigger] stack@[fi]@[ki]).0@,
                    ) && allowed(stack@[fi]@[ki].1@),
            decreases k,
        {
            k = k - 1;
            let entry = &frame[k];
            let en = chars_of(entry.0.as_str());
            if chars_eq(&en, name) {
                assert(frame@[k as int] == stack@[f as int]@[k as int]);
                return Some(entry.1.clone());
            }
        }
    }
    None
}

impl Functions for Clike {
    open spec fn functions(&self, text: Seq<char>) -> Seq<(Seq<char>, usize, usize)> {
        clike_functions(text)
    }

    fn read_functions(&self, text: &str) -> (r: Vec<Function>) {
        Self::functions_of(&chars_of(text))
    }
}

impl Identifiers for Clike {
    open spec fn identifiers(&self, text: Seq<char>) -> Seq<(Seq<char>, Seq<char>, usize, usize)> {
        clike_identifiers(text)
    }

    fn read_identifiers(&self, text: &str) -> (r: Vec<Identifier>) {
        Self::identifiers_of(&chars_of(text))
    }
}

} // verus!
