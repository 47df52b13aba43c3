//! Answers the structural questions that query sets ask about a file.
use vstd::prelude::*;
use crate::languages::parsing::{function_view, ident_view, Function, Functions, Identifier, Identifiers};
use crate::regexparser::ast::Query;
use crate::regexparser::queries::{parse_query_list, queries_of, query_view, QueryView};
use crate::text::{chars_of, decimal, parse_decimal, pieces, split_chars};

verus! {

/// The identifiers and functions of one file, and the offset of the position
/// that the matcher currently starts from.
pub struct QueryEngine {
    pub idents: Vec<Identifier>,
    pub functs: Vec<Function>,
    pub offset: usize,
}

pub open spec fn pos_word() -> Seq<char> {
    seq!['p', 'o', 's']
}

pub open spec fn type_word() -> Seq<char> {
    seq!['t', 'y', 'p', 'e']
}

pub open spec fn name_word() -> Seq<char> {
    seq!['n', 'a', 'm', 'e']
}

pub open spec fn is_key(q: QueryView, key: Seq<char>) -> bool {
    q matches QueryView::Kv(k, _) && k == key
}

pub open spec fn value_of(q: QueryView) -> Seq<char> {
    match q {
        QueryView::Kv(_, v) => v,
        QueryView::Fun => Seq::empty(),
    }
}

/// The index of the first `pos` query at or after `i`, or the length when there is none.
pub open spec fn first_pos_from(items: Seq<QueryView>, i: int) -> int
    decreases items.len() - i,
{
    if i >= items.len() {
        items.len() as int
    } else if is_key(items[i], pos_word()) {
        i
    } else {
        first_pos_from(items, i + 1)
    }
}

/// The value of the last query with the given key.
pub open spec fn last_value(items: Seq<QueryView>, key: Seq<char>) -> Option<Seq<char>>
    decreases items.len(),
{
    if items.len() == 0 {
        None
    } else if is_key(items.last(), key) {
        Some(value_of(items.last()))
    } else {
        last_value(items.drop_last(), key)
    }
}

/// The answer to `pos=a:b` at a position: `b` when the position is `a`.
pub open spec fn pos_answer(v: Seq<char>, absolute: int) -> Option<usize> {
    let ps = pieces(v, ':');
    if ps.len() >= 2 {
        match (decimal(ps[0]), decimal(ps[1])) {
            (Some(a), Some(b)) => if absolute == a {
                Some(b as usize)
            } else {
                None
            },
            _ => None,
        }
    } else {
        None
    }
}

pub open spec fn ident_matches(
    id: Identifier,
    name: Option<Seq<char>>,
    kind: Option<Seq<char>>,
    absolute: int,
) -> bool {
    &&& (name matches Some(n) ==> n == id.name@)
    &&& (kind matches Some(k) ==> k == id.typ@)
    &&& absolute == id.start
}

/// The answer for the first identifier from `i` on that matches the constraints.
pub open spec fn ident_answer(
    ids: Seq<Identifier>,
    name: Option<Seq<char>>,
    kind: Option<Seq<char>>,
    absolute: int,
    offset: usize,
    i: int,
) -> Option<usize>
    decreases ids.len() - i,
{
    if i < 0 || i >= ids.len() {
        None
    } else if ident_matches(ids[i], name, kind, absolute) {
        Some(if ids[i].end >= offset { (ids[i].end - offset) as usize } else { 0 })
    } else {
        ident_answer(ids, name, kind, absolute, offset, i + 1)
    }
}

/// The first function from `i` on with the given name.
pub open spec fn function_answer(fs: Seq<Function>, name: Seq<char>, i: int) -> Option<(usize, usize)>
    decreases fs.len() - i,
{
    if i < 0 || i >= fs.len() {
        None
    } else if fs[i].name@ == name {
        Some((fs[i].start, fs[i].end))
    } else {
        function_answer(fs, name, i + 1)
    }
}

impl QueryEngine {
    /// What a query set with body `q` consumes at the local position `position`.
    pub open spec fn query_spec(&self, position: usize, q: Seq<char>) -> Option<usize> {
        match queries_of(q) {
            None => None,
            Some(items) => {
                let absolute = position + self.offset;
                let k = first_pos_from(items, 0);
                if k < items.len() {
                    pos_answer(value_of(items[k]), absolute)
                } else {
                    ident_answer(
                        self.idents@,
                        last_value(items, name_word()),
                        last_value(items, type_word()),
                        absolute,
                        self.offset,
                        0,
                    )
                }
            },
        }
    }

    /// A query engine that knows of no identifier and no function.
    pub fn new() -> (r: Self)
        ensures
            r.idents@.len() == 0,
            r.functs@.len() == 0,
            r.offset == 0,
    {
        Self { idents: Vec::new(), functs: Vec::new(), offset: 0 }
    }

    pub fn set_offset(&mut self, offset: usize)
        ensures
            final(self).offset == offset,
            final(self).idents == old(self).idents,
            final(self).functs == old(self).functs,
    {
        self.offset = offset;
    }

    /// A query engine for the text `s`, with what the two scanners report of it.
    pub fn build<I: Identifiers, F: Functions>(s: &String, i: &I, f: &F) -> (r: Self)
        ensures
            r.offset == 0,
            r.idents@.map_values(|x: Identifier| ident_view(x)) == i.identifiers(s@),
            r.functs@.map_values(|x: Function| function_view(x)) == f.functions(s@),
    {
        Self { idents: i.read_identifiers(s.as_str()), functs: f.read_functions(s.as_str()), offset: 0 }
    }

    /// The body of the first function named `name`.
    pub fn function_location(&self, name: &String) -> (r: Option<(usize, usize)>)
        ensures
            r == function_answer(self.functs@, name@, 0),
    {
        let mut i: usize = 0;
        while i < self.functs.len()
            invariant
                i <= self.functs@.len(),
                function_answer(self.functs@, name@, 0) == function_answer(
                    self.functs@,
                    name@,
                    i as int,
                ),
            decreases self.functs@.len() - i,
        {
            if self.functs[i].name == *name {
                return Some((self.functs[i].start, self.functs[i].end));
            }
            i = i + 1;
        }
        None
    }

    /// Answers the query set with body `query` at the local position `position`:
    /// how many characters it consumes there, or `None` when it does not apply.
    pub fn query(&self, position: usize, query: &String) -> (r: Option<usize>)
        ensures
            r == self.query_spec(position, query@),
    {
        let cs = chars_of(query.as_str());
        let items = match parse_query_list(&cs) {
            None => return None,
            Some(v) => v,
        };
        let ghost views = items@.map_values(|q: Query| query_view(q));
        let mut name: Option<String> = None;
        let mut kind: Option<String> = None;
        let mut i: usize = 0;
        while i < items.len()
            invariant
                i <= items@.len(),
                views == items@.map_values(|q: Query| query_view(q)),
                queries_of(query@) == Some(views),
                first_pos_from(views, 0) == first_pos_from(views, i as int),
                name matches Some(n) ==> last_value(views.subrange(0, i as int), name_word())
                    == Some(n@),
                name is None ==> last_value(views.subrange(0, i as int), name_word()) is None,
                kind matches Some(n) ==> last_value(views.subrange(0, i as int), type_word())
                    == Some(n@),
                kind is None ==> last_value(views.subrange(0, i as int), type_word()) is None,
            decreases items@.len() - i,
        {
            assert(views.subrange(0, i + 1).drop_last() =~= views.subrange(0, i as int));
            match &items[i] {
                Query::Kv(k, v) => {
                    let kc = chars_of(k.as_str());
                    if kc.len() == 3 && kc[0] == 'p' && kc[1] == 'o' && kc[2] == 's' {
                        assert(kc@ =~= pos_word());
                        return self.pos_query(position, v);
                    }
                    if kc.len() == 4 && kc[0] == 't' && kc[1] == 'y' && kc[2] == 'p' && kc[3] == 'e' {
                        assert(kc@ =~= type_word());
                        kind = Some(v.clone());
                    } else if kc.len() == 4 && kc[0] == 'n' && kc[1] == 'a' && kc[2] == 'm' && kc[3]
                        == 'e' {
                        assert(kc@ =~= name_word());
                        name = Some(v.clone());
                    }
                },
                Query::Fun => {},
            }
            i = i + 1;
        }
        assert(views.subrange(0, i as int) =~= views);
        self.ident_query(position, &name, &kind)
    }

    fn pos_query(&self, position: usize, v: &String) -> (r: Option<usize>)
        ensures
            r == pos_answer(v@, position + self.offset),
    {
        let vc = chars_of(v.as_str());
        let ps = split_chars(&vc, ':');
        if ps.len() < 2 {
            return None;
        }
        let a = parse_decimal(&ps[0]);
        let b = parse_decimal(&ps[1]);
        match (a, b) {
            (Some(a), Some(b)) => {
                if a >= self.offset && a - self.offset == position {
                    Some(b)
                } else {
                    None
                }
            },
            _ => None,
        }
    }

    fn ident_query(&self, position: usize, name: &Option<String>, kind: &Option<String>) -> (r:
        Option<usize>)
        ensures
            r == ident_answer(
                self.idents@,
                match name {
                    Some(n) => Some(n@),
                    None => None,
                },
                match kind {
                    Some(k) => Some(k@),
                    None => None,
                },
                position + self.offset,
                self.offset,
                0,
            ),
    {
        let ghost gn = match name {
            Some(n) => Some(n@),
            None => None,
        };
        let ghost gk = match kind {
            Some(k) => Some(k@),
            None => None,
        };
        let ghost absolute = position + self.offset;
        let mut i: usize = 0;
        while i < self.idents.len()
            invariant
                i <= self.idents@.len(),
                gn == match name {
                    Some(n) => Some(n@),
                    None => None,
                },
                gk == match kind {
                    Some(k) => Some(k@),
                    None => None,
                },
                absolute == position + self.offset,
                ident_answer(self.idents@, gn, gk, absolute, self.offset, 0) == ident_answer(
                    self.idents@,
                    gn,
                    gk,
                    absolute,
                    self.offset,
                    i as int,
                ),
            decreases self.idents@.len() - i,
        {
            let id = &self.idents[i];
            let name_ok = match name {
                Some(n) => *n == id.name,
                None => true,
            };
            let kind_ok = match kind {
                Some(k) => *k == id.typ,
                None => true,
            };
            if name_ok && kind_ok && id.start >= self.offset && id.start - self.offset == position {
                if id.end >= self.offset {
                    return Some(id.end - self.offset);
                } else {
                    return Some(0);
                }
            }
            i = i + 1;
        }
        None
    }
}

} // verus!
