//! The grammar of query-set bodies: `query ("," query)*`, where a query is the
//! keyword `functions` or `key=value` with a non-empty key and value.
use vstd::prelude::*;
use crate::error::ErrorKind;
use crate::regexparser::ast::{Queries, Query};
use crate::text::{chars_eq, find_char, index_of, pieces, slice_of, split_chars, string_of};

verus! {

/// What a query means: a key and a value, or the keyword `functions`.
pub enum QueryView {
    Kv(Seq<char>, Seq<char>),
    Fun,
}

pub open spec fn query_view(q: Query) -> QueryView {
    match q {
        Query::Kv(k, v) => QueryView::Kv(k@, v@),
        Query::Fun => QueryView::Fun,
    }
}

pub open spec fn queries_view(q: Queries) -> Seq<QueryView>
    decreases q,
{
    match q {
        Queries::Query(x) => seq![query_view(*x)],
        Queries::Queries(x, rest) => seq![query_view(*x)] + queries_view(*rest),
    }
}

pub open spec fn functions_word() -> Seq<char> {
    seq!['f', 'u', 'n', 'c', 't', 'i', 'o', 'n', 's']
}

/// One query, read from the text between two commas.
pub open spec fn query_of(seg: Seq<char>) -> Option<QueryView> {
    if seg == functions_word() {
        Some(QueryView::Fun)
    } else {
        let k = find_char(seg, '=');
        if 0 < k && k < seg.len() && k < seg.len() - 1 {
            Some(QueryView::Kv(seg.subrange(0, k as int), seg.subrange((k + 1) as int, seg.len() as int)))
        } else {
            None
        }
    }
}

pub open spec fn queries_of_pieces(ps: Seq<Seq<char>>) -> Option<Seq<QueryView>>
    decreases ps.len(),
{
    if ps.len() == 0 {
        Some(Seq::empty())
    } else {
        match (queries_of_pieces(ps.drop_last()), query_of(ps.last())) {
            (Some(a), Some(b)) => Some(a.push(b)),
            _ => None,
        }
    }
}

/// The queries that a query-set body holds, or `None` when it is malformed.
pub open spec fn queries_of(s: Seq<char>) -> Option<Seq<QueryView>> {
    queries_of_pieces(pieces(s, ','))
}

fn parse_query(seg: &Vec<char>) -> (r: Option<Query>)
    ensures
        r matches Some(q) ==> query_of(seg@) == Some(query_view(q)),
        r is None ==> query_of(seg@) is None,
{
    let word = vec!['f', 'u', 'n', 'c', 't', 'i', 'o', 'n', 's'];
    assert(word@ =~= functions_word());
    if chars_eq(seg, &word) {
        return Some(Query::Fun);
    }
    let k = index_of(seg, '=');
    if 0 < k && k < seg.len() && k < seg.len() - 1 {
        let key = slice_of(seg, 0, k);
        let value = slice_of(seg, k + 1, seg.len());
        Some(Query::Kv(string_of(&key), string_of(&value)))
    } else {
        None
    }
}

/// The queries of a query-set body, in order.
pub fn parse_query_list(s: &Vec<char>) -> (r: Option<Vec<Query>>)
    ensures
        r matches Some(v) ==> queries_of(s@) == Some(v@.map_values(|q: Query| query_view(q))),
        r is None ==> queries_of(s@) is None,
{
    let ps = split_chars(s, ',');
    let ghost gp = pieces(s@, ',');
    let mut v: Vec<Query> = Vec::new();
    let mut i: usize = 0;
    while i < ps.len()
        invariant
            i <= ps@.len(),
            ps@.len() == gp.len(),
            gp == pieces(s@, ','),
            forall|j: int| 0 <= j < ps@.len() ==> #[trigger] ps@[j]@ == gp[j],
            queries_of_pieces(gp.subrange(0, i as int)) == Some(
                v@.map_values(|q: Query| query_view(q)),
            ),
        decreases ps@.len() - i,
    {
        let ghost before = gp.subrange(0, i as int);
        let q = parse_query(&ps[i]);
        assert(gp.subrange(0, i + 1).drop_last() =~= before);
        match q {
            Some(q) => {
                v.push(q);
                i = i + 1;
                assert(v@.map_values(|q: Query| query_view(q)) =~= queries_of_pieces(
                    before,
                ).unwrap().push(query_of(gp[i - 1]).unwrap()));
            },
            None => {
                proof {
                    lemma_prefix_fails(gp, i as int + 1);
                }
                return None;
            },
        }
    }
    assert(gp.subrange(0, ps@.len() as int) =~= gp);
    Some(v)
}

proof fn lemma_prefix_fails(ps: Seq<Seq<char>>, k: int)
    requires
        0 <= k <= ps.len(),
        queries_of_pieces(ps.subrange(0, k)) is None,
    ensures
        queries_of_pieces(ps) is None,
    decreases ps.len() - k,
{
    if k < ps.len() {
        assert(ps.subrange(0, k + 1).drop_last() =~= ps.subrange(0, k));
        lemma_prefix_fails(ps, k + 1);
    } else {
        assert(ps.subrange(0, k) =~= ps);
    }
}

/// Parses a query-set body into its list of queries.
pub fn parse_queries(s: &str) -> (r: Result<Box<Queries>, ErrorKind>)
    ensures
        r matches Ok(q) ==> queries_of(s@) == Some(queries_view(*q)),
        r matches Err(e) ==> queries_of(s@) is None && e == ErrorKind::QueryMalformed,
{
    let cs = crate::text::chars_of(s);
    match parse_query_list(&cs) {
        None => Err(ErrorKind::QueryMalformed),
        Some(v) => {
            proof {
                crate::text::lemma_pieces_nonempty(cs@, ',');
                assert(queries_of_pieces(pieces(cs@, ',')) is Some);
            }
            let ghost views = v@.map_values(|q: Query| query_view(q));
            if v.len() == 0 {
                proof {
                    lemma_pieces_count(pieces(cs@, ','));
                }
                return Err(ErrorKind::QueryMalformed);
            }
            let mut v = v;
            let last = v.pop().unwrap();
            let mut acc = Box::new(Queries::Query(Box::new(last)));
            assert(queries_view(*acc) =~= views.subrange(v@.len() as int, views.len() as int));
            while v.len() > 0
                invariant
                    v@.len() < views.len(),
                    forall|j: int| 0 <= j < v@.len() ==> query_view(#[trigger] v@[j]) == views[j],
                    queries_view(*acc) == views.subrange(v@.len() as int, views.len() as int),
                decreases v@.len(),
            {
                let q = v.pop().unwrap();
                acc = Box::new(Queries::Queries(Box::new(q), acc));
                assert(queries_view(*acc) =~= views.subrange(v@.len() as int, views.len() as int));
            }
            assert(views.subrange(0, views.len() as int) =~= views);
            Ok(acc)
        },
    }
}

proof fn lemma_pieces_count(ps: Seq<Seq<char>>)
    ensures
        queries_of_pieces(ps) matches Some(v) ==> v.len() == ps.len(),
    decreases ps.len(),
{
    if ps.len() > 0 {
        lemma_pieces_count(ps.drop_last());
    }
}

} // verus!
