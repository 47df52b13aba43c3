//! Scans a text for the non-overlapping matches of a pattern.
use vstd::prelude::*;
use crate::nfa::dfa::{labels_from, nfa_to_dfa, subset_automaton};
use crate::nfa::queryengine::QueryEngine;
use crate::nfa::search::{chars_read, find_path, lemma_search_ignores_queries, lemma_search_within, search, Path};
use crate::nfa::{Group, Nfa, NodePointer};
use crate::regex2nfa::{build_nfa, compiled_from, no_query, regex_has_query};
use crate::regexparser::ast::Regex;
use crate::text::{chars_of, slice_of};

verus! {

/// A match: where it starts, how long it is, and its capture groups, indexed
/// by group number (an entry that no group marker reached is left empty).
#[derive(Debug)]
pub struct Match {
    pub start: usize,
    pub len: usize,
    pub groups: Vec<Group>,
}

/// A match seen as plain numbers: start, length, and each group's start and length.
pub struct MatchView {
    pub start: int,
    pub len: int,
    pub groups: Seq<(int, int)>,
}

pub open spec fn match_view(m: Match) -> MatchView {
    MatchView {
        start: m.start as int,
        len: m.len as int,
        groups: m.groups@.map_values(|g: Group| (g.start as int, g.len as int)),
    }
}

/// `g` with entries added up to index `i`, each starting at `at` and empty.
pub open spec fn pad(g: Seq<(int, int)>, i: int, at: int) -> Seq<(int, int)> {
    if i < g.len() {
        g
    } else {
        g + Seq::new((i + 1 - g.len()) as nat, |k: int| (at, 0int))
    }
}

/// Replays a path from `start`: the characters it consumes, and its groups.
/// An opening marker creates the missing groups up to its own and records its
/// group's start at the current position (a group that opens again starts
/// afresh, empty); a closing marker sets the group's length to the distance
/// from that start.
pub open spec fn replay(path: Seq<Path>, start: int) -> (int, Seq<(int, int)>)
    decreases path.len(),
{
    if path.len() == 0 {
        (0, Seq::empty())
    } else {
        let (l, g) = replay(path.drop_last(), start);
        let at = start + l;
        match path.last() {
            Path::Open(i) => {
                let g2 = pad(g, i as int, at);
                (l, g2.update(i as int, (at, 0int)))
            },
            Path::Close(i) => {
                let g2 = pad(g, i as int, at);
                (l, g2.update(i as int, (g2[i as int].0, at - g2[i as int].0)))
            },
            Path::Char => (l + 1, g),
            Path::Query(x) => (l + x, g),
        }
    }
}

pub open spec fn path_total(path: Seq<Path>) -> int {
    replay(path, 0).0
}

proof fn lemma_replay_shift(path: Seq<Path>, start: int)
    ensures
        replay(path, start).0 == replay(path, 0).0,
        replay(path, start).0 >= 0,
        forall|k: int|
            0 <= k < replay(path, start).1.len() ==> start <= (#[trigger] replay(path, start).1[k]).0
                && replay(path, start).1[k].1 >= 0 && replay(path, start).1[k].0 + replay(
                path,
                start,
            ).1[k].1 <= start + replay(path, start).0,
    decreases path.len(),
{
    if path.len() > 0 {
        lemma_replay_shift(path.drop_last(), start);
    }
}

impl Match {
    pub fn new(start: usize, len: usize, _groups: Vec<Group>) -> (r: Self)
        ensures
            r.start == start,
            r.len == len,
            r.groups == _groups,
    {
        Self { start, len, groups: _groups }
    }

    pub fn start(&self) -> (r: usize)
        ensures
            r == self.start,
    {
        self.start
    }

    pub fn len(&self) -> (r: usize)
        ensures
            r == self.len,
    {
        self.len
    }

    /// The text of group `i` in `s`, or the empty text when the match has no
    /// such group or it does not lie within `s`.
    pub open spec fn group_spec(&self, i: int, s: Seq<char>) -> Seq<char> {
        if 0 <= i < self.groups@.len() && self.groups@[i].start + self.groups@[i].len <= s.len() {
            s.subrange(
                self.groups@[i].start as int,
                self.groups@[i].start + self.groups@[i].len,
            )
        } else {
            Seq::empty()
        }
    }

    pub fn group_text(&self, i: usize, s: &Vec<char>) -> (r: Vec<char>)
        ensures
            r@ == self.group_spec(i as int, s@),
    {
        if i < self.groups.len() {
            let g = self.groups[i];
            if g.len <= s.len() && g.start <= s.len() - g.len {
                return slice_of(s, g.start, g.start + g.len);
            }
        }
        Vec::new()
    }

    pub fn get_group(&self, i: usize, s: &String) -> (r: String)
        ensures
            r@ == self.group_spec(i as int, s@),
    {
        let cs = chars_of(s.as_str());
        crate::text::string_of(&self.group_text(i, &cs))
    }
}

/// The number of characters that `path` consumes, if it fits in `usize`.
pub fn path_length(path: &Vec<Path>) -> (r: Option<usize>)
    ensures
        r matches Some(n) ==> n == path_total(path@),
        r is None ==> path_total(path@) > usize::MAX,
{
    let mut len: usize = 0;
    let mut i: usize = 0;
    while i < path.len()
        invariant
            i <= path@.len(),
            len == path_total(path@.subrange(0, i as int)),
        decreases path@.len() - i,
    {
        assert(path@.subrange(0, i + 1).drop_last() =~= path@.subrange(0, i as int));
        match path[i] {
            Path::Char => {
                if len == usize::MAX {
                    proof {
                        lemma_total_prefix(path@, i as int + 1);
                    }
                    return None;
                }
                len = len + 1;
            },
            Path::Query(x) => {
                if x > usize::MAX - len {
                    proof {
                        lemma_total_prefix(path@, i as int + 1);
                    }
                    return None;
                }
                len = len + x;
            },
            _ => {},
        }
        i = i + 1;
    }
    assert(path@.subrange(0, path@.len() as int) =~= path@);
    Some(len)
}

proof fn lemma_total_prefix(path: Seq<Path>, k: int)
    requires
        0 <= k <= path.len(),
    ensures
        path_total(path.subrange(0, k)) <= path_total(path),
    decreases path.len() - k,
{
    if k < path.len() {
        lemma_total_prefix(path, k + 1);
        assert(path.subrange(0, k + 1).drop_last() =~= path.subrange(0, k));
        lemma_replay_shift(path.subrange(0, k + 1), 0);
        lemma_replay_shift(path.subrange(0, k), 0);
    } else {
        assert(path.subrange(0, k) =~= path);
    }
}

/// The match that an accepting path from `start` describes.
pub fn path_to_matches(path: &Vec<Path>, start: usize) -> (m: Match)
    requires
        start + path_total(path@) <= usize::MAX,
    ensures
        m.start == start,
        m.len == replay(path@, start as int).0,
        match_view(m).groups == replay(path@, start as int).1,
{
    let mut groups: Vec<Group> = Vec::new();
    let mut len: usize = 0;
    let mut i: usize = 0;
    proof {
        lemma_replay_shift(path@, start as int);
    }
    while i < path.len()
        invariant
            i <= path@.len(),
            start + path_total(path@) <= usize::MAX,
            len == replay(path@.subrange(0, i as int), start as int).0,
            groups@.map_values(|g: Group| (g.start as int, g.len as int)) == replay(
                path@.subrange(0, i as int),
                start as int,
            ).1,
            len + start <= usize::MAX,
            forall|k: int| 0 <= k < groups@.len() ==> (#[trigger] groups@[k]).start <= start + len,
        decreases path@.len() - i,
    {
        let ghost pre = path@.subrange(0, i as int);
        let ghost post = path@.subrange(0, i + 1);
        assert(post.drop_last() =~= pre);
        proof {
            lemma_replay_shift(pre, start as int);
            lemma_replay_shift(post, start as int);
            lemma_total_prefix(path@, i + 1);
        }
        let at = start + len;
        match path[i] {
            Path::Open(k) => {
                pad_groups(&mut groups, k, at);
                groups.set(k, Group { start: at, len: 0 });
                assert(groups@.map_values(|g: Group| (g.start as int, g.len as int)) =~= replay(
                    post,
                    start as int,
                ).1);
            },
            Path::Close(k) => {
                pad_groups(&mut groups, k, at);
                let g = groups[k];
                proof {
                    assert(groups@.map_values(|g: Group| (g.start as int, g.len as int))[k as int]
                        == (g.start as int, g.len as int));
                }
                groups.set(k, Group { start: g.start, len: at - g.start });
                assert(groups@.map_values(|g: Group| (g.start as int, g.len as int)) =~= replay(
                    post,
                    start as int,
                ).1);
            },
            Path::Char => {
                len = len + 1;
            },
            Path::Query(x) => {
                len = len + x;
            },
        }
        i = i + 1;
    }
    assert(path@.subrange(0, path@.len() as int) =~= path@);
    Match::new(start, len, groups)
}

fn pad_groups(groups: &mut Vec<Group>, i: usize, at: usize)
    requires
        forall|k: int| 0 <= k < old(groups)@.len() ==> (#[trigger] old(groups)@[k]).start <= at,
    ensures
        final(groups)@.map_values(|g: Group| (g.start as int, g.len as int)) == pad(
            old(groups)@.map_values(|g: Group| (g.start as int, g.len as int)),
            i as int,
            at as int,
        ),
        final(groups)@.len() > i,
        forall|k: int| 0 <= k < final(groups)@.len() ==> (#[trigger] final(groups)@[k]).start <= at,
{
    let ghost g0 = old(groups)@.map_values(|g: Group| (g.start as int, g.len as int));
    if i < groups.len() {
        return;
    }
    while groups.len() <= i
        invariant
            old(groups)@.len() <= groups@.len() <= i + 1,
            groups@.map_values(|g: Group| (g.start as int, g.len as int)) =~= g0 + Seq::new(
                (groups@.len() - g0.len()) as nat,
                |k: int| (at as int, 0int),
            ),
            g0.len() == old(groups)@.len(),
            forall|k: int| 0 <= k < groups@.len() ==> (#[trigger] groups@[k]).start <= at,
        decreases i + 1 - groups@.len(),
    {
        let ghost before = groups@;
        groups.push(Group { start: at, len: 0 });
        proof {
            assert(groups@ =~= before.push(Group { start: at, len: 0 }));
            assert(groups@.map_values(|g: Group| (g.start as int, g.len as int)) =~= before.map_values(
                |g: Group| (g.start as int, g.len as int),
            ).push((at as int, 0int)));
            assert(g0 + Seq::new((groups@.len() - g0.len()) as nat, |k: int| (at as int, 0int))
                =~= (g0 + Seq::new((before.len() - g0.len()) as nat, |k: int| (at as int, 0int))).push(
                (at as int, 0int),
            ));
        }
    }
}

proof fn lemma_total_is_chars_read(p: Seq<Path>, start: int)
    ensures
        replay(p, start).0 == chars_read(p),
    decreases p.len(),
{
    if p.len() > 0 {
        lemma_total_is_chars_read(p.drop_last(), start);
    }
}

/// Without query-set transitions, every match of the scan lies within the input.
pub proof fn lemma_scan_within(
    qe: QueryEngine,
    input: Seq<char>,
    nfa: Nfa,
    st: int,
    fuel: nat,
    is: int,
)
    requires
        nfa.wf(),
        no_query(nfa),
        0 <= st < nfa.nodes@.len(),
        0 <= is,
    ensures
        forall|k: int|
            0 <= k < scan(qe, input, nfa, st, fuel, is).len() ==> #[trigger] scan(
                qe,
                input,
                nfa,
                st,
                fuel,
                is,
            )[k].start + scan(qe, input, nfa, st, fuel, is)[k].len <= input.len(),
    decreases input.len() + 1 - is,
{
    if is <= input.len() {
        let q = with_offset(qe, is);
        lemma_search_within(q, input, is, nfa, st, fuel);
        match search(q, input, is, nfa, st, fuel) {
            Some(p) => {
                lemma_total_is_chars_read(p, 0);
                if path_total(p) > 0 && is + path_total(p) <= usize::MAX {
                    let nx = min_next(is + path_total(p), input.len() + 1int);
                    lemma_scan_within(qe, input, nfa, st, fuel, nx);
                    let sc = scan(qe, input, nfa, st, fuel, is);
                    let rest = scan(qe, input, nfa, st, fuel, nx);
                    assert(sc == seq![MatchView { start: is, len: path_total(p), groups: replay(p, is).1 }] + rest);
                    assert(sc[0].start + sc[0].len <= input.len());
                    assert forall|k: int| 0 <= k < sc.len() implies #[trigger] sc[k].start + sc[k].len
                        <= input.len() by {
                        if k > 0 {
                            assert(sc[k] == rest[k - 1]);
                        }
                    }
                } else {
                    lemma_scan_within(qe, input, nfa, st, fuel, is + 1);
                    assert(scan(qe, input, nfa, st, fuel, is) == scan(qe, input, nfa, st, fuel, is + 1));
                }
            },
            None => {
                lemma_scan_within(qe, input, nfa, st, fuel, is + 1);
                assert(scan(qe, input, nfa, st, fuel, is) == scan(qe, input, nfa, st, fuel, is + 1));
            },
        }
    }
}

/// `d`, with start state `st`, is a subset automaton of the automaton compiled
/// from the pattern `r`.
pub open spec fn automaton_of(r: Regex, d: Nfa, st: int) -> bool {
    exists|n: Nfa, s0: NodePointer, e0: NodePointer, en: NodePointer|
        compiled_from(r, n, s0, e0) && #[trigger] subset_automaton(
            n,
            s0,
            e0,
            d,
            NodePointer { id: st as usize },
            en,
        )
}

/// The query engine with its offset set to `o`.
pub open spec fn with_offset(qe: QueryEngine, o: int) -> QueryEngine {
    QueryEngine { idents: qe.idents, functs: qe.functs, offset: o as usize }
}

/// The step budget of a search over `len` characters of an automaton of `n`
/// nodes: enough for every path that does not go round a cycle of steps that
/// consume nothing.
pub open spec fn fuel_for(len: int, n: int) -> nat {
    if (len + 1) * (n + 1) <= usize::MAX {
        ((len + 1) * (n + 1)) as nat
    } else {
        usize::MAX as nat
    }
}

pub open spec fn min_next(a: int, b: int) -> int {
    if a < b {
        a
    } else {
        b
    }
}

/// The matches from position `is` on: at each position, the longest accepting
/// path of the automaton from `st`; one that consumes something is a match and
/// the scan goes on after it, otherwise the scan goes on at the next position.
pub open spec fn scan(
    qe: QueryEngine,
    input: Seq<char>,
    nfa: Nfa,
    st: int,
    fuel: nat,
    is: int,
) -> Seq<MatchView>
    decreases input.len() + 1 - is,
{
    if is < 0 || is > input.len() {
        Seq::empty()
    } else {
        match search(with_offset(qe, is), input, is, nfa, st, fuel) {
            Some(p) => if path_total(p) > 0 && is + path_total(p) <= usize::MAX {
                seq![MatchView { start: is, len: path_total(p), groups: replay(p, is).1 }] + scan(
                    qe,
                    input,
                    nfa,
                    st,
                    fuel,
                    min_next(is + path_total(p), input.len() + 1int),
                )
            } else {
                scan(qe, input, nfa, st, fuel, is + 1)
            },
            None => scan(qe, input, nfa, st, fuel, is + 1),
        }
    }
}

/// For an automaton without query-set transitions, the scan does not depend on
/// the query engine: two engines give the same matches.
pub proof fn lemma_scan_ignores_queries(
    q1: QueryEngine,
    q2: QueryEngine,
    input: Seq<char>,
    nfa: Nfa,
    st: int,
    fuel: nat,
    is: int,
)
    requires
        nfa.wf(),
        no_query(nfa),
        0 <= st < nfa.nodes@.len(),
    ensures
        scan(q1, input, nfa, st, fuel, is) == scan(q2, input, nfa, st, fuel, is),
    decreases input.len() + 1 - is,
{
    if 0 <= is <= input.len() {
        lemma_search_ignores_queries(
            with_offset(q1, is),
            with_offset(q2, is),
            input,
            is,
            nfa,
            st,
            fuel,
        );
        match search(with_offset(q1, is), input, is, nfa, st, fuel) {
            Some(p) => {
                if path_total(p) > 0 && is + path_total(p) <= usize::MAX {
                    lemma_scan_ignores_queries(
                        q1,
                        q2,
                        input,
                        nfa,
                        st,
                        fuel,
                        min_next(is + path_total(p), input.len() + 1int),
                    );
                } else {
                    lemma_scan_ignores_queries(q1, q2, input, nfa, st, fuel, is + 1);
                }
            },
            None => {
                lemma_scan_ignores_queries(q1, q2, input, nfa, st, fuel, is + 1);
            },
        }
    }
}

fn fuel_of(len: usize, n: usize) -> (r: usize)
    ensures
        r == fuel_for(len as int, n as int),
{
    if len < usize::MAX && n < usize::MAX && len + 1 <= usize::MAX / (n + 1) {
        proof {
            assert((len + 1) * (n + 1) <= usize::MAX) by (nonlinear_arith)
                requires
                    len + 1 <= (usize::MAX as int) / (n + 1),
                    n + 1 > 0,
            ;
        }
        (len + 1) * (n + 1)
    } else {
        proof {
            if len < usize::MAX && n < usize::MAX {
                assert((len + 1) * (n + 1) > usize::MAX) by (nonlinear_arith)
                    requires
                        len + 1 > (usize::MAX as int) / (n + 1),
                        n + 1 > 0,
                ;
            } else {
                assert((len + 1) * (n + 1) > usize::MAX) by (nonlinear_arith)
                    requires
                        len + 1 >= 1,
                        n + 1 >= 1,
                        len + 1 > usize::MAX || n + 1 > usize::MAX,
                ;
            }
        }
        usize::MAX
    }
}

/// The non-overlapping matches of `regex` in `input`, left to right. The
/// pattern is compiled, the compiled automaton made deterministic, and then
/// scanned from every position as `scan` states. The query engine's offset is
/// set to each position in turn, so that query sets see positions relative to
/// the start of the match.
pub fn find(qe: &mut QueryEngine, input: &String, regex: &Regex) -> (r: Vec<Match>)
    requires
        input@.len() < usize::MAX,
    ensures
        final(qe).idents == old(qe).idents,
        final(qe).functs == old(qe).functs,
        forall|i: int, j: int|
            0 <= i < j < r@.len() ==> #[trigger] r@[i].start + r@[i].len <= #[trigger] r@[j].start,
        forall|i: int| 0 <= i < r@.len() ==> (#[trigger] r@[i]).len > 0 && r@[i].start <= input@.len(),
        !regex_has_query(*regex) ==> forall|i: int|
            0 <= i < r@.len() ==> #[trigger] r@[i].start + r@[i].len <= input@.len(),
        forall|i: int, k: int|
            0 <= i < r@.len() && 0 <= k < r@[i].groups@.len() ==> r@[i].start <= (
            #[trigger] r@[i].groups@[k]).start && r@[i].groups@[k].start + r@[i].groups@[k].len
                <= r@[i].start + r@[i].len,
        exists|d: Nfa, st: int|
            {
                &&& d.wf()
                &&& 0 <= st < d.nodes@.len()
                &&& (!regex_has_query(*regex) ==> no_query(d))
                &&& automaton_of(*regex, d, st)
                &&& (!regex_has_query(*regex) ==> forall|q: QueryEngine|
                    r@.map_values(|m: Match| match_view(m)) == #[trigger] scan(
                        q,
                        input@,
                        d,
                        st,
                        fuel_for(input@.len() as int, d.nodes@.len() as int),
                        0,
                    ))
                &&& r@.map_values(|m: Match| match_view(m)) == #[trigger] scan(
                    *old(qe),
                    input@,
                    d,
                    st,
                    fuel_for(input@.len() as int, d.nodes@.len() as int),
                    0,
                )
            },
{
    let chars = chars_of(input.as_str());
    let o = build_nfa(regex);
    let (nfa, start, _end) = nfa_to_dfa(&o.0, &o.1, &o.2);
    proof {
        if !regex_has_query(*regex) {
            assert forall|i: int, j: int|
                0 <= i < nfa.nodes@.len() && 0 <= j < nfa.nodes@[i].transitions@.len() implies !(
            crate::nfa::label(#[trigger] nfa.nodes@[i].transitions@[j].kind) is QuerySetRange) by {
                let l = crate::nfa::label(nfa.nodes@[i].transitions@[j].kind);
                let (a, b) = choose|a: int, b: int|
                    0 <= a < o.0.nodes@.len() && 0 <= b < o.0.nodes@[a].transitions@.len()
                        && crate::nfa::label(#[trigger] o.0.nodes@[a].transitions@[b].kind) == l;
            }
        }
    }
    let n = chars.len();
    let fuel = fuel_of(n, nfa.nodes.len());
    let ghost qe0 = *old(qe);
    let ghost st = start.id as int;
    let mut v: Vec<Match> = Vec::new();
    let mut is: usize = 0;
    while is <= n
        invariant
            n == chars@.len(),
            chars@ == input@,
            n < usize::MAX,
            is <= n + 1,
            nfa.wf(),
            start.id < nfa.nodes@.len(),
            st == start.id,
            qe.idents == qe0.idents,
            qe.functs == qe0.functs,
            fuel == fuel_for(n as int, nfa.nodes@.len() as int),
            scan(qe0, chars@, nfa, st, fuel as nat, 0) == v@.map_values(|m: Match| match_view(m))
                + scan(qe0, chars@, nfa, st, fuel as nat, is as int),
            forall|i: int, j: int|
                0 <= i < j < v@.len() ==> #[trigger] v@[i].start + v@[i].len <= #[trigger] v@[j].start,
            forall|i: int|
                0 <= i < v@.len() ==> (#[trigger] v@[i]).len > 0 && v@[i].start <= n && (v@[i].start
                    + v@[i].len <= is || is == n + 1),
            forall|i: int, k: int|
                0 <= i < v@.len() && 0 <= k < v@[i].groups@.len() ==> v@[i].start <= (
                #[trigger] v@[i].groups@[k]).start && v@[i].groups@[k].start
                    + v@[i].groups@[k].len <= v@[i].start + v@[i].len,
        decreases n + 1 - is,
    {
        qe.set_offset(is);
        assert(*qe == with_offset(qe0, is as int));
        let mut path: Vec<Path> = Vec::new();
        let ghost vv = v@.map_values(|m: Match| match_view(m));
        if find_path(qe, &chars, is, &nfa, start.id, &mut path, fuel) {
            assert(path@ =~= Seq::<Path>::empty() + path@);
            let total = path_length(&path);
            let ok = match total {
                Some(t) => t > 0 && t <= usize::MAX - is,
                None => false,
            };
            if ok {
                let t = total.unwrap();
                let m = path_to_matches(&path, is);
                proof {
                    lemma_replay_shift(path@, is as int);
                    assert forall|k: int| 0 <= k < m.groups@.len() implies m.start <= (
                    #[trigger] m.groups@[k]).start && m.groups@[k].start + m.groups@[k].len
                        <= m.start + m.len by {
                        assert(match_view(m).groups[k] == replay(path@, is as int).1[k]);
                    }
                }
                let ghost mv = match_view(m);
                v.push(m);
                assert(v@.map_values(|m: Match| match_view(m)) =~= vv.push(mv));
                let ghost old_is = is as int;
                is = if t > n + 1 - is {
                    n + 1
                } else {
                    is + t
                };
                assert(scan(qe0, chars@, nfa, st, fuel as nat, old_is) == seq![mv] + scan(
                    qe0,
                    chars@,
                    nfa,
                    st,
                    fuel as nat,
                    is as int,
                ));
                assert(vv.push(mv) + scan(qe0, chars@, nfa, st, fuel as nat, is as int) =~= vv + (
                seq![mv] + scan(qe0, chars@, nfa, st, fuel as nat, is as int)));
            } else {
                proof {
                    lemma_replay_shift(path@, is as int);
                }
                assert(scan(qe0, chars@, nfa, st, fuel as nat, is as int) == scan(
                    qe0,
                    chars@,
                    nfa,
                    st,
                    fuel as nat,
                    is + 1,
                ));
                is = is + 1;
            }
        } else {
            assert(scan(qe0, chars@, nfa, st, fuel as nat, is as int) == scan(
                qe0,
                chars@,
                nfa,
                st,
                fuel as nat,
                is + 1,
            ));
            is = is + 1;
        }
    }
    assert(v@.map_values(|m: Match| match_view(m)) =~= v@.map_values(|m: Match| match_view(m))
        + scan(qe0, chars@, nfa, st, fuel as nat, is as int));
    proof {
        assert(NodePointer { id: st as usize } == start);
        assert(subset_automaton(o.0, o.1, o.2, nfa, NodePointer { id: st as usize }, _end));
        assert(compiled_from(*regex, o.0, o.1, o.2));
        if !regex_has_query(*regex) {
            lemma_scan_within(qe0, chars@, nfa, st, fuel as nat, 0);
            let sv = v@.map_values(|m: Match| match_view(m));
            assert(sv == scan(qe0, chars@, nfa, st, fuel as nat, 0));
            assert forall|i: int| 0 <= i < v@.len() implies #[trigger] v@[i].start + v@[i].len
                <= input@.len() by {
                assert(sv[i] == match_view(v@[i]));
                let sc = scan(qe0, chars@, nfa, st, fuel as nat, 0);
                assert(0 <= i < sc.len());
                assert(sc[i].start + sc[i].len <= chars@.len());
            }
            assert forall|q: QueryEngine|
                v@.map_values(|m: Match| match_view(m)) == #[trigger] scan(q, input@, nfa, st, fuel as nat, 0) by {
                lemma_scan_ignores_queries(qe0, q, input@, nfa, st, fuel as nat, 0);
            }
        }
    }
    v
}

} // verus!
