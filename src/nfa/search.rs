//! The backtracking search for the longest accepting path from a position.
use vstd::prelude::*;
use crate::nfa::queryengine::QueryEngine;
use crate::nfa::{label, Label, Nfa, NodeType, Transition, TransitionType};
use crate::regex2nfa::no_query;

verus! {

/// One step of an accepting path.
#[derive(Debug, Clone, Copy, PartialEq, Eq, Structural)]
pub enum Path {
    Open(usize),
    Close(usize),
    Char,
    Query(usize),
}

pub open spec fn accepts(nfa: Nfa, node: int) -> bool {
    nfa.nodes@[node].nt == NodeType::Accept
}

/// The empty path when `node` accepts.
pub open spec fn stop(nfa: Nfa, node: int) -> Option<Seq<Path>> {
    if accepts(nfa, node) {
        Some(Seq::empty())
    } else {
        None
    }
}

pub open spec fn prefixed(p: Path, r: Option<Seq<Path>>) -> Option<Seq<Path>> {
    match r {
        Some(s) => Some(seq![p] + s),
        None => None,
    }
}

/// The longer of two outcomes; the first one on a tie.
pub open spec fn longer(b: Option<Seq<Path>>, c: Option<Seq<Path>>) -> Option<Seq<Path>> {
    match b {
        None => c,
        Some(lp) => match c {
            Some(np) => if np.len() > lp.len() {
                c
            } else {
                b
            },
            None => b,
        },
    }
}

pub open spec fn min_index(a: int, b: int) -> int {
    if a < b {
        a
    } else {
        b
    }
}

/// What following transition `t` of `node` at `index` yields: the path through
/// it, or the empty path where it does not fire and `node` accepts.
pub open spec fn candidate(
    qe: QueryEngine,
    input: Seq<char>,
    index: int,
    nfa: Nfa,
    node: int,
    t: Transition,
    fuel: nat,
) -> Option<Seq<Path>>
    decreases fuel, 0int, 0int,
{
    if fuel == 0 {
        None
    } else {
        let c = input[index];
        let next = (fuel - 1) as nat;
        let d = t.dest.id as int;
        match label(t.kind) {
            Label::Alpha(x) => if x == c {
                prefixed(Path::Char, search(qe, input, index + 1, nfa, d, next))
            } else {
                stop(nfa, node)
            },
            Label::Any => prefixed(Path::Char, search(qe, input, index + 1, nfa, d, next)),
            Label::Range(s) => if s.contains(c) {
                prefixed(Path::Char, search(qe, input, index + 1, nfa, d, next))
            } else {
                stop(nfa, node)
            },
            Label::NegativeRange(s) => if !s.contains(c) {
                prefixed(Path::Char, search(qe, input, index + 1, nfa, d, next))
            } else {
                stop(nfa, node)
            },
            Label::Open(i) => prefixed(Path::Open(i), search(qe, input, index, nfa, d, next)),
            Label::Close(i) => prefixed(Path::Close(i), search(qe, input, index, nfa, d, next)),
            Label::QuerySetRange(q) => match qe.query_spec((index - qe.offset) as usize, q) {
                Some(x) => prefixed(
                    Path::Query(x),
                    search(qe, input, min_index(index + x, input.len() as int), nfa, d, next),
                ),
                None => stop(nfa, node),
            },
            Label::Epsilon => stop(nfa, node),
        }
    }
}

/// The longest outcome over the first `k` transitions of `node`.
pub open spec fn best(
    qe: QueryEngine,
    input: Seq<char>,
    index: int,
    nfa: Nfa,
    node: int,
    fuel: nat,
    k: int,
) -> Option<Seq<Path>>
    decreases fuel, 1int, k,
{
    if k <= 0 {
        None
    } else {
        longer(
            best(qe, input, index, nfa, node, fuel, k - 1),
            candidate(qe, input, index, nfa, node, nfa.nodes@[node].transitions@[k - 1], fuel),
        )
    }
}

/// At the end of the input: a closing group marker into an accepting node, or
/// the empty path where `node` accepts.
pub open spec fn end_search(nfa: Nfa, node: int, k: int) -> Option<Seq<Path>>
    decreases nfa.nodes@[node].transitions@.len() - k,
{
    if k < 0 || k >= nfa.nodes@[node].transitions@.len() {
        stop(nfa, node)
    } else {
        let t = nfa.nodes@[node].transitions@[k];
        match label(t.kind) {
            Label::Close(i) => if accepts(nfa, t.dest.id as int) {
                Some(seq![Path::Close(i)])
            } else {
                end_search(nfa, node, k + 1)
            },
            _ => end_search(nfa, node, k + 1),
        }
    }
}

/// The longest accepting path from `node` at `index`, within `fuel` steps.
pub open spec fn search(
    qe: QueryEngine,
    input: Seq<char>,
    index: int,
    nfa: Nfa,
    node: int,
    fuel: nat,
) -> Option<Seq<Path>>
    decreases fuel, 2int, 0int,
{
    if fuel == 0 {
        stop(nfa, node)
    } else if index < input.len() {
        match best(qe, input, index, nfa, node, fuel, nfa.nodes@[node].transitions@.len() as int) {
            Some(p) => Some(p),
            None => stop(nfa, node),
        }
    } else {
        end_search(nfa, node, 0)
    }
}

pub open spec fn opt_view(o: Option<Vec<Path>>) -> Option<Seq<Path>> {
    match o {
        Some(v) => Some(v@),
        None => None,
    }
}

/// Searches for the longest accepting path from `node` at `index`, taking at
/// most `fuel` steps, and appends it to `path`.
pub fn find_path(
    qe: &QueryEngine,
    input: &Vec<char>,
    index: usize,
    nfa: &Nfa,
    node: usize,
    path: &mut Vec<Path>,
    fuel: usize,
) -> (r: bool)
    requires
        nfa.wf(),
        node < nfa.nodes@.len(),
        index <= input@.len(),
        index >= qe.offset,
    ensures
        r == search(*qe, input@, index as int, *nfa, node as int, fuel as nat) is Some,
        final(path)@ == old(path)@ + match search(
            *qe,
            input@,
            index as int,
            *nfa,
            node as int,
            fuel as nat,
        ) {
            Some(p) => p,
            None => Seq::empty(),
        },
    decreases fuel,
{
    let accept = nfa.nodes[node].nt == NodeType::Accept;
    if fuel == 0 {
        assert(old(path)@ + Seq::<Path>::empty() =~= old(path)@);
        return accept;
    }
    let ts = &nfa.nodes[node].transitions;
    if index < input.len() {
        let cur_char = input[index];
        let n = input.len();
        let mut longest_path: Option<Vec<Path>> = None;
        let mut k: usize = 0;
        while k < ts.len()
            invariant
                nfa.wf(),
                node < nfa.nodes@.len(),
                index < input@.len(),
                index < n,
                n == input@.len(),
                index >= qe.offset,
                fuel > 0,
                cur_char == input@[index as int],
                *ts == nfa.nodes@[node as int].transitions,
                accept == accepts(*nfa, node as int),
                k <= ts@.len(),
                opt_view(longest_path) == best(
                    *qe,
                    input@,
                    index as int,
                    *nfa,
                    node as int,
                    fuel as nat,
                    k as int,
                ),
            decreases ts@.len() - k,
        {
            let transition = &ts[k];
            assert(transition.dest.id < nfa.nodes@.len());
            let ghost cand = candidate(
                *qe,
                input@,
                index as int,
                *nfa,
                node as int,
                *transition,
                fuel as nat,
            );
            let mut new_path: Vec<Path> = Vec::new();
            let b = match &transition.kind {
                TransitionType::Alpha(c) => {
                    if *c == cur_char {
                        new_path.push(Path::Char);
                        find_path(qe, input, index + 1, nfa, transition.dest.id, &mut new_path, fuel - 1)
                    } else {
                        accept
                    }
                },
                TransitionType::Any => {
                    new_path.push(Path::Char);
                    find_path(qe, input, index + 1, nfa, transition.dest.id, &mut new_path, fuel - 1)
                },
                TransitionType::NegativeRange(s) => {
                    if !class_contains(s, cur_char) {
                        new_path.push(Path::Char);
                        find_path(qe, input, index + 1, nfa, transition.dest.id, &mut new_path, fuel - 1)
                    } else {
                        accept
                    }
                },
                TransitionType::Range(s) => {
                    if class_contains(s, cur_char) {
                        new_path.push(Path::Char);
                        find_path(qe, input, index + 1, nfa, transition.dest.id, &mut new_path, fuel - 1)
                    } else {
                        accept
                    }
                },
                TransitionType::Open(i) => {
                    new_path.push(Path::Open(*i));
                    find_path(qe, input, index, nfa, transition.dest.id, &mut new_path, fuel - 1)
                },
                TransitionType::Close(i) => {
                    new_path.push(Path::Close(*i));
                    find_path(qe, input, index, nfa, transition.dest.id, &mut new_path, fuel - 1)
                },
                TransitionType::QuerySetRange(s) => {
                    match qe.query(index - qe.offset, s) {
                        Some(x) => {
                            new_path.push(Path::Query(x));
                            let next = if x > input.len() - index {
                                input.len()
                            } else {
                                index + x
                            };
                            find_path(qe, input, next, nfa, transition.dest.id, &mut new_path, fuel - 1)
                        },
                        None => accept,
                    }
                },
                TransitionType::Epsilon => accept,
            };
            proof {
                if b {
                    assert(new_path@.len() == 0 ==> cand == Some(Seq::<Path>::empty()));
                    assert(cand == Some(new_path@)) by {
                        if new_path@.len() > 0 {
                            assert(new_path@ =~= seq![new_path@[0]] + new_path@.drop_first());
                        }
                    }
                } else {
                    assert(cand is None);
                }
            }
            if b {
                let replace = match &longest_path {
                    Some(lp) => new_path.len() > lp.len(),
                    None => true,
                };
                if replace {
                    longest_path = Some(new_path);
                }
            }
            k = k + 1;
        }
        match longest_path {
            Some(lp) => {
                let mut lp = lp;
                path.append(&mut lp);
                true
            },
            None => {
                assert(old(path)@ + Seq::<Path>::empty() =~= old(path)@);
                accept
            },
        }
    } else {
        let mut k: usize = 0;
        while k < ts.len()
            invariant
                nfa.wf(),
                node < nfa.nodes@.len(),
                *ts == nfa.nodes@[node as int].transitions,
                *path == *old(path),
                index >= input@.len(),
                fuel > 0,
                k <= ts@.len(),
                end_search(*nfa, node as int, 0) == end_search(*nfa, node as int, k as int),
            decreases ts@.len() - k,
        {
            let transition = &ts[k];
            assert(transition.dest.id < nfa.nodes@.len());
            match &transition.kind {
                TransitionType::Close(i) => {
                    if nfa.nodes[transition.dest.id].nt == NodeType::Accept {
                        path.push(Path::Close(*i));
                        assert(search(*qe, input@, index as int, *nfa, node as int, fuel as nat)
                            == end_search(*nfa, node as int, 0));
                        assert(path@ =~= old(path)@ + seq![Path::Close(*i)]);
                        return true;
                    }
                },
                _ => {},
            }
            k = k + 1;
        }
        assert(old(path)@ + Seq::<Path>::empty() =~= old(path)@);
        assert(search(*qe, input@, index as int, *nfa, node as int, fuel as nat) == end_search(
            *nfa,
            node as int,
            0,
        ));
        accept
    }
}

/// Without query-set transitions, the search does not consult the query engine:
/// two engines give the same outcome.
pub proof fn lemma_search_ignores_queries(
    q1: QueryEngine,
    q2: QueryEngine,
    input: Seq<char>,
    index: int,
    nfa: Nfa,
    node: int,
    fuel: nat,
)
    requires
        nfa.wf(),
        no_query(nfa),
        0 <= node < nfa.nodes@.len(),
    ensures
        search(q1, input, index, nfa, node, fuel) == search(q2, input, index, nfa, node, fuel),
    decreases fuel, 2int, 0int,
{
    if fuel > 0 && index < input.len() {
        lemma_best_ignores_queries(
            q1,
            q2,
            input,
            index,
            nfa,
            node,
            fuel,
            nfa.nodes@[node].transitions@.len() as int,
        );
    }
}

proof fn lemma_best_ignores_queries(
    q1: QueryEngine,
    q2: QueryEngine,
    input: Seq<char>,
    index: int,
    nfa: Nfa,
    node: int,
    fuel: nat,
    k: int,
)
    requires
        nfa.wf(),
        no_query(nfa),
        0 <= node < nfa.nodes@.len(),
        k <= nfa.nodes@[node].transitions@.len(),
    ensures
        best(q1, input, index, nfa, node, fuel, k) == best(q2, input, index, nfa, node, fuel, k),
    decreases fuel, 1int, k,
{
    if k > 0 {
        lemma_best_ignores_queries(q1, q2, input, index, nfa, node, fuel, k - 1);
        lemma_candidate_ignores_queries(q1, q2, input, index, nfa, node, fuel, k - 1);
    }
}

proof fn lemma_candidate_ignores_queries(
    q1: QueryEngine,
    q2: QueryEngine,
    input: Seq<char>,
    index: int,
    nfa: Nfa,
    node: int,
    fuel: nat,
    k: int,
)
    requires
        nfa.wf(),
        no_query(nfa),
        0 <= node < nfa.nodes@.len(),
        0 <= k < nfa.nodes@[node].transitions@.len(),
    ensures
        candidate(q1, input, index, nfa, node, nfa.nodes@[node].transitions@[k], fuel) == candidate(
            q2,
            input,
            index,
            nfa,
            node,
            nfa.nodes@[node].transitions@[k],
            fuel,
        ),
    decreases fuel, 0int, 0int,
{
    let t = nfa.nodes@[node].transitions@[k];
    if fuel > 0 {
        let next = (fuel - 1) as nat;
        let d = t.dest.id as int;
        assert(d < nfa.nodes@.len());
        assert(!(label(t.kind) is QuerySetRange));
        lemma_search_ignores_queries(q1, q2, input, index + 1, nfa, d, next);
        lemma_search_ignores_queries(q1, q2, input, index, nfa, d, next);
    }
}

/// Whether the character class `s` holds `c`.
pub fn class_contains(s: &String, c: char) -> (r: bool)
    ensures
        r == s@.contains(c),
{
    let v = crate::text::chars_of(s.as_str());
    let mut i: usize = 0;
    while i < v.len()
        invariant
            i <= v@.len(),
            v@ == s@,
            forall|j: int| 0 <= j < i ==> v@[j] != c,
        decreases v@.len() - i,
    {
        if v[i] == c {
            return true;
        }
        i = i + 1;
    }
    false
}

/// The characters that a path reads: one for each character step, and what
/// each query step consumed.
pub open spec fn chars_read(p: Seq<Path>) -> int
    decreases p.len(),
{
    if p.len() == 0 {
        0
    } else {
        chars_read(p.drop_last()) + match p.last() {
            Path::Char => 1int,
            Path::Query(x) => x as int,
            _ => 0int,
        }
    }
}

proof fn lemma_chars_read_prefix(q: Path, p: Seq<Path>)
    ensures
        chars_read(seq![q] + p) == chars_read(p) + match q {
            Path::Char => 1int,
            Path::Query(x) => x as int,
            _ => 0int,
        },
    decreases p.len(),
{
    if p.len() == 0 {
        assert(seq![q] + p =~= seq![q]);
        assert(seq![q].drop_last() =~= Seq::<Path>::empty());
        assert(chars_read(Seq::<Path>::empty()) == 0);
        assert(seq![q].last() == q);
    } else {
        assert((seq![q] + p).drop_last() =~= seq![q] + p.drop_last());
        assert((seq![q] + p).last() == p.last());
        lemma_chars_read_prefix(q, p.drop_last());
    }
}

proof fn lemma_end_search_reads_nothing(nfa: Nfa, node: int, k: int)
    ensures
        end_search(nfa, node, k) matches Some(p) ==> chars_read(p) == 0,
    decreases nfa.nodes@[node].transitions@.len() - k,
{
    assert(chars_read(Seq::<Path>::empty()) == 0);
    if !(k < 0 || k >= nfa.nodes@[node].transitions@.len()) {
        lemma_end_search_reads_nothing(nfa, node, k + 1);
        let t = nfa.nodes@[node].transitions@[k];
        if let Label::Close(i) = label(t.kind) {
            assert(seq![Path::Close(i)].drop_last() =~= Seq::<Path>::empty());
            assert(seq![Path::Close(i)].last() == Path::Close(i));
            assert(chars_read(seq![Path::Close(i)]) == 0);
        }
    }
}

/// Without query-set transitions, a path found from `index` reads no more
/// characters than are left in the input.
pub proof fn lemma_search_within(
    qe: QueryEngine,
    input: Seq<char>,
    index: int,
    nfa: Nfa,
    node: int,
    fuel: nat,
)
    requires
        nfa.wf(),
        no_query(nfa),
        0 <= node < nfa.nodes@.len(),
        0 <= index <= input.len(),
    ensures
        search(qe, input, index, nfa, node, fuel) matches Some(p) ==> chars_read(p) <= input.len()
            - index,
    decreases fuel, 2int, 0int,
{
    if fuel > 0 {
        if index < input.len() {
            lemma_best_within(qe, input, index, nfa, node, fuel, nfa.nodes@[node].transitions@.len() as int);
        } else {
            lemma_end_search_reads_nothing(nfa, node, 0);
        }
    }
}

proof fn lemma_best_within(
    qe: QueryEngine,
    input: Seq<char>,
    index: int,
    nfa: Nfa,
    node: int,
    fuel: nat,
    k: int,
)
    requires
        nfa.wf(),
        no_query(nfa),
        0 <= node < nfa.nodes@.len(),
        0 <= index < input.len(),
        k <= nfa.nodes@[node].transitions@.len(),
    ensures
        best(qe, input, index, nfa, node, fuel, k) matches Some(p) ==> chars_read(p) <= input.len()
            - index,
    decreases fuel, 1int, k,
{
    if k > 0 {
        lemma_best_within(qe, input, index, nfa, node, fuel, k - 1);
        lemma_candidate_within(qe, input, index, nfa, node, fuel, k - 1);
    }
}

proof fn lemma_candidate_within(
    qe: QueryEngine,
    input: Seq<char>,
    index: int,
    nfa: Nfa,
    node: int,
    fuel: nat,
    k: int,
)
    requires
        nfa.wf(),
        no_query(nfa),
        0 <= node < nfa.nodes@.len(),
        0 <= index < input.len(),
        0 <= k < nfa.nodes@[node].transitions@.len(),
    ensures
        candidate(qe, input, index, nfa, node, nfa.nodes@[node].transitions@[k], fuel) matches Some(p)
            ==> chars_read(p) <= input.len() - index,
    decreases fuel, 0int, 0int,
{
    let t = nfa.nodes@[node].transitions@[k];
    if fuel > 0 {
        let next = (fuel - 1) as nat;
        let d = t.dest.id as int;
        assert(d < nfa.nodes@.len());
        assert(!(label(t.kind) is QuerySetRange));
        assert(chars_read(Seq::<Path>::empty()) == 0);
        lemma_search_within(qe, input, index + 1, nfa, d, next);
        lemma_search_within(qe, input, index, nfa, d, next);
        if let Some(sp) = search(qe, input, index + 1, nfa, d, next) {
            lemma_chars_read_prefix(Path::Char, sp);
        }
        if let Some(sp) = search(qe, input, index, nfa, d, next) {
            match label(t.kind) {
                Label::Open(i) => lemma_chars_read_prefix(Path::Open(i), sp),
                Label::Close(i) => lemma_chars_read_prefix(Path::Close(i), sp),
                _ => {},
            }
        }
    }
}

} // verus!
