//! A matcher that simulates the automaton from every start position and
//! reports every position at which the simulation accepts.
use vstd::prelude::*;
use crate::nfa::context::{char_moves, node_set, query_moves, valid_part, Context};
use crate::nfa::{label, reachable, Nfa};
use crate::regex2nfa::{compiled_from, no_query, regex_has_query};
use crate::nfa::queryengine::QueryEngine;
use crate::nfa::NodePointer;
use crate::regex2nfa::build_nfa;
use crate::regexparser::ast::Regex;
use crate::text::chars_of;

verus! {

pub struct Group {
    pub _start: usize,
    pub _end: usize,
}

/// A match from `_start`; `_end` counts the simulation steps taken so far
/// over all start positions.
pub struct Match {
    pub _start: usize,
    pub _end: usize,
    pub _groups: Vec<Group>,
}

impl Match {
    pub fn new(_start: usize, _end: usize, _groups: Vec<Group>) -> (r: Self)
        ensures
            r._start == _start,
            r._end == _end,
            r._groups == _groups,
    {
        Self { _start, _end, _groups }
    }

    pub fn start(&self) -> (r: usize)
        ensures
            r == self._start,
    {
        self._start
    }
}

/// The nodes that the simulation holds after reading `w` from the nodes `s0`.
pub open spec fn sim(nfa: Nfa, s0: Set<int>, w: Seq<char>) -> Set<int>
    decreases w.len(),
{
    if w.len() == 0 {
        s0
    } else {
        Set::new(|x: int| reachable(nfa, char_moves(nfa, sim(nfa, s0, w.drop_last()), w.last()), x, true))
    }
}

/// The starts reported for the start position `is`, reading on from position
/// `c`: `is` once for each later position after which the simulation holds `end`.
pub open spec fn hits_from(nfa: Nfa, s0: Set<int>, end: int, text: Seq<char>, is: int, c: int) -> Seq<int>
    decreases text.len() - c,
{
    if c < is || c >= text.len() {
        Seq::empty()
    } else {
        (if sim(nfa, s0, text.subrange(is, c + 1)).contains(end) {
            seq![is]
        } else {
            Seq::empty()
        }) + hits_from(nfa, s0, end, text, is, c + 1)
    }
}

/// The starts reported for the start positions from `is` on.
pub open spec fn all_hits(nfa: Nfa, s0: Set<int>, end: int, text: Seq<char>, is: int) -> Seq<int>
    decreases text.len() - is,
{
    if is < 0 || is >= text.len() {
        Seq::empty()
    } else {
        hits_from(nfa, s0, end, text, is, is) + all_hits(nfa, s0, end, text, is + 1)
    }
}

/// One match for each start position and each later character after which
/// the simulation from that start holds the pattern's exit node; they come in
/// order of start position, and each starts within the input.
pub fn find(input: &String, regex: &Regex) -> (v: Vec<Match>)
    ensures
        forall|i: int| 0 <= i < v@.len() ==> (#[trigger] v@[i])._start < input@.len(),
        forall|i: int, j: int| 0 <= i < j < v@.len() ==> #[trigger] v@[i]._start <= #[trigger] v@[j]._start,
        !regex_has_query(*regex) ==> exists|nfa: Nfa, st: NodePointer, en: NodePointer|
            #[trigger] compiled_from(*regex, nfa, st, en) && v@.map_values(|m: Match| m._start as int)
                == all_hits(
                nfa,
                Set::new(|x: int| reachable(nfa, set![st.id as int], x, true)),
                en.id as int,
                input@,
                0,
            ),
{
    let cs = chars_of(input.as_str());
    let mut v: Vec<Match> = Vec::new();
    let (nfa, start, end) = build_nfa(regex);
    let ghost nq = !regex_has_query(*regex);
    let ghost s0 = Set::new(|x: int| reachable(nfa, set![start.id as int], x, true));
    let ghost en = end.id as int;
    let qe = QueryEngine::new();
    let mut ctx0 = Context::new(Vec::new());
    let init = vec![start];
    let ghost iv = init@;
    ctx0.add_epsilons(init, &nfa);
    proof {
        assert(iv.len() == 1 && iv[0] == start);
        assert(valid_part(nfa, node_set(iv)) =~= set![start.id as int]) by {
            assert forall|x: int| node_set(iv).contains(x) <==> x == start.id by {
                if x == start.id {
                    assert(iv[0].id == x);
                }
            }
        }
        assert forall|x: int| node_set(ctx0.nodes@).contains(x) <==> s0.contains(x) by {
            assert(reachable(nfa, valid_part(nfa, node_set(iv)), x, true) == reachable(nfa, set![start.id as int], x, true));
        }
        assert(node_set(ctx0.nodes@) =~= s0);
        assert(v@.map_values(|m: Match| m._start as int) =~= Seq::<int>::empty());
    }
    let mut ie: usize = 0;
    let mut is: usize = 0;
    while is < cs.len()
        invariant
            nfa.wf(),
            start.id < nfa.nodes@.len(),
            forall|k: int| 0 <= k < ctx0.nodes@.len() ==> #[trigger] ctx0.nodes@[k].id
                < nfa.nodes@.len(),
            cs@ == input@,
            forall|i: int| 0 <= i < v@.len() ==> (#[trigger] v@[i])._start <= is && v@[i]._start < cs@.len(),
            forall|i: int, j: int| 0 <= i < j < v@.len() ==> #[trigger] v@[i]._start <= #[trigger] v@[j]._start,
            nq ==> no_query(nfa),
            node_set(ctx0.nodes@) == s0,
            s0 == Set::new(|x: int| reachable(nfa, set![start.id as int], x, true)),
            en == end.id,
            nq ==> all_hits(nfa, s0, en, cs@, 0) == v@.map_values(|m: Match| m._start as int) + all_hits(
                nfa,
                s0,
                en,
                cs@,
                is as int,
            ),
        decreases cs@.len() - is,
    {
        let ghost vs0 = v@.map_values(|m: Match| m._start as int);
        let mut ctx = Context::new(copy_nodes(&ctx0.nodes));
        proof {
            assert(cs@.subrange(is as int, is as int) =~= Seq::<char>::empty());
            assert(ctx.nodes@ == ctx0.nodes@);
            if nq {
                assert(all_hits(nfa, s0, en, cs@, is as int) == hits_from(nfa, s0, en, cs@, is as int, is as int)
                    + all_hits(nfa, s0, en, cs@, is + 1));
                assert(vs0 + (hits_from(nfa, s0, en, cs@, is as int, is as int) + all_hits(nfa, s0, en, cs@, is + 1))
                    =~= vs0 + hits_from(nfa, s0, en, cs@, is as int, is as int) + all_hits(nfa, s0, en, cs@, is + 1));
            }
        }
        let mut c = is;
        while c < cs.len()
            invariant
                nfa.wf(),
                is < cs@.len(),
                is <= c <= cs@.len(),
                forall|k: int| 0 <= k < ctx.nodes@.len() ==> #[trigger] ctx.nodes@[k].id
                    < nfa.nodes@.len(),
                forall|i: int| 0 <= i < v@.len() ==> (#[trigger] v@[i])._start <= is && v@[i]._start < cs@.len(),
                forall|i: int, j: int| 0 <= i < j < v@.len() ==> #[trigger] v@[i]._start <= #[trigger] v@[j]._start,
                nq ==> no_query(nfa),
                nq ==> node_set(ctx.nodes@) == sim(nfa, s0, cs@.subrange(is as int, c as int)),
                en == end.id,
                nq ==> all_hits(nfa, s0, en, cs@, 0) == v@.map_values(|m: Match| m._start as int)
                    + hits_from(nfa, s0, en, cs@, is as int, c as int) + all_hits(nfa, s0, en, cs@, is + 1),
            decreases cs@.len() - c,
        {
            if ie < usize::MAX {
                ie = ie + 1;
            }
            let ghost old_set = node_set(ctx.nodes@);
            let ghost vs1 = v@.map_values(|m: Match| m._start as int);
            ctx.step(&nfa, cs[c], &qe);
            proof {
                if nq {
                    let w = cs@.subrange(is as int, c + 1);
                    assert(w.drop_last() =~= cs@.subrange(is as int, c as int));
                    assert(w.last() == cs@[c as int]);
                    assert forall|b: int| !query_moves(nfa, old_set).contains(b) by {
                        if query_moves(nfa, old_set).contains(b) {
                            let (a2, j2) = choose|a2: int, j2: int|
                                old_set.contains(a2) && 0 <= a2 < nfa.nodes@.len() && 0 <= j2
                                    < nfa.nodes@[a2].transitions@.len() && #[trigger] nfa.nodes@[a2].transitions@[j2].dest.id
                                    == b && label(nfa.nodes@[a2].transitions@[j2].kind) is QuerySetRange;
                        }
                    }
                    let m = choose|m: Set<int>|
                        {
                            &&& char_moves(nfa, old_set, cs@[c as int]).subset_of(m)
                            &&& m.subset_of(
                                char_moves(nfa, old_set, cs@[c as int]).union(query_moves(nfa, old_set)),
                            )
                            &&& forall|x: int|
                                #![trigger reachable(nfa, m, x, true)]
                                node_set(ctx.nodes@).contains(x) <==> reachable(nfa, m, x, true)
                        };
                    assert(m =~= char_moves(nfa, old_set, cs@[c as int]));
                    assert(node_set(ctx.nodes@) =~= sim(nfa, s0, w));
                }
            }
            if ctx.contains(&end) {
                v.push(Match::new(is, ie, Vec::new()));
                assert(v@.map_values(|m: Match| m._start as int) =~= vs1.push(is as int));
            } else {
                assert(v@.map_values(|m: Match| m._start as int) =~= vs1);
            }
            proof {
                if nq {
                    let w = cs@.subrange(is as int, c + 1);
                    assert(hits_from(nfa, s0, en, cs@, is as int, c as int) == (if sim(nfa, s0, w).contains(en) {
                        seq![is as int]
                    } else {
                        Seq::empty()
                    }) + hits_from(nfa, s0, en, cs@, is as int, c + 1));
                    if sim(nfa, s0, w).contains(en) {
                        assert(vs1 + (seq![is as int] + hits_from(nfa, s0, en, cs@, is as int, c + 1))
                            =~= vs1.push(is as int) + hits_from(nfa, s0, en, cs@, is as int, c + 1));
                    } else {
                        assert(Seq::<int>::empty() + hits_from(nfa, s0, en, cs@, is as int, c + 1)
                            =~= hits_from(nfa, s0, en, cs@, is as int, c + 1));
                    }
                }
            }
            c = c + 1;
        }
        proof {
            assert(hits_from(nfa, s0, en, cs@, is as int, c as int) =~= Seq::<int>::empty());
            assert(v@.map_values(|m: Match| m._start as int) + Seq::<int>::empty() =~= v@.map_values(
                |m: Match| m._start as int,
            ));
        }
        is = is + 1;
    }
    proof {
        assert(v@.map_values(|m: Match| m._start as int) + Seq::<int>::empty() =~= v@.map_values(
            |m: Match| m._start as int,
        ));
        assert(compiled_from(*regex, nfa, start, end));
    }
    v
}

fn copy_nodes(v: &Vec<NodePointer>) -> (r: Vec<NodePointer>)
    ensures
        r@ == v@,
{
    let mut r: Vec<NodePointer> = Vec::new();
    let mut i: usize = 0;
    while i < v.len()
        invariant
            i <= v@.len(),
            r@ == v@.subrange(0, i as int),
        decreases v@.len() - i,
    {
        r.push(v[i]);
        i = i + 1;
        assert(r@ =~= v@.subrange(0, i as int));
    }
    assert(v@.subrange(0, v@.len() as int) =~= v@);
    r
}

} // verus!
