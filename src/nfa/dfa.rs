//! Subset construction: from an automaton with epsilon transitions to one
//! without, whose states are epsilon closures. Group markers and query sets
//! are kept as edge labels.
use vstd::prelude::*;
use crate::nfa::{
    copy_kind, count_true, label, lemma_count_true_bound, lemma_count_true_set, reach, reachable,
    same_kind, Label, Nfa, NodePointer, NodeType, Transition, TransitionType,
};

verus! {

/// `c` lists, in increasing order, the nodes reached from `start` by epsilon transitions.
#[verifier::opaque]
pub open spec fn is_closure(nfa: Nfa, start: usize, c: Seq<usize>) -> bool {
    &&& forall|i: int, j: int| 0 <= i < j < c.len() ==> c[i] < c[j]
    &&& forall|x: usize|
        #![trigger c.contains(x)]
        c.contains(x) <==> reachable(nfa, set![start as int], x as int, false)
}

/// Every state of the map is a node of `dfa`.
pub open spec fn map_ok(map: Seq<(Vec<usize>, NodePointer)>, dfa: Nfa) -> bool {
    forall|k: int| 0 <= k < map.len() ==> (#[trigger] map[k]).1.id < dfa.nodes@.len()
}

/// `new` is `old` with at most one node added, which has no transitions.
pub open spec fn extends(old: Nfa, new: Nfa) -> bool {
    &&& new.index == old.index
    &&& old.nodes@.len() <= new.nodes@.len() <= old.nodes@.len() + 1
    &&& forall|i: int| 0 <= i < old.nodes@.len() ==> #[trigger] new.nodes@[i] == old.nodes@[i]
    &&& forall|i: int|
        old.nodes@.len() <= i < new.nodes@.len() ==> (#[trigger] new.nodes@[i]).transitions@.len()
            == 0
}

/// Every transition of `dfa` reads something, and what it reads some transition of `nfa` reads.
pub open spec fn labels_from(dfa: Nfa, nfa: Nfa) -> bool {
    forall|i: int, j: int|
        0 <= i < dfa.nodes@.len() && 0 <= j < dfa.nodes@[i].transitions@.len() ==> {
            let l = label(#[trigger] dfa.nodes@[i].transitions@[j].kind);
            &&& !(l is Epsilon)
            &&& exists|a: int, b: int|
                0 <= a < nfa.nodes@.len() && 0 <= b < nfa.nodes@[a].transitions@.len() && label(
                    #[trigger] nfa.nodes@[a].transitions@[b].kind,
                ) == l
        }
}

/// `c` is the epsilon closure of some node of `nfa`.
pub open spec fn closure_of_some(nfa: Nfa, c: Seq<usize>) -> bool {
    exists|x: usize| x < nfa.nodes@.len() && #[trigger] is_closure(nfa, x, c)
}

/// The states of the subset automaton: state `k` is the `k`-th entry of
/// `map`, whose set is the epsilon closure of some node of `nfa`; no two states
/// have the same set, and a state accepts exactly when its set holds `end`.
pub open spec fn state_table(nfa: Nfa, map: Seq<(Vec<usize>, NodePointer)>, dfa: Nfa, end: usize) -> bool {
    &&& dfa.nodes@.len() == map.len()
    &&& forall|k: int| 0 <= k < map.len() ==> (#[trigger] map[k]).1.id == k
    &&& forall|k: int| 0 <= k < map.len() ==> closure_of_some(nfa, (#[trigger] map[k]).0@)
    &&& forall|k: int|
        0 <= k < map.len() ==> ((#[trigger] dfa.nodes@[k]).nt == NodeType::Accept <==> map[k].0@.contains(
            end,
        ))
    &&& forall|k1: int, k2: int|
        0 <= k1 < k2 < map.len() ==> (#[trigger] map[k1]).0@ != (#[trigger] map[k2]).0@
}

/// The transition `t` of state `k` reads what a transition of a node in the
/// set of `k` reads, and leads to the state whose set is the closure of that
/// transition's destination.
pub open spec fn justified(nfa: Nfa, map: Seq<(Vec<usize>, NodePointer)>, k: int, t: Transition) -> bool {
    exists|a: usize, b: int|
        #![trigger map[k].0@.contains(a), nfa.nodes@[a as int].transitions@[b]]
        map[k].0@.contains(a) && a < nfa.nodes@.len() && 0 <= b < nfa.nodes@[a as int].transitions@.len()
            && label(nfa.nodes@[a as int].transitions@[b].kind) == label(t.kind) && is_closure(
            nfa,
            nfa.nodes@[a as int].transitions@[b].dest.id,
            map[t.dest.id as int].0@,
        )
}

/// Every transition of the subset automaton is justified.
pub open spec fn transitions_justified(nfa: Nfa, map: Seq<(Vec<usize>, NodePointer)>, dfa: Nfa) -> bool {
    forall|k: int, j: int|
        0 <= k < dfa.nodes@.len() && 0 <= j < dfa.nodes@[k].transitions@.len() ==> justified(
            nfa,
            map,
            k,
            #[trigger] dfa.nodes@[k].transitions@[j],
        )
}

proof fn lemma_justified_grow(
    nfa: Nfa,
    m0: Seq<(Vec<usize>, NodePointer)>,
    m1: Seq<(Vec<usize>, NodePointer)>,
    d0: Nfa,
    d1: Nfa,
)
    requires
        d0.wf(),
        d0.nodes@.len() == m0.len(),
        transitions_justified(nfa, m0, d0),
        m0.len() <= m1.len(),
        forall|k: int| 0 <= k < m0.len() ==> #[trigger] m1[k] == m0[k],
        extends(d0, d1),
    ensures
        transitions_justified(nfa, m1, d1),
{
    assert forall|k: int, j: int|
        0 <= k < d1.nodes@.len() && 0 <= j < d1.nodes@[k].transitions@.len() implies justified(
        nfa,
        m1,
        k,
        #[trigger] d1.nodes@[k].transitions@[j],
    ) by {
        assert(d1.nodes@[k] == d0.nodes@[k]);
        let t = d0.nodes@[k].transitions@[j];
        assert(justified(nfa, m0, k, t));
        assert(t.dest.id < d0.nodes@.len());
        assert(m1[k] == m0[k]);
        assert(m1[t.dest.id as int] == m0[t.dest.id as int]);
        let (a, b) = choose|a: usize, b: int|
            #![trigger m0[k].0@.contains(a), nfa.nodes@[a as int].transitions@[b]]
            m0[k].0@.contains(a) && a < nfa.nodes@.len() && 0 <= b
                < nfa.nodes@[a as int].transitions@.len() && label(
                nfa.nodes@[a as int].transitions@[b].kind,
            ) == label(t.kind) && is_closure(
                nfa,
                nfa.nodes@[a as int].transitions@[b].dest.id,
                m0[t.dest.id as int].0@,
            );
        assert(m1[k].0@.contains(a));
    }
}

fn same_state(a: &Vec<usize>, b: &Vec<usize>) -> (r: bool)
    ensures
        r == (a@ == b@),
{
    if a.len() != b.len() {
        return false;
    }
    let mut i: usize = 0;
    while i < a.len()
        invariant
            a@.len() == b@.len(),
            i <= a@.len(),
            forall|j: int| 0 <= j < i ==> a@[j] == b@[j],
        decreases a@.len() - i,
    {
        if a[i] != b[i] {
            return false;
        }
        i = i + 1;
    }
    assert(a@ =~= b@);
    true
}

/// The state of the subset automaton for the closure of `start`: the one that
/// `map` already has for it, or a new one (accepting when the closure holds
/// `old_end`), which is then recorded in `map`.
#[verifier::loop_isolation(false)]
pub fn get_new_state(
    old_nfa: &Nfa,
    dfa: &mut Nfa,
    e_closure_map: &mut Vec<(Vec<usize>, NodePointer)>,
    start: usize,
    old_end: usize,
) -> (r: (NodePointer, Vec<usize>))
    requires
        old_nfa.wf(),
        start < old_nfa.nodes@.len(),
        map_ok(old(e_closure_map)@, *old(dfa)),
        state_table(*old_nfa, old(e_closure_map)@, *old(dfa), old_end),
    ensures
        is_closure(*old_nfa, start, r.1@),
        map_ok(final(e_closure_map)@, *final(dfa)),
        state_table(*old_nfa, final(e_closure_map)@, *final(dfa), old_end),
        final(e_closure_map)@[r.0.id as int].0@ == r.1@,
        old(e_closure_map)@.len() <= final(e_closure_map)@.len(),
        forall|k: int|
            0 <= k < old(e_closure_map)@.len() ==> #[trigger] final(e_closure_map)@[k] == old(
                e_closure_map,
            )@[k],
        extends(*old(dfa), *final(dfa)),
        r.0.id < final(dfa).nodes@.len(),
        (exists|k: int|
            0 <= k < old(e_closure_map)@.len() && (#[trigger] old(e_closure_map)@[k]).0@ == r.1@)
            ==> *final(dfa) == *old(dfa),
        final(dfa).nodes@.len() == old(dfa).nodes@.len() + 1 ==> {
            &&& r.0.id == old(dfa).nodes@.len()
            &&& (final(dfa).nodes@.last().nt == NodeType::Accept <==> r.1@.contains(old_end))
        },
{
    let e = old_nfa.e_closure(start);
    proof {
        reveal(is_closure);
    }
    let mut k: usize = 0;
    while k < e_closure_map.len()
        invariant
            k <= e_closure_map@.len(),
            forall|j: int| 0 <= j < k ==> (#[trigger] e_closure_map@[j]).0@ != e@,
        decreases e_closure_map@.len() - k,
    {
        if same_state(&e_closure_map[k].0, &e) {
            return (e_closure_map[k].1, e);
        }
        k = k + 1;
    }
    let new_node = dfa.new_node();
    let ghost mid = *dfa;
    if contains(&e, old_end) {
        dfa.set_node_type(new_node, NodeType::Accept);
    }
    assert(dfa.nodes@.last() == dfa.nodes@[new_node.id as int]);
    let ghost m0 = e_closure_map@;
    e_closure_map.push((copy_state(&e), new_node));
    proof {
        let m1 = e_closure_map@;
        assert forall|k: int| 0 <= k < m1.len() implies closure_of_some(
            *old_nfa,
            (#[trigger] m1[k]).0@,
        ) by {
            if k < m0.len() {
                assert(m1[k] == m0[k]);
            } else {
                assert(is_closure(*old_nfa, start, m1[k].0@));
            }
        }
        assert forall|k: int|
            0 <= k < m1.len() implies ((#[trigger] dfa.nodes@[k]).nt == NodeType::Accept
            <==> m1[k].0@.contains(old_end)) by {
            if k < m0.len() {
                assert(m1[k] == m0[k]);
                assert(dfa.nodes@[k] == old(dfa).nodes@[k]);
            }
        }
        assert forall|k1: int, k2: int|
            0 <= k1 < k2 < m1.len() implies (#[trigger] m1[k1]).0@ != (#[trigger] m1[k2]).0@ by {
            assert(m1[k1] == m0[k1]);
            if k2 < m0.len() {
                assert(m1[k2] == m0[k2]);
            } else {
                assert(m0[k1].0@ != e@);
            }
        }
        assert forall|k: int| 0 <= k < m1.len() implies (#[trigger] m1[k]).1.id == k by {
            if k < m0.len() {
                assert(m1[k] == m0[k]);
            }
        }
        assert(dfa.nodes@.len() == m1.len());
        assert(forall|k1: int, k2: int|
            0 <= k1 < k2 < m1.len() ==> (#[trigger] m1[k1]).0@ != (#[trigger] m1[k2]).0@);
        assert(forall|k: int|
            0 <= k < m1.len() ==> ((#[trigger] dfa.nodes@[k]).nt == NodeType::Accept
                <==> m1[k].0@.contains(old_end)));
    }
    (new_node, e)
}

fn copy_state(e: &Vec<usize>) -> (r: Vec<usize>)
    ensures
        r@ == e@,
{
    let mut r: Vec<usize> = Vec::new();
    let mut i: usize = 0;
    while i < e.len()
        invariant
            i <= e@.len(),
            r@ == e@.subrange(0, i as int),
        decreases e@.len() - i,
    {
        r.push(e[i]);
        i = i + 1;
        assert(r@ =~= e@.subrange(0, i as int));
    }
    assert(e@.subrange(0, e@.len() as int) =~= e@);
    r
}

fn contains(e: &Vec<usize>, x: usize) -> (r: bool)
    ensures
        r == e@.contains(x),
{
    let mut i: usize = 0;
    while i < e.len()
        invariant
            i <= e@.len(),
            forall|j: int| 0 <= j < i ==> e@[j] != x,
        decreases e@.len() - i,
    {
        if e[i] == x {
            return true;
        }
        i = i + 1;
    }
    false
}

fn has_transition(dfa: &Nfa, node: usize, t: &Transition) -> (r: bool)
    requires
        node < dfa.nodes@.len(),
    ensures
        r == exists|j: int|
            0 <= j < dfa.nodes@[node as int].transitions@.len() && label(
                (#[trigger] dfa.nodes@[node as int].transitions@[j]).kind,
            ) == label(t.kind) && dfa.nodes@[node as int].transitions@[j].dest == t.dest,
{
    let ts = &dfa.nodes[node].transitions;
    let mut j: usize = 0;
    while j < ts.len()
        invariant
            j <= ts@.len(),
            *ts == dfa.nodes@[node as int].transitions,
            forall|i: int|
                0 <= i < j ==> !(label((#[trigger] ts@[i]).kind) == label(t.kind) && ts@[i].dest
                    == t.dest),
        decreases ts@.len() - j,
    {
        if same_kind(&ts[j].kind, &t.kind) && ts[j].dest == t.dest {
            return true;
        }
        j = j + 1;
    }
    false
}

/// The transition `t` of a node of `nfa` has its counterpart among the
/// transitions of state `k`: one that reads the same and leads to the state
/// whose set is the closure of `t`'s destination.
pub open spec fn edge_for(nfa: Nfa, map: Seq<(Vec<usize>, NodePointer)>, dfa: Nfa, k: int, t: Transition) -> bool {
    exists|j: int|
        0 <= j < dfa.nodes@[k].transitions@.len() && label(
            (#[trigger] dfa.nodes@[k].transitions@[j]).kind,
        ) == label(t.kind) && is_closure(
            nfa,
            t.dest.id,
            map[dfa.nodes@[k].transitions@[j].dest.id as int].0@,
        )
}

/// Every transition that reads something, of every node in the set of state
/// `k`, has its counterpart among the transitions of `k`.
pub open spec fn complete(nfa: Nfa, map: Seq<(Vec<usize>, NodePointer)>, dfa: Nfa, k: int) -> bool {
    forall|a: usize, b: int|
        #![trigger map[k].0@.contains(a), nfa.nodes@[a as int].transitions@[b]]
        map[k].0@.contains(a) && a < nfa.nodes@.len() && 0 <= b < nfa.nodes@[a as int].transitions@.len()
            && !(label(nfa.nodes@[a as int].transitions@[b].kind) is Epsilon) ==> edge_for(
            nfa,
            map,
            dfa,
            k,
            nfa.nodes@[a as int].transitions@[b],
        )
}

/// State `k` is the closure of its key node.
spec fn keyed(nfa: Nfa, map: Seq<(Vec<usize>, NodePointer)>, keys: Seq<usize>, k: int) -> bool {
    keys[k] < nfa.nodes@.len() && is_closure(nfa, keys[k], map[k].0@)
}

/// The bookkeeping of the construction: each state is the closure of its key
/// node; a state whose transitions are all in place is marked done; every
/// other state but the current one has its key waiting, unvisited, on the
/// frontier; and each visited node's closure is the set of a state marked done.
spec fn progress(
    nfa: Nfa,
    map: Seq<(Vec<usize>, NodePointer)>,
    dfa: Nfa,
    keys: Seq<usize>,
    done: Seq<bool>,
    visited: Seq<bool>,
    frontier: Seq<usize>,
    cur: int,
) -> bool {
    &&& keys.len() == map.len()
    &&& done.len() == map.len()
    &&& visited.len() == nfa.nodes@.len()
    &&& forall|k: int| 0 <= k < map.len() ==> #[trigger] keyed(nfa, map, keys, k)
    &&& forall|k: int| 0 <= k < map.len() && #[trigger] done[k] ==> complete(nfa, map, dfa, k)
    &&& forall|k: int|
        0 <= k < map.len() ==> #[trigger] done[k] || k == cur || (!visited[keys[k] as int]
            && frontier.contains(keys[k]))
    &&& forall|x: int|
        0 <= x < visited.len() && #[trigger] visited[x] ==> exists|k: int|
            0 <= k < map.len() && done[k] && is_closure(nfa, x as usize, #[trigger] map[k].0@)
}

/// Two increasing sequences with the same elements are equal.
proof fn lemma_sorted_unique(a: Seq<usize>, b: Seq<usize>)
    requires
        forall|i: int, j: int| 0 <= i < j < a.len() ==> a[i] < a[j],
        forall|i: int, j: int| 0 <= i < j < b.len() ==> b[i] < b[j],
        forall|x: usize| a.contains(x) <==> b.contains(x),
    ensures
        a == b,
    decreases a.len() + b.len(),
{
    if a.len() == 0 {
        if b.len() > 0 {
            assert(b.contains(b[0]));
        }
        assert(a =~= b);
    } else if b.len() == 0 {
        assert(a.contains(a[0]));
    } else {
        assert(a.contains(a[0]));
        assert(b.contains(b[0]));
        let ka = choose|i: int| 0 <= i < a.len() && a[i] == b[0];
        let kb = choose|i: int| 0 <= i < b.len() && b[i] == a[0];
        assert(a[0] == b[0]) by {
            if ka > 0 {
                assert(a[0] < a[ka]);
            }
            if kb > 0 {
                assert(b[0] < b[kb]);
            }
        }
        assert forall|x: usize| a.drop_first().contains(x) <==> b.drop_first().contains(x) by {
            if a.drop_first().contains(x) {
                let i = choose|i: int| 0 <= i < a.drop_first().len() && a.drop_first()[i] == x;
                assert(a[i + 1] == x);
                assert(b.contains(x));
                let j = choose|j: int| 0 <= j < b.len() && b[j] == x;
                assert(j != 0) by {
                    assert(a[0] < a[i + 1]);
                }
                assert(b.drop_first()[j - 1] == x);
            }
            if b.drop_first().contains(x) {
                let i = choose|i: int| 0 <= i < b.drop_first().len() && b.drop_first()[i] == x;
                assert(b[i + 1] == x);
                assert(a.contains(x));
                let j = choose|j: int| 0 <= j < a.len() && a[j] == x;
                assert(j != 0) by {
                    assert(b[0] < b[i + 1]);
                }
                assert(a.drop_first()[j - 1] == x);
            }
        }
        lemma_sorted_unique(a.drop_first(), b.drop_first());
        assert(a =~= seq![a[0]] + a.drop_first());
        assert(b =~= seq![b[0]] + b.drop_first());
    }
}

proof fn lemma_closure_unique(nfa: Nfa, x: usize, a: Seq<usize>, b: Seq<usize>)
    requires
        is_closure(nfa, x, a),
        is_closure(nfa, x, b),
    ensures
        a == b,
{
    reveal(is_closure);
    lemma_sorted_unique(a, b);
}

/// Growing the automaton and the state table keeps what `complete` says of
/// the states that were there.
proof fn lemma_complete_grow(
    nfa: Nfa,
    m0: Seq<(Vec<usize>, NodePointer)>,
    m1: Seq<(Vec<usize>, NodePointer)>,
    d0: Nfa,
    d1: Nfa,
    k: int,
)
    requires
        d0.wf(),
        d0.nodes@.len() == m0.len(),
        0 <= k < m0.len(),
        m0.len() <= m1.len(),
        forall|i: int| 0 <= i < m0.len() ==> #[trigger] m1[i] == m0[i],
        extends(d0, d1),
        complete(nfa, m0, d0, k),
    ensures
        complete(nfa, m1, d1, k),
{
    assert(m1[k] == m0[k]);
    assert(d1.nodes@[k] == d0.nodes@[k]);
    assert forall|a: usize, b: int|
        #![trigger m1[k].0@.contains(a), nfa.nodes@[a as int].transitions@[b]]
        m1[k].0@.contains(a) && a < nfa.nodes@.len() && 0 <= b < nfa.nodes@[a as int].transitions@.len()
            && !(label(nfa.nodes@[a as int].transitions@[b].kind) is Epsilon) implies edge_for(
        nfa,
        m1,
        d1,
        k,
        nfa.nodes@[a as int].transitions@[b],
    ) by {
        let t = nfa.nodes@[a as int].transitions@[b];
        assert(m0[k].0@.contains(a));
        assert(edge_for(nfa, m0, d0, k, t));
        let j = choose|j: int|
            0 <= j < d0.nodes@[k].transitions@.len() && label(
                (#[trigger] d0.nodes@[k].transitions@[j]).kind,
            ) == label(t.kind) && is_closure(
                nfa,
                t.dest.id,
                m0[d0.nodes@[k].transitions@[j].dest.id as int].0@,
            );
        let dj = d0.nodes@[k].transitions@[j].dest.id as int;
        assert(dj < d0.nodes@.len());
        assert(m1[dj] == m0[dj]);
        assert(d1.nodes@[k].transitions@[j] == d0.nodes@[k].transitions@[j]);
    }
}

/// Adding a transition to a state keeps what `complete` says of every state.
proof fn lemma_complete_added(
    nfa: Nfa,
    map: Seq<(Vec<usize>, NodePointer)>,
    d0: Nfa,
    d1: Nfa,
    from: NodePointer,
    l: Label,
    to: NodePointer,
    k: int,
)
    requires
        from.id < d0.nodes@.len(),
        0 <= k < d0.nodes@.len(),
        Nfa::added(d0, d1, from, l, to),
        complete(nfa, map, d0, k),
    ensures
        complete(nfa, map, d1, k),
{
    assert forall|a: usize, b: int|
        #![trigger map[k].0@.contains(a), nfa.nodes@[a as int].transitions@[b]]
        map[k].0@.contains(a) && a < nfa.nodes@.len() && 0 <= b < nfa.nodes@[a as int].transitions@.len()
            && !(label(nfa.nodes@[a as int].transitions@[b].kind) is Epsilon) implies edge_for(
        nfa,
        map,
        d1,
        k,
        nfa.nodes@[a as int].transitions@[b],
    ) by {
        let t = nfa.nodes@[a as int].transitions@[b];
        assert(edge_for(nfa, map, d0, k, t));
        let j = choose|j: int|
            0 <= j < d0.nodes@[k].transitions@.len() && label(
                (#[trigger] d0.nodes@[k].transitions@[j]).kind,
            ) == label(t.kind) && is_closure(
                nfa,
                t.dest.id,
                map[d0.nodes@[k].transitions@[j].dest.id as int].0@,
            );
        if k == from.id {
            assert(d1.nodes@[k].transitions@[j] == d1.nodes@[k].transitions@.drop_last()[j]);
        } else {
            assert(d1.nodes@[k] == d0.nodes@[k]);
        }
        assert(d1.nodes@[k].transitions@[j] == d0.nodes@[k].transitions@[j]);
    }
}

/// After `get_new_state` for the node `x`, the bookkeeping holds again once a
/// new state, if there is one, is given the key `x`.
proof fn lemma_progress_new_state(
    nfa: Nfa,
    m0: Seq<(Vec<usize>, NodePointer)>,
    m1: Seq<(Vec<usize>, NodePointer)>,
    d0: Nfa,
    d1: Nfa,
    keys: Seq<usize>,
    done: Seq<bool>,
    visited: Seq<bool>,
    frontier: Seq<usize>,
    cur: int,
    x: usize,
    r: int,
) -> (res: (Seq<usize>, Seq<bool>))
    requires
        nfa.wf(),
        d0.wf(),
        x < nfa.nodes@.len(),
        progress(nfa, m0, d0, keys, done, visited, frontier, cur),
        d0.nodes@.len() == m0.len(),
        d1.nodes@.len() == m1.len(),
        extends(d0, d1),
        m0.len() <= m1.len(),
        forall|i: int| 0 <= i < m0.len() ==> #[trigger] m1[i] == m0[i],
        0 <= r < m1.len(),
        is_closure(nfa, x, m1[r].0@),
        (exists|k: int| 0 <= k < m0.len() && (#[trigger] m0[k]).0@ == m1[r].0@) ==> d1 == d0,
        d1.nodes@.len() == d0.nodes@.len() + 1 ==> r == d0.nodes@.len(),
        m1.len() == m0.len() + 1 ==> r == cur || (!visited[x as int] && frontier.contains(x)),
        m1.len() == m0.len() + 1 ==> r == m0.len(),
        m1.len() <= m0.len() + 1,
    ensures
        res.0.len() == m1.len(),
        res.1.len() == m1.len(),
        forall|i: int| 0 <= i < done.len() ==> #[trigger] res.1[i] == done[i],
        progress(nfa, m1, d1, res.0, res.1, visited, frontier, cur),
{
    let keys1 = if m1.len() > m0.len() {
        keys.push(x)
    } else {
        keys
    };
    let done1 = if m1.len() > m0.len() {
        done.push(false)
    } else {
        done
    };
    assert forall|k: int| 0 <= k < m1.len() implies #[trigger] keyed(nfa, m1, keys1, k) by {
        if k < m0.len() {
            assert(keyed(nfa, m0, keys, k));
            assert(m1[k] == m0[k]);
        }
    }
    assert forall|k: int| 0 <= k < m1.len() && #[trigger] done1[k] implies complete(nfa, m1, d1, k) by {
        lemma_complete_grow(nfa, m0, m1, d0, d1, k);
    }
    assert forall|k: int| 0 <= k < m1.len() implies #[trigger] done1[k] || k == cur || (
    !visited[keys1[k] as int] && frontier.contains(keys1[k])) by {
        if k < m0.len() {
            assert(done1[k] == done[k]);
        }
    }
    assert forall|y: int| 0 <= y < visited.len() && #[trigger] visited[y] implies exists|k: int|
        0 <= k < m1.len() && done1[k] && is_closure(nfa, y as usize, #[trigger] m1[k].0@) by {
        let k = choose|k: int|
            0 <= k < m0.len() && done[k] && is_closure(nfa, y as usize, #[trigger] m0[k].0@);
        assert(m1[k] == m0[k]);
        assert(done1[k]);
    }
    assert(keys1.len() == m1.len());
    assert(done1.len() == m1.len());
    assert(visited.len() == nfa.nodes@.len());
    assert(forall|k: int| 0 <= k < m1.len() ==> #[trigger] keyed(nfa, m1, keys1, k));
    assert(forall|k: int| 0 <= k < m1.len() && #[trigger] done1[k] ==> complete(nfa, m1, d1, k));
    assert(forall|x: int|
        0 <= x < visited.len() && #[trigger] visited[x] ==> exists|k: int|
            0 <= k < m1.len() && done1[k] && is_closure(nfa, x as usize, #[trigger] m1[k].0@));
    assert(forall|k: int|
        0 <= k < m1.len() ==> #[trigger] done1[k] || k == cur || (!visited[keys1[k] as int]
            && frontier.contains(keys1[k])));
    (keys1, done1)
}

proof fn lemma_edge_grow(
    nfa: Nfa,
    m0: Seq<(Vec<usize>, NodePointer)>,
    m1: Seq<(Vec<usize>, NodePointer)>,
    d0: Nfa,
    d1: Nfa,
    k: int,
    t: Transition,
)
    requires
        d0.wf(),
        d0.nodes@.len() == m0.len(),
        0 <= k < m0.len(),
        m0.len() <= m1.len(),
        forall|i: int| 0 <= i < m0.len() ==> #[trigger] m1[i] == m0[i],
        extends(d0, d1),
        edge_for(nfa, m0, d0, k, t),
    ensures
        edge_for(nfa, m1, d1, k, t),
{
    let j = choose|j: int|
        0 <= j < d0.nodes@[k].transitions@.len() && label(
            (#[trigger] d0.nodes@[k].transitions@[j]).kind,
        ) == label(t.kind) && is_closure(nfa, t.dest.id, m0[d0.nodes@[k].transitions@[j].dest.id as int].0@);
    let dj = d0.nodes@[k].transitions@[j].dest.id as int;
    assert(dj < d0.nodes@.len());
    assert(m1[dj] == m0[dj]);
    assert(d1.nodes@[k] == d0.nodes@[k]);
    assert(d1.nodes@[k].transitions@[j] == d0.nodes@[k].transitions@[j]);
}

proof fn lemma_edge_added(
    nfa: Nfa,
    map: Seq<(Vec<usize>, NodePointer)>,
    d0: Nfa,
    d1: Nfa,
    from: NodePointer,
    l: Label,
    to: NodePointer,
    k: int,
    t: Transition,
)
    requires
        from.id < d0.nodes@.len(),
        0 <= k < d0.nodes@.len(),
        Nfa::added(d0, d1, from, l, to),
        edge_for(nfa, map, d0, k, t),
    ensures
        edge_for(nfa, map, d1, k, t),
{
    let j = choose|j: int|
        0 <= j < d0.nodes@[k].transitions@.len() && label(
            (#[trigger] d0.nodes@[k].transitions@[j]).kind,
        ) == label(t.kind) && is_closure(nfa, t.dest.id, map[d0.nodes@[k].transitions@[j].dest.id as int].0@);
    if k == from.id {
        assert(d1.nodes@[k].transitions@[j] == d1.nodes@[k].transitions@.drop_last()[j]);
    } else {
        assert(d1.nodes@[k] == d0.nodes@[k]);
    }
    assert(d1.nodes@[k].transitions@[j] == d0.nodes@[k].transitions@[j]);
}

proof fn lemma_edges_grow(
    nfa: Nfa,
    m0: Seq<(Vec<usize>, NodePointer)>,
    m1: Seq<(Vec<usize>, NodePointer)>,
    d0: Nfa,
    d1: Nfa,
    cur: int,
    e: Seq<usize>,
    a: int,
    ts: Vec<Transition>,
    b: int,
)
    requires
        d0.wf(),
        d0.nodes@.len() == m0.len(),
        0 <= cur < m0.len(),
        m0.len() <= m1.len(),
        forall|i: int| 0 <= i < m0.len() ==> #[trigger] m1[i] == m0[i],
        extends(d0, d1),
        forall|ai: int, bb: int|
            #![trigger e[ai], nfa.nodes@[e[ai] as int].transitions@[bb]]
            0 <= ai < a && 0 <= bb < nfa.nodes@[e[ai] as int].transitions@.len() && !(label(
                nfa.nodes@[e[ai] as int].transitions@[bb].kind,
            ) is Epsilon) ==> edge_for(nfa, m0, d0, cur, nfa.nodes@[e[ai] as int].transitions@[bb]),
        forall|bb: int|
            0 <= bb < b && !(label(#[trigger] ts@[bb].kind) is Epsilon) ==> edge_for(
                nfa,
                m0,
                d0,
                cur,
                ts@[bb],
            ),
    ensures
        forall|ai: int, bb: int|
            #![trigger e[ai], nfa.nodes@[e[ai] as int].transitions@[bb]]
            0 <= ai < a && 0 <= bb < nfa.nodes@[e[ai] as int].transitions@.len() && !(label(
                nfa.nodes@[e[ai] as int].transitions@[bb].kind,
            ) is Epsilon) ==> edge_for(nfa, m1, d1, cur, nfa.nodes@[e[ai] as int].transitions@[bb]),
        forall|bb: int|
            0 <= bb < b && !(label(#[trigger] ts@[bb].kind) is Epsilon) ==> edge_for(
                nfa,
                m1,
                d1,
                cur,
                ts@[bb],
            ),
{
    assert forall|ai: int, bb: int|
        #![trigger e[ai], nfa.nodes@[e[ai] as int].transitions@[bb]]
        0 <= ai < a && 0 <= bb < nfa.nodes@[e[ai] as int].transitions@.len() && !(label(
            nfa.nodes@[e[ai] as int].transitions@[bb].kind,
        ) is Epsilon) implies edge_for(nfa, m1, d1, cur, nfa.nodes@[e[ai] as int].transitions@[bb]) by {
        lemma_edge_grow(nfa, m0, m1, d0, d1, cur, nfa.nodes@[e[ai] as int].transitions@[bb]);
    }
    assert forall|bb: int|
        0 <= bb < b && !(label(#[trigger] ts@[bb].kind) is Epsilon) implies edge_for(
        nfa,
        m1,
        d1,
        cur,
        ts@[bb],
    ) by {
        lemma_edge_grow(nfa, m0, m1, d0, d1, cur, ts@[bb]);
    }
}

proof fn lemma_edges_added(
    nfa: Nfa,
    map: Seq<(Vec<usize>, NodePointer)>,
    d0: Nfa,
    d1: Nfa,
    from: NodePointer,
    l: Label,
    to: NodePointer,
    cur: int,
    e: Seq<usize>,
    a: int,
    ts: Vec<Transition>,
    b: int,
)
    requires
        from.id < d0.nodes@.len(),
        0 <= cur < d0.nodes@.len(),
        Nfa::added(d0, d1, from, l, to),
        forall|ai: int, bb: int|
            #![trigger e[ai], nfa.nodes@[e[ai] as int].transitions@[bb]]
            0 <= ai < a && 0 <= bb < nfa.nodes@[e[ai] as int].transitions@.len() && !(label(
                nfa.nodes@[e[ai] as int].transitions@[bb].kind,
            ) is Epsilon) ==> edge_for(nfa, map, d0, cur, nfa.nodes@[e[ai] as int].transitions@[bb]),
        forall|bb: int|
            0 <= bb < b && !(label(#[trigger] ts@[bb].kind) is Epsilon) ==> edge_for(
                nfa,
                map,
                d0,
                cur,
                ts@[bb],
            ),
    ensures
        forall|ai: int, bb: int|
            #![trigger e[ai], nfa.nodes@[e[ai] as int].transitions@[bb]]
            0 <= ai < a && 0 <= bb < nfa.nodes@[e[ai] as int].transitions@.len() && !(label(
                nfa.nodes@[e[ai] as int].transitions@[bb].kind,
            ) is Epsilon) ==> edge_for(nfa, map, d1, cur, nfa.nodes@[e[ai] as int].transitions@[bb]),
        forall|bb: int|
            0 <= bb < b && !(label(#[trigger] ts@[bb].kind) is Epsilon) ==> edge_for(
                nfa,
                map,
                d1,
                cur,
                ts@[bb],
            ),
{
    assert forall|ai: int, bb: int|
        #![trigger e[ai], nfa.nodes@[e[ai] as int].transitions@[bb]]
        0 <= ai < a && 0 <= bb < nfa.nodes@[e[ai] as int].transitions@.len() && !(label(
            nfa.nodes@[e[ai] as int].transitions@[bb].kind,
        ) is Epsilon) implies edge_for(nfa, map, d1, cur, nfa.nodes@[e[ai] as int].transitions@[bb]) by {
        lemma_edge_added(nfa, map, d0, d1, from, l, to, cur, nfa.nodes@[e[ai] as int].transitions@[bb]);
    }
    assert forall|bb: int|
        0 <= bb < b && !(label(#[trigger] ts@[bb].kind) is Epsilon) implies edge_for(
        nfa,
        map,
        d1,
        cur,
        ts@[bb],
    ) by {
        lemma_edge_added(nfa, map, d0, d1, from, l, to, cur, ts@[bb]);
    }
}

proof fn lemma_progress_pop(
    nfa: Nfa,
    map: Seq<(Vec<usize>, NodePointer)>,
    dfa: Nfa,
    keys: Seq<usize>,
    done: Seq<bool>,
    visited: Seq<bool>,
    f0: Seq<usize>,
    f1: Seq<usize>,
    i: usize,
    cur: int,
    end: usize,
)
    requires
        progress(nfa, map, dfa, keys, done, visited, f0, -1),
        f0 == f1.push(i),
        state_table(nfa, map, dfa, end),
        0 <= cur < map.len(),
        is_closure(nfa, i, map[cur].0@),
    ensures
        progress(nfa, map, dfa, keys, done, visited, f1, cur),
{
    assert(keys.len() == map.len());
    assert(done.len() == map.len());
    assert(visited.len() == nfa.nodes@.len());
    assert(forall|k: int| 0 <= k < map.len() ==> #[trigger] keyed(nfa, map, keys, k));
    assert(forall|k: int| 0 <= k < map.len() && #[trigger] done[k] ==> complete(nfa, map, dfa, k));
    assert(forall|x: int|
        0 <= x < visited.len() && #[trigger] visited[x] ==> exists|k: int|
            0 <= k < map.len() && done[k] && is_closure(nfa, x as usize, #[trigger] map[k].0@));
    assert forall|k: int| 0 <= k < map.len() implies #[trigger] done[k] || k == cur || (
    !visited[keys[k] as int] && f1.contains(keys[k])) by {
        if !done[k] && k != cur {
            assert(keyed(nfa, map, keys, k));
            if keys[k] == i {
                lemma_closure_unique(nfa, i, map[k].0@, map[cur].0@);
                if k < cur {
                    assert(map[k].0@ != map[cur].0@);
                } else {
                    assert(map[cur].0@ != map[k].0@);
                }
            }
            assert(f0.contains(keys[k]));
            let q = choose|q: int| 0 <= q < f0.len() && f0[q] == keys[k];
            assert(q < f1.len());
            assert(f1[q] == keys[k]);
        }
    }
}

proof fn lemma_progress_push(
    nfa: Nfa,
    map: Seq<(Vec<usize>, NodePointer)>,
    dfa: Nfa,
    keys: Seq<usize>,
    done: Seq<bool>,
    visited: Seq<bool>,
    f0: Seq<usize>,
    f1: Seq<usize>,
    cur: int,
)
    requires
        progress(nfa, map, dfa, keys, done, visited, f0, cur),
        exists|x: usize| f1 == f0.push(x),
    ensures
        progress(nfa, map, dfa, keys, done, visited, f1, cur),
{
    assert(keys.len() == map.len());
    assert(done.len() == map.len());
    assert(visited.len() == nfa.nodes@.len());
    assert(forall|k: int| 0 <= k < map.len() ==> #[trigger] keyed(nfa, map, keys, k));
    assert(forall|k: int| 0 <= k < map.len() && #[trigger] done[k] ==> complete(nfa, map, dfa, k));
    assert(forall|x: int|
        0 <= x < visited.len() && #[trigger] visited[x] ==> exists|k: int|
            0 <= k < map.len() && done[k] && is_closure(nfa, x as usize, #[trigger] map[k].0@));
    assert forall|k: int| 0 <= k < map.len() implies #[trigger] done[k] || k == cur || (
    !visited[keys[k] as int] && f1.contains(keys[k])) by {
        if !done[k] && k != cur {
            let q = choose|q: int| 0 <= q < f0.len() && f0[q] == keys[k];
            assert(f1[q] == keys[k]);
        }
    }
}

proof fn lemma_progress_added(
    nfa: Nfa,
    map: Seq<(Vec<usize>, NodePointer)>,
    d0: Nfa,
    d1: Nfa,
    from: NodePointer,
    l: Label,
    to: NodePointer,
    keys: Seq<usize>,
    done: Seq<bool>,
    visited: Seq<bool>,
    frontier: Seq<usize>,
    cur: int,
)
    requires
        from.id < d0.nodes@.len(),
        d0.nodes@.len() == map.len(),
        Nfa::added(d0, d1, from, l, to),
        progress(nfa, map, d0, keys, done, visited, frontier, cur),
    ensures
        progress(nfa, map, d1, keys, done, visited, frontier, cur),
{
    assert(keys.len() == map.len());
    assert(done.len() == map.len());
    assert(visited.len() == nfa.nodes@.len());
    assert(forall|k: int| 0 <= k < map.len() ==> #[trigger] keyed(nfa, map, keys, k));
    assert(forall|k: int| 0 <= k < map.len() && #[trigger] done[k] ==> complete(nfa, map, d0, k));
    assert(forall|x: int|
        0 <= x < visited.len() && #[trigger] visited[x] ==> exists|k: int|
            0 <= k < map.len() && done[k] && is_closure(nfa, x as usize, #[trigger] map[k].0@));
    assert forall|k: int| 0 <= k < map.len() && #[trigger] done[k] implies complete(nfa, map, d1, k) by {
        lemma_complete_added(nfa, map, d0, d1, from, l, to, k);
    }
    assert(forall|k: int|
        0 <= k < map.len() ==> #[trigger] done[k] || k == cur || (!visited[keys[k] as int]
            && frontier.contains(keys[k])));
}

proof fn lemma_progress_finish(
    nfa: Nfa,
    map: Seq<(Vec<usize>, NodePointer)>,
    dfa: Nfa,
    keys: Seq<usize>,
    done: Seq<bool>,
    visited: Seq<bool>,
    frontier: Seq<usize>,
    cur: int,
    i: usize,
    end: usize,
)
    requires
        progress(nfa, map, dfa, keys, done, visited, frontier, cur),
        state_table(nfa, map, dfa, end),
        0 <= cur < map.len(),
        complete(nfa, map, dfa, cur),
        is_closure(nfa, i, map[cur].0@),
        i < visited.len(),
    ensures
        progress(nfa, map, dfa, keys, done.update(cur, true), visited.update(i as int, true), frontier, -1),
{
    let done1 = done.update(cur, true);
    let visited1 = visited.update(i as int, true);
    assert forall|k: int| 0 <= k < map.len() && #[trigger] done1[k] implies complete(nfa, map, dfa, k) by {
        if k != cur {
            assert(done[k]);
        }
    }
    assert forall|k: int| 0 <= k < map.len() implies #[trigger] done1[k] || k == -1 || (
    !visited1[keys[k] as int] && frontier.contains(keys[k])) by {
        if k != cur && !done[k] {
            assert(keyed(nfa, map, keys, k));
            if keys[k] == i {
                lemma_closure_unique(nfa, i, map[k].0@, map[cur].0@);
                if k < cur {
                    assert(map[k].0@ != map[cur].0@);
                } else {
                    assert(map[cur].0@ != map[k].0@);
                }
            }
        }
    }
    assert forall|x: int| 0 <= x < visited1.len() && #[trigger] visited1[x] implies exists|k: int|
        0 <= k < map.len() && done1[k] && is_closure(nfa, x as usize, #[trigger] map[k].0@) by {
        if x == i {
            assert(done1[cur] && is_closure(nfa, x as usize, map[cur].0@));
        } else {
            assert(visited[x]);
            let k = choose|k: int|
                0 <= k < map.len() && done[k] && is_closure(nfa, x as usize, #[trigger] map[k].0@);
            assert(done1[k]);
        }
    }
    assert(keys.len() == map.len());
    assert(done1.len() == map.len());
    assert(visited1.len() == nfa.nodes@.len());
    assert(forall|k: int| 0 <= k < map.len() ==> #[trigger] keyed(nfa, map, keys, k));
    assert(forall|k: int| 0 <= k < map.len() && #[trigger] done1[k] ==> complete(nfa, map, dfa, k));
    assert(forall|x: int|
        0 <= x < visited1.len() && #[trigger] visited1[x] ==> exists|k: int|
            0 <= k < map.len() && done1[k] && is_closure(nfa, x as usize, #[trigger] map[k].0@));
}

/// No state has two transitions that read the same and lead to the same state.
pub open spec fn distinct_edges(dfa: Nfa) -> bool {
    forall|k: int, j1: int, j2: int|
        0 <= k < dfa.nodes@.len() && 0 <= j1 < j2 < dfa.nodes@[k].transitions@.len() ==> !(label(
            #[trigger] dfa.nodes@[k].transitions@[j1].kind,
        ) == label(#[trigger] dfa.nodes@[k].transitions@[j2].kind)
            && dfa.nodes@[k].transitions@[j1].dest == dfa.nodes@[k].transitions@[j2].dest)
}

proof fn lemma_distinct_extends(old: Nfa, new: Nfa)
    requires
        distinct_edges(old),
        extends(old, new),
    ensures
        distinct_edges(new),
{
    assert forall|k: int, j1: int, j2: int|
        0 <= k < new.nodes@.len() && 0 <= j1 < j2 < new.nodes@[k].transitions@.len() implies !(label(
        #[trigger] new.nodes@[k].transitions@[j1].kind,
    ) == label(#[trigger] new.nodes@[k].transitions@[j2].kind)
        && new.nodes@[k].transitions@[j1].dest == new.nodes@[k].transitions@[j2].dest) by {
        assert(new.nodes@[k] == old.nodes@[k]);
    }
}

proof fn lemma_distinct_added(old: Nfa, new: Nfa, from: NodePointer, t: Transition)
    requires
        distinct_edges(old),
        from.id < old.nodes@.len(),
        Nfa::added(old, new, from, label(t.kind), t.dest),
        !exists|j: int|
            0 <= j < old.nodes@[from.id as int].transitions@.len() && label(
                (#[trigger] old.nodes@[from.id as int].transitions@[j]).kind,
            ) == label(t.kind) && old.nodes@[from.id as int].transitions@[j].dest == t.dest,
    ensures
        distinct_edges(new),
{
    assert forall|k: int, j1: int, j2: int|
        0 <= k < new.nodes@.len() && 0 <= j1 < j2 < new.nodes@[k].transitions@.len() implies !(label(
        #[trigger] new.nodes@[k].transitions@[j1].kind,
    ) == label(#[trigger] new.nodes@[k].transitions@[j2].kind)
        && new.nodes@[k].transitions@[j1].dest == new.nodes@[k].transitions@[j2].dest) by {
        if k == from.id {
            let ot = old.nodes@[k].transitions@;
            let nt = new.nodes@[k].transitions@;
            assert(nt.drop_last() == ot);
            assert(nt[j1] == ot[j1]);
            if j2 < ot.len() {
                assert(nt[j2] == ot[j2]);
            }
        } else {
            assert(new.nodes@[k] == old.nodes@[k]);
        }
    }
}

/// No transition of `dfa` leads to state `k`.
pub open spec fn untargeted(dfa: Nfa, k: int) -> bool {
    forall|i: int, j: int|
        0 <= i < dfa.nodes@.len() && 0 <= j < dfa.nodes@[i].transitions@.len() ==> (
        #[trigger] dfa.nodes@[i].transitions@[j]).dest.id != k
}

/// `dfa`, with states `st` and `en`, is a subset automaton of `nfa` from
/// `start` to `end`: each state stands for the closure of a node (`st` for
/// that of `start`, `en` for that of `end`) and accepts when it holds `end`;
/// each of its transitions is justified by one of `nfa`; and each state has
/// the counterpart of every transition that reads something from a node of
/// its set, but for `en` when no transition leads there and it is not `st`.
pub open spec fn subset_automaton(
    nfa: Nfa,
    start: NodePointer,
    end: NodePointer,
    dfa: Nfa,
    st: NodePointer,
    en: NodePointer,
) -> bool {
    exists|map: Seq<(Vec<usize>, NodePointer)>|
        {
            &&& #[trigger] state_table(nfa, map, dfa, end.id)
            &&& transitions_justified(nfa, map, dfa)
            &&& is_closure(nfa, start.id, map[st.id as int].0@)
            &&& is_closure(nfa, end.id, map[en.id as int].0@)
            &&& forall|k: int| 0 <= k < dfa.nodes@.len() ==> #[trigger] covered(nfa, map, dfa, st, en, k)
        }
}

/// State `k` is complete, or it is the end state that nothing leads to.
pub open spec fn covered(
    nfa: Nfa,
    map: Seq<(Vec<usize>, NodePointer)>,
    dfa: Nfa,
    st: NodePointer,
    en: NodePointer,
    k: int,
) -> bool {
    complete(nfa, map, dfa, k) || (k == en.id && k != st.id && untargeted(dfa, k))
}

/// The subset automaton of `nfa`, with its start state (the closure of
/// `start`) and its end state (the closure of `end`). Each state stands for
/// the epsilon closure of a node; every transition of a state is justified by
/// a transition of a node in its set, and every transition that reads
/// something, of a node in the set of a state other than the end state, has
/// its counterpart in that state.
pub fn nfa_to_dfa(nfa: &Nfa, start: &NodePointer, end: &NodePointer) -> (r: (
    Nfa,
    NodePointer,
    NodePointer,
))
    requires
        nfa.wf(),
        start.id < nfa.nodes@.len(),
        end.id < nfa.nodes@.len(),
    ensures
        r.0.wf(),
        r.1.id < r.0.nodes@.len(),
        r.2.id < r.0.nodes@.len(),
        labels_from(r.0, *nfa),
        subset_automaton(*nfa, *start, *end, r.0, r.1, r.2),
        distinct_edges(r.0),
{
    let n = nfa.nodes.len();
    let mut e_closure_map: Vec<(Vec<usize>, NodePointer)> = Vec::new();
    let mut visited: Vec<bool> = Vec::new();
    let mut i: usize = 0;
    while i < n
        invariant
            i <= n,
            n == nfa.nodes@.len(),
            visited@.len() == i,
            forall|x: int| 0 <= x < i ==> !visited@[x],
        decreases n - i,
    {
        visited.push(false);
        i = i + 1;
    }
    let mut dfa = Nfa::new(Vec::new());
    let mut frontier = nfa.e_closure(start.id);
    let (startnode, _) = get_new_state(nfa, &mut dfa, &mut e_closure_map, start.id, end.id);
    let ghost mut keys: Seq<usize> = seq![start.id];
    let ghost mut done: Seq<bool> = seq![false];
    proof {
        reveal(is_closure);
        lemma_closure_nodes(nfa, start.id, frontier@);
        assert(reach(*nfa, set![start.id as int], 0, false).contains(start.id as int));
        assert(frontier@.contains(start.id));
        assert(progress(*nfa, e_closure_map@, dfa, keys, done, visited@, frontier@, -1));
    }
    while frontier.len() > 0
        invariant
            nfa.wf(),
            n == nfa.nodes@.len(),
            end.id < n,
            visited@.len() == n,
            forall|k: int| 0 <= k < frontier@.len() ==> #[trigger] frontier@[k] < n,
            map_ok(e_closure_map@, dfa),
            dfa.wf(),
            labels_from(dfa, *nfa),
                distinct_edges(dfa),
            startnode.id < dfa.nodes@.len(),
            state_table(*nfa, e_closure_map@, dfa, end.id),
            transitions_justified(*nfa, e_closure_map@, dfa),
            is_closure(*nfa, start.id, e_closure_map@[startnode.id as int].0@),
            progress(*nfa, e_closure_map@, dfa, keys, done, visited@, frontier@, -1),
        decreases n - count_true(visited@), frontier@.len(),
    {
        proof {
            lemma_count_true_bound(visited@);
        }
        let ghost f0 = frontier@;
        let i = frontier.pop().unwrap();
        proof {
            assert(f0 == frontier@.push(i));
        }
        if visited[i] {
            proof {
                assert forall|k: int| 0 <= k < e_closure_map@.len() implies #[trigger] done[k] || k
                    == -1 || (!visited@[keys[k] as int] && frontier@.contains(keys[k])) by {
                    if !done[k] {
                        assert(!visited@[keys[k] as int] && f0.contains(keys[k]));
                        if keys[k] == i {
                            assert(false);
                        }
                        let q = choose|q: int| 0 <= q < f0.len() && f0[q] == keys[k];
                        assert(q < frontier@.len());
                        assert(frontier@[q] == keys[k]);
                    }
                }
            }
            continue;
        }
        proof {
            lemma_count_true_set(visited@, i as int);
        }
        let ghost d0 = dfa;
        let ghost m0 = e_closure_map@;
        let (new_node, e) = get_new_state(nfa, &mut dfa, &mut e_closure_map, i, end.id);
        let ghost cur = new_node.id as int;
        proof {
            lemma_justified_grow(*nfa, m0, e_closure_map@, d0, dfa);
            assert(e_closure_map@[startnode.id as int] == m0[startnode.id as int]);
            lemma_extends_keeps(d0, dfa, *nfa);
            lemma_distinct_extends(d0, dfa);
            lemma_closure_nodes(nfa, i, e@);
            assert(f0.contains(i)) by {
                assert(f0[f0.len() - 1] == i);
            }
            if exists|k: int| 0 <= k < m0.len() && (#[trigger] m0[k]).0@ == e@ {
                assert(dfa == d0);
            }
            let res = lemma_progress_new_state(
                *nfa,
                m0,
                e_closure_map@,
                d0,
                dfa,
                keys,
                done,
                visited@,
                f0,
                -1,
                i,
                cur,
            );
            keys = res.0;
            done = res.1;
            lemma_progress_pop(
                *nfa,
                e_closure_map@,
                dfa,
                keys,
                done,
                visited@,
                f0,
                frontier@,
                i,
                cur,
                end.id,
            );
        }
        let mut a: usize = 0;
        while a < e.len()
            invariant
                nfa.wf(),
                n == nfa.nodes@.len(),
                end.id < n,
                visited@.len() == n,
                !visited@[i as int],
                i < n,
                forall|k: int| 0 <= k < e@.len() ==> #[trigger] e@[k] < n,
                forall|k: int| 0 <= k < frontier@.len() ==> #[trigger] frontier@[k] < n,
                map_ok(e_closure_map@, dfa),
                dfa.wf(),
                labels_from(dfa, *nfa),
                distinct_edges(dfa),
                new_node.id < dfa.nodes@.len(),
                cur == new_node.id,
                startnode.id < dfa.nodes@.len(),
                a <= e@.len(),
                state_table(*nfa, e_closure_map@, dfa, end.id),
                transitions_justified(*nfa, e_closure_map@, dfa),
                is_closure(*nfa, start.id, e_closure_map@[startnode.id as int].0@),
                e_closure_map@[new_node.id as int].0@ == e@,
                is_closure(*nfa, i, e@),
                progress(*nfa, e_closure_map@, dfa, keys, done, visited@, frontier@, cur),
                forall|ai: int, bb: int|
                    #![trigger e@[ai], nfa.nodes@[e@[ai] as int].transitions@[bb]]
                    0 <= ai < a && 0 <= bb < nfa.nodes@[e@[ai] as int].transitions@.len() && !(label(
                        nfa.nodes@[e@[ai] as int].transitions@[bb].kind,
                    ) is Epsilon) ==> edge_for(
                        *nfa,
                        e_closure_map@,
                        dfa,
                        cur,
                        nfa.nodes@[e@[ai] as int].transitions@[bb],
                    ),
            decreases e@.len() - a,
        {
            let j = e[a];
            assert(e@.contains(j));
            let ts = &nfa.nodes[j].transitions;
            let mut b: usize = 0;
            while b < ts.len()
                invariant
                    nfa.wf(),
                    n == nfa.nodes@.len(),
                    j < n,
                    j == e@[a as int],
                    a < e@.len(),
                    *ts == nfa.nodes@[j as int].transitions,
                    end.id < n,
                    visited@.len() == n,
                    !visited@[i as int],
                    i < n,
                    forall|k: int| 0 <= k < frontier@.len() ==> #[trigger] frontier@[k] < n,
                    map_ok(e_closure_map@, dfa),
                    dfa.wf(),
                    labels_from(dfa, *nfa),
                distinct_edges(dfa),
                    new_node.id < dfa.nodes@.len(),
                    cur == new_node.id,
                    startnode.id < dfa.nodes@.len(),
                    b <= ts@.len(),
                    state_table(*nfa, e_closure_map@, dfa, end.id),
                    transitions_justified(*nfa, e_closure_map@, dfa),
                    is_closure(*nfa, start.id, e_closure_map@[startnode.id as int].0@),
                    e_closure_map@[new_node.id as int].0@.contains(j),
                    e_closure_map@[new_node.id as int].0@ == e@,
                    is_closure(*nfa, i, e@),
                    progress(*nfa, e_closure_map@, dfa, keys, done, visited@, frontier@, cur),
                    forall|ai: int, bb: int|
                        #![trigger e@[ai], nfa.nodes@[e@[ai] as int].transitions@[bb]]
                        0 <= ai < a && 0 <= bb < nfa.nodes@[e@[ai] as int].transitions@.len()
                            && !(label(nfa.nodes@[e@[ai] as int].transitions@[bb].kind) is Epsilon)
                            ==> edge_for(
                            *nfa,
                            e_closure_map@,
                            dfa,
                            cur,
                            nfa.nodes@[e@[ai] as int].transitions@[bb],
                        ),
                    forall|bb: int|
                        0 <= bb < b && !(label(#[trigger] ts@[bb].kind) is Epsilon) ==> edge_for(
                            *nfa,
                            e_closure_map@,
                            dfa,
                            cur,
                            ts@[bb],
                        ),
                decreases ts@.len() - b,
            {
                let transition = &ts[b];
                assert(transition.dest.id < n);
                let ghost fr0 = frontier@;
                frontier.push(transition.dest.id);
                proof {
                    lemma_progress_push(*nfa, e_closure_map@, dfa, keys, done, visited@, fr0, frontier@, cur);
                }
                match &transition.kind {
                    TransitionType::Epsilon => {},
                    x => {
                        let ghost d1 = dfa;
                        let ghost m1 = e_closure_map@;
                        let (to, _) = get_new_state(
                            nfa,
                            &mut dfa,
                            &mut e_closure_map,
                            transition.dest.id,
                            end.id,
                        );
                        proof {
                            lemma_justified_grow(*nfa, m1, e_closure_map@, d1, dfa);
                            assert(e_closure_map@[startnode.id as int] == m1[startnode.id as int]);
                            assert(e_closure_map@[new_node.id as int] == m1[new_node.id as int]);
                            lemma_extends_keeps(d1, dfa, *nfa);
                            lemma_distinct_extends(d1, dfa);
                            let t = transition.dest.id;
                            if e_closure_map@.len() > m1.len() {
                                if visited@[t as int] {
                                    let k = choose|k: int|
                                        0 <= k < m1.len() && done[k] && is_closure(
                                            *nfa,
                                            t,
                                            #[trigger] m1[k].0@,
                                        );
                                    lemma_closure_unique(*nfa, t, m1[k].0@, e_closure_map@[to.id as int].0@);
                                    assert(dfa == d1);
                                }
                            }
                            if exists|k: int| 0 <= k < m1.len() && (#[trigger] m1[k]).0@ == e_closure_map@[to.id as int].0@ {
                                assert(dfa == d1);
                            }
                            assert(frontier@.contains(t)) by {
                                assert(frontier@[frontier@.len() - 1] == t);
                            }
                            let res = lemma_progress_new_state(
                                *nfa,
                                m1,
                                e_closure_map@,
                                d1,
                                dfa,
                                keys,
                                done,
                                visited@,
                                frontier@,
                                cur,
                                t,
                                to.id as int,
                            );
                            keys = res.0;
                            done = res.1;
                            lemma_edges_grow(*nfa, m1, e_closure_map@, d1, dfa, cur, e@, a as int, *ts, b as int);
                        }
                        let trans = Transition::new(copy_kind(x), to);
                        if !has_transition(&dfa, new_node.id, &trans) {
                            let ghost d2 = dfa;
                            let ghost l = label(trans.kind);
                            assert(label(nfa.nodes@[j as int].transitions@[b as int].kind) == l);
                            let ghost tr = trans;
                            let _ = dfa.add_transition_to(&new_node, trans);
                            proof {
                                lemma_added_keeps(d2, dfa, new_node, l, to, *nfa);
                                lemma_distinct_added(d2, dfa, new_node, tr);
                                lemma_added_justified(
                                    *nfa,
                                    e_closure_map@,
                                    d2,
                                    dfa,
                                    new_node,
                                    tr,
                                    j,
                                    b as int,
                                    end.id,
                                );
                                lemma_progress_added(*nfa, e_closure_map@, d2, dfa, new_node, l, to, keys, done, visited@, frontier@, cur);
                                lemma_edges_added(*nfa, e_closure_map@, d2, dfa, new_node, l, to, cur, e@, a as int, *ts, b as int);
                                let last = dfa.nodes@[cur].transitions@.len() - 1;
                                assert(dfa.nodes@[cur].transitions@[last].dest == to);
                                assert(edge_for(*nfa, e_closure_map@, dfa, cur, ts@[b as int]));
                            }
                        } else {
                            proof {
                                let jj = choose|jj: int|
                                    0 <= jj < dfa.nodes@[cur].transitions@.len() && label(
                                        (#[trigger] dfa.nodes@[cur].transitions@[jj]).kind,
                                    ) == label(trans.kind) && dfa.nodes@[cur].transitions@[jj].dest
                                        == trans.dest;
                                assert(edge_for(*nfa, e_closure_map@, dfa, cur, ts@[b as int]));
                            }
                        }
                    },
                }
                b = b + 1;
            }
            proof {
                assert forall|ai: int, bb: int|
                    #![trigger e@[ai], nfa.nodes@[e@[ai] as int].transitions@[bb]]
                    0 <= ai < a + 1 && 0 <= bb < nfa.nodes@[e@[ai] as int].transitions@.len() && !(label(
                        nfa.nodes@[e@[ai] as int].transitions@[bb].kind,
                    ) is Epsilon) implies edge_for(
                        *nfa,
                        e_closure_map@,
                        dfa,
                        cur,
                        nfa.nodes@[e@[ai] as int].transitions@[bb],
                    ) by {
                    if ai == a {
                        assert(ts@[bb] == nfa.nodes@[e@[ai] as int].transitions@[bb]);
                    }
                }
            }
            a = a + 1;
        }
        proof {
            assert(complete(*nfa, e_closure_map@, dfa, cur)) by {
                assert forall|x: usize, bb: int|
                    #![trigger e_closure_map@[cur].0@.contains(x), nfa.nodes@[x as int].transitions@[bb]]
                    e_closure_map@[cur].0@.contains(x) && x < nfa.nodes@.len() && 0 <= bb
                        < nfa.nodes@[x as int].transitions@.len() && !(label(
                        nfa.nodes@[x as int].transitions@[bb].kind,
                    ) is Epsilon) implies edge_for(
                        *nfa,
                        e_closure_map@,
                        dfa,
                        cur,
                        nfa.nodes@[x as int].transitions@[bb],
                    ) by {
                    let ai = choose|ai: int| 0 <= ai < e@.len() && e@[ai] == x;
                    assert(e@[ai] == x);
                }
            }
            let keys_done = done.update(cur, true);
            lemma_progress_finish(*nfa, e_closure_map@, dfa, keys, done, visited@, frontier@, cur, i, end.id);
            done = keys_done;
            lemma_count_true_set(visited@, i as int);
        }
        visited.set(i, true);
        proof {
            lemma_count_true_bound(visited@);
        }
    }
    proof {
        assert forall|k: int| 0 <= k < e_closure_map@.len() implies #[trigger] done[k] by {
            if !done[k] {
                assert(frontier@.contains(keys[k]));
            }
        }
    }
    let ghost d3 = dfa;
    let ghost m3 = e_closure_map@;
    let (endnode, _) = get_new_state(nfa, &mut dfa, &mut e_closure_map, end.id, end.id);
    proof {
        lemma_extends_keeps(d3, dfa, *nfa);
        lemma_distinct_extends(d3, dfa);
        lemma_justified_grow(*nfa, m3, e_closure_map@, d3, dfa);
        assert(e_closure_map@[startnode.id as int] == m3[startnode.id as int]);
        assert(state_table(*nfa, e_closure_map@, dfa, end.id));
        assert forall|k: int| 0 <= k < dfa.nodes@.len() implies #[trigger] covered(
            *nfa,
            e_closure_map@,
            dfa,
            startnode,
            endnode,
            k,
        ) by {
            if k < m3.len() {
                assert(done[k]);
                lemma_complete_grow(*nfa, m3, e_closure_map@, d3, dfa, k);
            } else {
                assert(k == endnode.id);
                assert forall|i2: int, j2: int|
                    0 <= i2 < dfa.nodes@.len() && 0 <= j2 < dfa.nodes@[i2].transitions@.len() implies (
                    #[trigger] dfa.nodes@[i2].transitions@[j2]).dest.id != k by {
                    if i2 < d3.nodes@.len() {
                        assert(dfa.nodes@[i2] == d3.nodes@[i2]);
                        assert(d3.nodes@[i2].transitions@[j2].dest.id < d3.nodes@.len());
                    }
                }
            }
        }
        let mp = e_closure_map@;
        assert(transitions_justified(*nfa, mp, dfa));
        assert(is_closure(*nfa, start.id, mp[startnode.id as int].0@));
        assert(is_closure(*nfa, end.id, mp[endnode.id as int].0@));
        assert(state_table(*nfa, mp, dfa, end.id));
        assert(subset_automaton(*nfa, *start, *end, dfa, startnode, endnode));
    }
    (dfa, startnode, endnode)
}

proof fn lemma_closure_nodes(nfa: &Nfa, start: usize, c: Seq<usize>)
    requires
        nfa.wf(),
        start < nfa.nodes@.len(),
        is_closure(*nfa, start, c),
    ensures
        forall|k: int| 0 <= k < c.len() ==> #[trigger] c[k] < nfa.nodes@.len(),
{
    reveal(is_closure);
    assert forall|k: int| 0 <= k < c.len() implies #[trigger] c[k] < nfa.nodes@.len() by {
        assert(c.contains(c[k]));
        lemma_reachable_node(*nfa, start, c[k] as int);
    }
}

proof fn lemma_reachable_node(nfa: Nfa, start: usize, x: int)
    requires
        nfa.wf(),
        start < nfa.nodes@.len(),
        reachable(nfa, set![start as int], x, false),
    ensures
        0 <= x < nfa.nodes@.len(),
{
    let c = Set::new(|y: int| 0 <= y < nfa.nodes@.len());
    let k = choose|k: nat| #[trigger] crate::nfa::reach(nfa, set![start as int], k, false).contains(x);
    assert forall|a: int, b: int| c.contains(a) && crate::nfa::silent_step(nfa, a, b, false) implies c.contains(b) by {
        let j = choose|j: int|
            0 <= j < nfa.nodes@[a].transitions@.len() && #[trigger] nfa.nodes@[a].transitions@[j].dest.id
                == b && crate::nfa::is_silent(label(nfa.nodes@[a].transitions@[j].kind), false);
    }
    crate::nfa::lemma_closed_holds_reach(nfa, set![start as int], c, k, false);
}

proof fn lemma_extends_keeps(old: Nfa, new: Nfa, nfa: Nfa)
    requires
        old.wf(),
        labels_from(old, nfa),
        extends(old, new),
    ensures
        new.wf(),
        labels_from(new, nfa),
{
    assert forall|i: int, j: int|
        0 <= i < new.nodes@.len() && 0 <= j < new.nodes@[i].transitions@.len() implies (
    #[trigger] new.nodes@[i].transitions@[j]).dest.id < new.nodes@.len() by {
        assert(new.nodes@[i] == old.nodes@[i]);
    }
    assert forall|i: int, j: int|
        0 <= i < new.nodes@.len() && 0 <= j < new.nodes@[i].transitions@.len() implies {
        let l = label(#[trigger] new.nodes@[i].transitions@[j].kind);
        &&& !(l is Epsilon)
        &&& exists|a: int, b: int|
            0 <= a < nfa.nodes@.len() && 0 <= b < nfa.nodes@[a].transitions@.len() && label(
                #[trigger] nfa.nodes@[a].transitions@[b].kind,
            ) == l
    } by {
        assert(new.nodes@[i] == old.nodes@[i]);
        assert(old.nodes@[i].transitions@[j] == new.nodes@[i].transitions@[j]);
    }
}

proof fn lemma_added_justified(
    nfa: Nfa,
    map: Seq<(Vec<usize>, NodePointer)>,
    old: Nfa,
    new: Nfa,
    from: NodePointer,
    t: Transition,
    a: usize,
    b: int,
    end: usize,
)
    requires
        old.wf(),
        state_table(nfa, map, old, end),
        transitions_justified(nfa, map, old),
        from.id < old.nodes@.len(),
        t.dest.id < old.nodes@.len(),
        Nfa::added(old, new, from, label(t.kind), t.dest),
        map[from.id as int].0@.contains(a),
        a < nfa.nodes@.len(),
        0 <= b < nfa.nodes@[a as int].transitions@.len(),
        label(nfa.nodes@[a as int].transitions@[b].kind) == label(t.kind),
        is_closure(nfa, nfa.nodes@[a as int].transitions@[b].dest.id, map[t.dest.id as int].0@),
    ensures
        transitions_justified(nfa, map, new),
        state_table(nfa, map, new, end),
{
    assert forall|k: int, j: int|
        0 <= k < new.nodes@.len() && 0 <= j < new.nodes@[k].transitions@.len() implies justified(
        nfa,
        map,
        k,
        #[trigger] new.nodes@[k].transitions@[j],
    ) by {
        let tt = new.nodes@[k].transitions@[j];
        if k == from.id && j == old.nodes@[k].transitions@.len() {
            assert(label(tt.kind) == label(t.kind));
            assert(tt.dest == t.dest);
            assert(map[k].0@.contains(a));
        } else if k == from.id {
            assert(tt == new.nodes@[k].transitions@.drop_last()[j]);
            assert(tt == old.nodes@[k].transitions@[j]);
        } else {
            assert(new.nodes@[k] == old.nodes@[k]);
        }
    }
    assert forall|k: int|
        0 <= k < map.len() implies ((#[trigger] new.nodes@[k]).nt == NodeType::Accept
        <==> map[k].0@.contains(end)) by {
        if k != from.id {
            assert(new.nodes@[k] == old.nodes@[k]);
        } else {
            assert(new.nodes@[k].nt == old.nodes@[k].nt);
        }
    }
    assert(new.nodes@.len() == map.len());
    assert(forall|k: int| 0 <= k < map.len() ==> (#[trigger] map[k]).1.id == k);
    assert(forall|k1: int, k2: int|
        0 <= k1 < k2 < map.len() ==> (#[trigger] map[k1]).0@ != (#[trigger] map[k2]).0@);
}

proof fn lemma_added_keeps(old: Nfa, new: Nfa, from: NodePointer, l: Label, to: NodePointer, nfa: Nfa)
    requires
        old.wf(),
        labels_from(old, nfa),
        from.id < old.nodes@.len(),
        to.id < old.nodes@.len(),
        Nfa::added(old, new, from, l, to),
        !(l is Epsilon),
        exists|a: int, b: int|
            0 <= a < nfa.nodes@.len() && 0 <= b < nfa.nodes@[a].transitions@.len() && label(
                #[trigger] nfa.nodes@[a].transitions@[b].kind,
            ) == l,
    ensures
        new.wf(),
        labels_from(new, nfa),
{
    assert forall|i: int, j: int|
        0 <= i < new.nodes@.len() && 0 <= j < new.nodes@[i].transitions@.len() implies (
    #[trigger] new.nodes@[i].transitions@[j]).dest.id < new.nodes@.len() by {
        if i == from.id && j < old.nodes@[i].transitions@.len() {
            assert(new.nodes@[i].transitions@[j] == new.nodes@[i].transitions@.drop_last()[j]);
        }
    }
    assert forall|i: int, j: int|
        0 <= i < new.nodes@.len() && 0 <= j < new.nodes@[i].transitions@.len() implies {
        let l2 = label(#[trigger] new.nodes@[i].transitions@[j].kind);
        &&& !(l2 is Epsilon)
        &&& exists|a: int, b: int|
            0 <= a < nfa.nodes@.len() && 0 <= b < nfa.nodes@[a].transitions@.len() && label(
                #[trigger] nfa.nodes@[a].transitions@[b].kind,
            ) == l2
    } by {
        if i == from.id && j < old.nodes@[i].transitions@.len() {
            assert(new.nodes@[i].transitions@[j] == new.nodes@[i].transitions@.drop_last()[j]);
            assert(old.nodes@[i].transitions@[j] == new.nodes@[i].transitions@[j]);
        } else if i != from.id {
            assert(old.nodes@[i].transitions@[j] == new.nodes@[i].transitions@[j]);
        }
    }
}

/// The nodes reached from `s` by epsilon transitions.
pub open spec fn eclose(nfa: Nfa, s: Set<int>) -> Set<int> {
    Set::new(|x: int| reachable(nfa, s, x, false))
}

/// Where the transitions of the nodes `s` that read `l` lead.
pub open spec fn moves(nfa: Nfa, s: Set<int>, l: Label) -> Set<int> {
    Set::new(
        |t: int|
            exists|a: int, j: int|
                s.contains(a) && 0 <= a < nfa.nodes@.len() && 0 <= j
                    < nfa.nodes@[a].transitions@.len() && label(nfa.nodes@[a].transitions@[j].kind)
                    == l && #[trigger] nfa.nodes@[a].transitions@[j].dest.id == t,
    )
}

/// The nodes of `nfa` reached from `s` reading the labels `w`, with epsilon
/// transitions before, between and after them.
pub open spec fn nfa_after(nfa: Nfa, s: Set<int>, w: Seq<Label>) -> Set<int>
    decreases w.len(),
{
    if w.len() == 0 {
        eclose(nfa, s)
    } else {
        eclose(nfa, moves(nfa, nfa_after(nfa, s, w.drop_last()), w.last()))
    }
}

/// The states of `dfa` reached from `s` reading the labels `w`.
pub open spec fn dfa_after(dfa: Nfa, s: Set<int>, w: Seq<Label>) -> Set<int>
    decreases w.len(),
{
    if w.len() == 0 {
        s
    } else {
        moves(dfa, dfa_after(dfa, s, w.drop_last()), w.last())
    }
}

/// The nodes that the states `ks` stand for.
pub open spec fn union_of(map: Seq<(Vec<usize>, NodePointer)>, ks: Set<int>) -> Set<int> {
    Set::new(
        |x: int|
            0 <= x <= usize::MAX && exists|k: int|
                ks.contains(k) && 0 <= k < map.len() && #[trigger] map[k].0@.contains(x as usize),
    )
}

proof fn lemma_reach_split(nfa: Nfa, t: Set<int>, k: nat, x: int)
    ensures
        reach(nfa, t, k, false).contains(x) <==> exists|y: int|
            t.contains(y) && #[trigger] reach(nfa, set![y], k, false).contains(x),
    decreases k,
{
    if k == 0 {
        if t.contains(x) {
            assert(reach(nfa, set![x], 0, false).contains(x));
        }
    } else {
        let k1 = (k - 1) as nat;
        lemma_reach_split(nfa, t, k1, x);
        if reach(nfa, t, k, false).contains(x) {
            if !reach(nfa, t, k1, false).contains(x) {
                let a = choose|a: int| reach(nfa, t, k1, false).contains(a) && crate::nfa::silent_step(nfa, a, x, false);
                lemma_reach_split(nfa, t, k1, a);
                let y = choose|y: int| t.contains(y) && #[trigger] reach(nfa, set![y], k1, false).contains(a);
                assert(reach(nfa, set![y], k, false).contains(x));
            } else {
                let y = choose|y: int| t.contains(y) && #[trigger] reach(nfa, set![y], k1, false).contains(x);
                assert(reach(nfa, set![y], k, false).contains(x));
            }
        }
        if exists|y: int| t.contains(y) && #[trigger] reach(nfa, set![y], k, false).contains(x) {
            let y = choose|y: int| t.contains(y) && #[trigger] reach(nfa, set![y], k, false).contains(x);
            if reach(nfa, set![y], k1, false).contains(x) {
                assert(reach(nfa, t, k1, false).contains(x));
            } else {
                let a = choose|a: int|
                    reach(nfa, set![y], k1, false).contains(a) && crate::nfa::silent_step(nfa, a, x, false);
                lemma_reach_split(nfa, t, k1, a);
                assert(reach(nfa, t, k1, false).contains(a));
            }
        }
    }
}

proof fn lemma_reachable_split(nfa: Nfa, t: Set<int>, x: int)
    ensures
        reachable(nfa, t, x, false) <==> exists|y: int|
            t.contains(y) && #[trigger] reachable(nfa, set![y], x, false),
{
    if reachable(nfa, t, x, false) {
        let k = choose|k: nat| #[trigger] reach(nfa, t, k, false).contains(x);
        lemma_reach_split(nfa, t, k, x);
        let y = choose|y: int| t.contains(y) && #[trigger] reach(nfa, set![y], k, false).contains(x);
        assert(reachable(nfa, set![y], x, false));
    }
    if exists|y: int| t.contains(y) && #[trigger] reachable(nfa, set![y], x, false) {
        let y = choose|y: int| t.contains(y) && #[trigger] reachable(nfa, set![y], x, false);
        let k = choose|k: nat| #[trigger] reach(nfa, set![y], k, false).contains(x);
        lemma_reach_split(nfa, t, k, x);
        assert(reach(nfa, t, k, false).contains(x));
    }
}

proof fn lemma_closure_members(nfa: Nfa, y: usize, c: Seq<usize>, x: int)
    requires
        is_closure(nfa, y, c),
    ensures
        (0 <= x <= usize::MAX && c.contains(x as usize)) <==> reachable(nfa, set![y as int], x, false),
{
    reveal(is_closure);
    if reachable(nfa, set![y as int], x, false) {
        let k = choose|k: nat| #[trigger] reach(nfa, set![y as int], k, false).contains(x);
        lemma_reach_nonneg(nfa, y as int, k, x);
    }
    if 0 <= x <= usize::MAX {
        let xu = x as usize;
        assert(c.contains(xu) <==> reachable(nfa, set![y as int], xu as int, false));
    }
}

proof fn lemma_reach_nonneg(nfa: Nfa, y: int, k: nat, x: int)
    requires
        0 <= y <= usize::MAX,
        reach(nfa, set![y], k, false).contains(x),
    ensures
        0 <= x <= usize::MAX,
    decreases k,
{
    if k > 0 {
        let k1 = (k - 1) as nat;
        if !reach(nfa, set![y], k1, false).contains(x) {
            let a = choose|a: int| reach(nfa, set![y], k1, false).contains(a) && crate::nfa::silent_step(nfa, a, x, false);
            let j = choose|j: int|
                0 <= j < nfa.nodes@[a].transitions@.len() && #[trigger] nfa.nodes@[a].transitions@[j].dest.id
                    == x && crate::nfa::is_silent(label(nfa.nodes@[a].transitions@[j].kind), false);
        } else {
            lemma_reach_nonneg(nfa, y, k1, x);
        }
    }
}

proof fn lemma_step_forward(
    nfa: Nfa,
    dfa: Nfa,
    map: Seq<(Vec<usize>, NodePointer)>,
    n0: Set<int>,
    dd: Set<int>,
    l: Label,
)
    requires
        dfa.wf(),
        dfa.nodes@.len() == map.len(),
        !(l is Epsilon),
        n0 == union_of(map, dd),
        forall|k: int| #[trigger] dd.contains(k) ==> 0 <= k < dfa.nodes@.len() && complete(nfa, map, dfa, k),
    ensures
        forall|x: int| eclose(nfa, moves(nfa, n0, l)).contains(x) ==> #[trigger] union_of(map, moves(dfa, dd, l)).contains(x),
{
    let n1 = eclose(nfa, moves(nfa, n0, l));
    let dd1 = moves(dfa, dd, l);
    assert forall|x: int| n1.contains(x) implies #[trigger] union_of(map, dd1).contains(x) by {
            lemma_reachable_split(nfa, moves(nfa, n0, l), x);
            let t = choose|t: int| moves(nfa, n0, l).contains(t) && #[trigger] reachable(nfa, set![t], x, false);
            let (a, j) = choose|a: int, j: int|
                n0.contains(a) && 0 <= a < nfa.nodes@.len() && 0 <= j < nfa.nodes@[a].transitions@.len()
                    && label(nfa.nodes@[a].transitions@[j].kind) == l
                    && #[trigger] nfa.nodes@[a].transitions@[j].dest.id == t;
            assert(union_of(map, dd).contains(a));
            let k = choose|k: int| dd.contains(k) && 0 <= k < map.len() && #[trigger] map[k].0@.contains(a as usize);
            assert(complete(nfa, map, dfa, k));
            let tr = nfa.nodes@[a].transitions@[j];
            assert(map[k].0@.contains(a as usize) && nfa.nodes@[a as usize as int].transitions@[j] == tr);
            assert(edge_for(nfa, map, dfa, k, tr));
            let jj = choose|jj: int|
                0 <= jj < dfa.nodes@[k].transitions@.len() && label(
                    (#[trigger] dfa.nodes@[k].transitions@[jj]).kind,
                ) == label(tr.kind) && is_closure(
                    nfa,
                    tr.dest.id,
                    map[dfa.nodes@[k].transitions@[jj].dest.id as int].0@,
                );
            let d = dfa.nodes@[k].transitions@[jj].dest.id as int;
            assert(dd1.contains(d));
            lemma_closure_members(nfa, tr.dest.id, map[d].0@, x);
            assert(d < dfa.nodes@.len());
            assert(map[d].0@.contains(x as usize));
        }
}

proof fn lemma_step_backward(
    nfa: Nfa,
    dfa: Nfa,
    map: Seq<(Vec<usize>, NodePointer)>,
    n0: Set<int>,
    dd: Set<int>,
    l: Label,
)
    requires
        dfa.wf(),
        dfa.nodes@.len() == map.len(),
        n0 == union_of(map, dd),
        transitions_justified(nfa, map, dfa),
        forall|k: int| #[trigger] dd.contains(k) ==> 0 <= k < dfa.nodes@.len(),
    ensures
        forall|x: int| #[trigger] union_of(map, moves(dfa, dd, l)).contains(x) ==> eclose(nfa, moves(nfa, n0, l)).contains(x),
{
    let n1 = eclose(nfa, moves(nfa, n0, l));
    let dd1 = moves(dfa, dd, l);
    assert forall|x: int| #[trigger] union_of(map, dd1).contains(x) implies n1.contains(x) by {
            let d = choose|d: int| dd1.contains(d) && 0 <= d < map.len() && #[trigger] map[d].0@.contains(x as usize);
            let (k, jj) = choose|k: int, jj: int|
                dd.contains(k) && 0 <= k < dfa.nodes@.len() && 0 <= jj < dfa.nodes@[k].transitions@.len()
                    && label(dfa.nodes@[k].transitions@[jj].kind) == l
                    && #[trigger] dfa.nodes@[k].transitions@[jj].dest.id == d;
            let tr = dfa.nodes@[k].transitions@[jj];
            assert(justified(nfa, map, k, tr));
            let (a, b) = choose|a: usize, b: int|
                #![trigger map[k].0@.contains(a), nfa.nodes@[a as int].transitions@[b]]
                map[k].0@.contains(a) && a < nfa.nodes@.len() && 0 <= b < nfa.nodes@[a as int].transitions@.len()
                    && label(nfa.nodes@[a as int].transitions@[b].kind) == label(tr.kind) && is_closure(
                    nfa,
                    nfa.nodes@[a as int].transitions@[b].dest.id,
                    map[tr.dest.id as int].0@,
                );
            let t = nfa.nodes@[a as int].transitions@[b].dest.id as int;
            assert((a as int) as usize == a);
            assert(dd.contains(k) && 0 <= k < map.len() && map[k].0@.contains((a as int) as usize));
            assert(union_of(map, dd).contains(a as int));
            assert(n0.contains(a as int));
            assert(moves(nfa, n0, l).contains(t));
            lemma_closure_members(nfa, t as usize, map[d].0@, x);
            lemma_reachable_split(nfa, moves(nfa, n0, l), x);
        }
}

proof fn lemma_after(
    nfa: Nfa,
    dfa: Nfa,
    map: Seq<(Vec<usize>, NodePointer)>,
    start: NodePointer,
    end: NodePointer,
    st: NodePointer,
    en: NodePointer,
    w: Seq<Label>,
)
    requires
        dfa.wf(),
        st.id < dfa.nodes@.len(),
        state_table(nfa, map, dfa, end.id),
        transitions_justified(nfa, map, dfa),
        is_closure(nfa, start.id, map[st.id as int].0@),
        forall|k: int| 0 <= k < dfa.nodes@.len() ==> #[trigger] covered(nfa, map, dfa, st, en, k),
        forall|i: int| 0 <= i < w.len() ==> !(#[trigger] w[i] is Epsilon),
    ensures
        nfa_after(nfa, set![start.id as int], w) == union_of(map, dfa_after(dfa, set![st.id as int], w)),
        forall|k: int|
            #[trigger] dfa_after(dfa, set![st.id as int], w).contains(k) ==> 0 <= k < dfa.nodes@.len()
                && complete(nfa, map, dfa, k),
    decreases w.len(),
{
    let s0 = set![start.id as int];
    let d0 = set![st.id as int];
    if w.len() == 0 {
        assert(covered(nfa, map, dfa, st, en, st.id as int));
        assert forall|x: int| #[trigger] nfa_after(nfa, s0, w).contains(x) == union_of(map, d0).contains(x) by {
            lemma_closure_members(nfa, start.id, map[st.id as int].0@, x);
        }
        assert(nfa_after(nfa, s0, w) =~= union_of(map, dfa_after(dfa, d0, w)));
    } else {
        let v = w.drop_last();
        let l = w.last();
        assert forall|i: int| 0 <= i < v.len() implies !(#[trigger] v[i] is Epsilon) by {
            assert(v[i] == w[i]);
        }
        assert(!(l is Epsilon)) by {
            assert(w[w.len() - 1] == l);
        }
        lemma_after(nfa, dfa, map, start, end, st, en, v);
        let n0 = nfa_after(nfa, s0, v);
        let dd = dfa_after(dfa, d0, v);
        let n1 = nfa_after(nfa, s0, w);
        let dd1 = dfa_after(dfa, d0, w);
        assert(n1 == eclose(nfa, moves(nfa, n0, l)));
        assert(dd1 == moves(dfa, dd, l));
        assert forall|k: int| #[trigger] dd1.contains(k) implies 0 <= k < dfa.nodes@.len() && complete(
            nfa,
            map,
            dfa,
            k,
        ) by {
            let (a, j) = choose|a: int, j: int|
                dd.contains(a) && 0 <= a < dfa.nodes@.len() && 0 <= j < dfa.nodes@[a].transitions@.len()
                    && label(dfa.nodes@[a].transitions@[j].kind) == l
                    && #[trigger] dfa.nodes@[a].transitions@[j].dest.id == k;
            assert(k < dfa.nodes@.len());
            assert(covered(nfa, map, dfa, st, en, k));
            if !complete(nfa, map, dfa, k) {
                assert(untargeted(dfa, k));
                assert(dfa.nodes@[a].transitions@[j].dest.id != k);
            }
        }
        lemma_step_forward(nfa, dfa, map, n0, dd, l);
        lemma_step_backward(nfa, dfa, map, n0, dd, l);
        assert(n1 =~= union_of(map, dd1));
    }
}

/// The subset automaton accepts the same words as the automaton it was built
/// from: after reading the labels `w` (none of them an epsilon), the end node
/// is among the nodes that `nfa` reaches from `start` exactly when some state
/// that `dfa` reaches from `st` accepts.
pub proof fn lemma_subset_accepts_same(
    nfa: Nfa,
    start: NodePointer,
    end: NodePointer,
    dfa: Nfa,
    st: NodePointer,
    en: NodePointer,
    w: Seq<Label>,
)
    requires
        dfa.wf(),
        st.id < dfa.nodes@.len(),
        subset_automaton(nfa, start, end, dfa, st, en),
        forall|i: int| 0 <= i < w.len() ==> !(#[trigger] w[i] is Epsilon),
    ensures
        nfa_after(nfa, set![start.id as int], w).contains(end.id as int) <==> exists|k: int|
            #[trigger] dfa_after(dfa, set![st.id as int], w).contains(k) && dfa.nodes@[k].nt
                == NodeType::Accept,
{
    let map = choose|map: Seq<(Vec<usize>, NodePointer)>|
        {
            &&& #[trigger] state_table(nfa, map, dfa, end.id)
            &&& transitions_justified(nfa, map, dfa)
            &&& is_closure(nfa, start.id, map[st.id as int].0@)
            &&& is_closure(nfa, end.id, map[en.id as int].0@)
            &&& forall|k: int| 0 <= k < dfa.nodes@.len() ==> #[trigger] covered(nfa, map, dfa, st, en, k)
        };
    lemma_after(nfa, dfa, map, start, end, st, en, w);
    let dd = dfa_after(dfa, set![st.id as int], w);
    assert(nfa_after(nfa, set![start.id as int], w) == union_of(map, dd));
    if nfa_after(nfa, set![start.id as int], w).contains(end.id as int) {
        assert(union_of(map, dd).contains(end.id as int));
        let k = choose|k: int| dd.contains(k) && 0 <= k < map.len() && #[trigger] map[k].0@.contains(end.id);
        assert(dfa.nodes@[k].nt == NodeType::Accept);
    }
    if exists|k: int| #[trigger] dd.contains(k) && dfa.nodes@[k].nt == NodeType::Accept {
        let k = choose|k: int| #[trigger] dd.contains(k) && dfa.nodes@[k].nt == NodeType::Accept;
        assert(0 <= k < map.len());
        assert(map[k].0@.contains(end.id));
        assert((end.id as int) as usize == end.id);
        assert(map[k].0@.contains((end.id as int) as usize));
        assert(union_of(map, dd).contains(end.id as int));
    }
}

} // verus!
