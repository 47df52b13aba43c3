//! Simulation of an automaton on a set of current nodes, one character at a time.
use vstd::prelude::*;
use crate::nfa::queryengine::QueryEngine;
use crate::nfa::search::class_contains;
use crate::nfa::{
    closure_of_marks, label, marked_set, reachable, Group, Label, Nfa, NodePointer, TransitionType,
};

verus! {

/// The set of nodes a list refers to.
pub open spec fn node_set(v: Seq<NodePointer>) -> Set<int> {
    Set::new(|x: int| exists|k: int| 0 <= k < v.len() && v[k].id == x)
}

/// The members of `s` that are nodes of `nfa`.
pub open spec fn valid_part(nfa: Nfa, s: Set<int>) -> Set<int> {
    Set::new(|x: int| s.contains(x) && 0 <= x < nfa.nodes@.len())
}

/// The node list is in increasing order of id, so it holds no node twice.
pub open spec fn sorted_nodes(v: Seq<NodePointer>) -> bool {
    forall|i: int, j: int| 0 <= i < j < v.len() ==> v[i].id < v[j].id
}

/// A transition with label `l` fires on the character `c`.
pub open spec fn fires(l: Label, c: char) -> bool {
    match l {
        Label::Alpha(x) => x == c,
        Label::Any => true,
        Label::Range(s) => s.contains(c),
        Label::NegativeRange(s) => !s.contains(c),
        _ => false,
    }
}

/// Where the transitions of the nodes `s` that fire on `c` lead.
pub open spec fn char_moves(nfa: Nfa, s: Set<int>, c: char) -> Set<int> {
    Set::new(
        |b: int|
            exists|a: int, j: int|
                s.contains(a) && 0 <= a < nfa.nodes@.len() && 0 <= j
                    < nfa.nodes@[a].transitions@.len() && #[trigger] nfa.nodes@[a].transitions@[j].dest.id
                    == b && fires(label(nfa.nodes@[a].transitions@[j].kind), c),
    )
}

/// Where the query-set transitions of the nodes `s` lead.
pub open spec fn query_moves(nfa: Nfa, s: Set<int>) -> Set<int> {
    Set::new(
        |b: int|
            exists|a: int, j: int|
                s.contains(a) && 0 <= a < nfa.nodes@.len() && 0 <= j
                    < nfa.nodes@[a].transitions@.len() && #[trigger] nfa.nodes@[a].transitions@[j].dest.id
                    == b && label(nfa.nodes@[a].transitions@[j].kind) is QuerySetRange,
    )
}

/// The current nodes of a simulation, the groups it has seen open and close,
/// and the position it has reached.
#[derive(Debug)]
pub struct Context {
    pub nodes: Vec<NodePointer>,
    pub groups: Vec<Group>,
    pub index: usize,
}

impl Context {
    pub fn new(nodes: Vec<NodePointer>) -> (r: Self)
        ensures
            r.nodes == nodes,
            r.groups@.len() == 0,
            r.index == 0,
    {
        Self { nodes, groups: Vec::new(), index: 0 }
    }

    pub fn reset(&mut self)
        ensures
            final(self).nodes@.len() == 0,
            final(self).groups@.len() == 0,
            final(self).index == 0,
    {
        self.groups.clear();
        self.index = 0;
        self.nodes.clear();
    }

    /// Whether `i` is a current node.
    pub fn contains(&self, i: &NodePointer) -> (r: bool)
        ensures
            r == node_set(self.nodes@).contains(i.id as int),
    {
        let mut k: usize = 0;
        while k < self.nodes.len()
            invariant
                k <= self.nodes@.len(),
                forall|j: int| 0 <= j < k ==> self.nodes@[j].id != i.id,
            decreases self.nodes@.len() - k,
        {
            if self.nodes[k].id == i.id {
                return true;
            }
            k = k + 1;
        }
        false
    }

    fn pad(&mut self, i: usize)
        ensures
            final(self).groups@.len() > i,
            final(self).nodes == old(self).nodes,
            final(self).index == old(self).index,
        decreases
    {
        while self.groups.len() <= i
            invariant
                self.nodes == old(self).nodes,
                self.index == old(self).index,
            decreases i + 1 - self.groups@.len(),
        {
            self.groups.push(Group { start: 0, len: 0 });
        }
    }

    fn open(&mut self, i: usize)
        ensures
            final(self).nodes == old(self).nodes,
            final(self).index == old(self).index,
    {
        self.pad(i);
        let g = self.groups[i];
        self.groups.set(i, Group { start: self.index, len: g.len });
    }

    fn close(&mut self, i: usize)
        ensures
            final(self).nodes == old(self).nodes,
            final(self).index == old(self).index,
    {
        self.pad(i);
        let g = self.groups[i];
        let len = if self.index >= g.start {
            self.index - g.start
        } else {
            0
        };
        self.groups.set(i, Group { start: g.start, len });
    }

    /// Moves every current node along its transitions that read `input`, then
    /// adds what those reach by silent steps. A query-set transition moves when
    /// the query applies at the current position, which then jumps to the end
    /// of what the query consumed. Returns the new position.
    pub fn step(&mut self, nfa: &Nfa, input: char, q: &QueryEngine) -> (r: usize)
        requires
            nfa.wf(),
        ensures
            r == final(self).index,
            sorted_nodes(final(self).nodes@),
            old(self).index < usize::MAX && (forall|b: int|
                !query_moves(*nfa, node_set(old(self).nodes@)).contains(b)) ==> final(self).index
                == old(self).index + 1,
            forall|k: int| 0 <= k < final(self).nodes@.len() ==> #[trigger] final(self).nodes@[k].id
                < nfa.nodes@.len(),
            exists|m: Set<int>|
                {
                    &&& char_moves(*nfa, node_set(old(self).nodes@), input).subset_of(m)
                    &&& m.subset_of(
                        char_moves(*nfa, node_set(old(self).nodes@), input).union(
                            query_moves(*nfa, node_set(old(self).nodes@)),
                        ),
                    )
                    &&& forall|x: int|
                        #![trigger reachable(*nfa, m, x, true)]
                        node_set(final(self).nodes@).contains(x) <==> reachable(*nfa, m, x, true)
                },
    {
        let n = nfa.nodes.len();
        let ghost s0 = node_set(self.nodes@);
        let mut moved: Vec<bool> = Vec::new();
        let mut i: usize = 0;
        while i < n
            invariant
                i <= n,
                n == nfa.nodes@.len(),
                moved@.len() == i,
                forall|x: int| 0 <= x < i ==> !moved@[x],
            decreases n - i,
        {
            moved.push(false);
            i = i + 1;
        }
        let mut k: usize = 0;
        while k < self.nodes.len()
            invariant
                nfa.wf(),
                n == nfa.nodes@.len(),
                moved@.len() == n,
                s0 == node_set(self.nodes@),
                s0 == node_set(old(self).nodes@),
                self.nodes == old(self).nodes,
                k <= self.nodes@.len(),
                (forall|b: int| !query_moves(*nfa, s0).contains(b)) ==> self.index == old(self).index,
                marked_set(moved@).subset_of(
                    char_moves(*nfa, s0, input).union(query_moves(*nfa, s0)),
                ),
                forall|b: int|
                    #![trigger char_moves(*nfa, node_set(self.nodes@.subrange(0, k as int)), input).contains(b)]
                    char_moves(*nfa, node_set(self.nodes@.subrange(0, k as int)), input).contains(b)
                        ==> marked_set(moved@).contains(b),
            decreases self.nodes@.len() - k,
        {
            let a = self.nodes[k].id;
            if a < n {
                let ts = &nfa.nodes[a].transitions;
                let mut j: usize = 0;
                while j < ts.len()
                    invariant
                        nfa.wf(),
                        n == nfa.nodes@.len(),
                        moved@.len() == n,
                        s0 == node_set(self.nodes@),
                        self.nodes == old(self).nodes,
                        k < self.nodes@.len(),
                        s0 == node_set(old(self).nodes@),
                        (forall|b: int| !query_moves(*nfa, s0).contains(b)) ==> self.index == old(self).index,
                        a == self.nodes@[k as int].id,
                        a < n,
                        *ts == nfa.nodes@[a as int].transitions,
                        j <= ts@.len(),
                        marked_set(moved@).subset_of(
                            char_moves(*nfa, s0, input).union(query_moves(*nfa, s0)),
                        ),
                        forall|b: int|
                            #![trigger char_moves(*nfa, node_set(self.nodes@.subrange(0, k as int)), input).contains(b)]
                            char_moves(*nfa, node_set(self.nodes@.subrange(0, k as int)), input).contains(b)
                                ==> marked_set(moved@).contains(b),
                        forall|jj: int|
                            0 <= jj < j && fires(label(#[trigger] ts@[jj].kind), input) ==> moved@[ts@[jj].dest.id as int],
                    decreases ts@.len() - j,
                {
                    let t = &ts[j];
                    let d = t.dest.id;
                    assert(d < n);
                    let fire = match &t.kind {
                        TransitionType::Alpha(c) => *c == input,
                        TransitionType::Any => true,
                        TransitionType::Range(s) => class_contains(s, input),
                        TransitionType::NegativeRange(s) => !class_contains(s, input),
                        TransitionType::QuerySetRange(s) => {
                            match q.query(self.index, s) {
                                Some(x) => {
                                    proof {
                                        assert(self.nodes@[k as int].id == a);
                                        assert(s0.contains(a as int));
                                        assert(label(ts@[j as int].kind) is QuerySetRange);
                                        assert(ts@[j as int] == nfa.nodes@[a as int].transitions@[j as int]);
                                        assert(query_moves(*nfa, s0).contains(d as int));
                                    }
                                    self.index = if x > 0 { x - 1 } else { 0 };
                                    true
                                },
                                None => false,
                            }
                        },
                        _ => false,
                    };
                    proof {
                        assert(self.nodes@[k as int].id == a);
                        assert(s0.contains(a as int));
                    }
                    if fire {
                        let ghost before = moved@;
                        moved.set(d, true);
                        proof {
                            assert forall|b: int| marked_set(moved@).contains(b) implies char_moves(
                                *nfa,
                                s0,
                                input,
                            ).union(query_moves(*nfa, s0)).contains(b) by {
                                if b == d {
                                    if fires(label(t.kind), input) {
                                        assert(char_moves(*nfa, s0, input).contains(b));
                                    } else {
                                        assert(query_moves(*nfa, s0).contains(b));
                                    }
                                } else {
                                    assert(marked_set(before).contains(b));
                                }
                            }
                        }
                    }
                    j = j + 1;
                }
            }
            proof {
                let pre = node_set(self.nodes@.subrange(0, k as int));
                let post = node_set(self.nodes@.subrange(0, k + 1));
                assert forall|b: int|
                    #[trigger] char_moves(*nfa, post, input).contains(b) implies marked_set(moved@).contains(b) by {
                    let (a2, j2) = choose|a2: int, j2: int|
                        post.contains(a2) && 0 <= a2 < nfa.nodes@.len() && 0 <= j2
                            < nfa.nodes@[a2].transitions@.len()
                            && #[trigger] nfa.nodes@[a2].transitions@[j2].dest.id == b && fires(
                            label(nfa.nodes@[a2].transitions@[j2].kind),
                            input,
                        );
                    let kk = choose|kk: int|
                        0 <= kk < k + 1 && (#[trigger] self.nodes@.subrange(0, k + 1)[kk]).id == a2;
                    if kk < k {
                        assert(self.nodes@.subrange(0, k as int)[kk].id == a2);
                        assert(pre.contains(a2));
                        assert(char_moves(*nfa, pre, input).contains(b));
                    } else {
                        assert(a2 == a);
                        assert(a < n);
                        assert(fires(label(nfa.nodes@[a as int].transitions@[j2].kind), input));
                    }
                }
            }
            k = k + 1;
        }
        proof {
            assert(self.nodes@.subrange(0, self.nodes@.len() as int) =~= self.nodes@);
            assert forall|b: int| #[trigger] char_moves(*nfa, s0, input).contains(b) implies marked_set(
                moved@,
            ).contains(b) by {
                assert(char_moves(
                    *nfa,
                    node_set(self.nodes@.subrange(0, self.nodes@.len() as int)),
                    input,
                ).contains(b));
            }
        }
        let ghost m = marked_set(moved@);
        let mut list: Vec<NodePointer> = Vec::new();
        let mut x: usize = 0;
        while x < n
            invariant
                x <= n,
                n == moved@.len(),
                forall|j: int| 0 <= j < list@.len() ==> #[trigger] list@[j].id < x,
                sorted_nodes(list@),
                forall|y: int| 0 <= y < x ==> (moved@[y] <==> node_set(list@).contains(y)),
            decreases n - x,
        {
            let ghost before = list@;
            if moved[x] {
                list.push(NodePointer::new(x));
                proof {
                    assert(list@[list@.len() - 1].id == x);
                }
            }
            proof {
                assert forall|y: int| 0 <= y < x + 1 implies (moved@[y] <==> node_set(list@).contains(y)) by {
                    if node_set(before).contains(y) {
                        let j = choose|j: int| 0 <= j < before.len() && before[j].id == y;
                        assert(list@[j].id == y);
                    }
                    if node_set(list@).contains(y) && y != x {
                        let j = choose|j: int| 0 <= j < list@.len() && list@[j].id == y;
                        assert(before[j].id == y);
                    }
                }
            }
            x = x + 1;
        }
        proof {
            assert(node_set(list@) =~= m);
        }
        if self.index < usize::MAX {
            self.index = self.index + 1;
        }
        let ghost l = list@;
        proof {
            assert forall|y: int| valid_part(*nfa, node_set(l)).contains(y) <==> m.contains(y) by {
                if node_set(l).contains(y) {
                    let j = choose|j: int| 0 <= j < l.len() && l[j].id == y;
                    assert(l[j].id < n);
                }
            }
            assert(valid_part(*nfa, node_set(l)) =~= m);
        }
        self.add_epsilons(list, nfa);
        proof {
            assert(char_moves(*nfa, s0, input).subset_of(m));
            assert(forall|x: int|
                #![trigger reachable(*nfa, m, x, true)]
                node_set(self.nodes@).contains(x) <==> reachable(*nfa, m, x, true));
        }
        self.index
    }

    /// Makes the current nodes those that `nodes` reach by silent steps (group
    /// markers included), and records the groups whose markers were passed.
    pub fn add_epsilons(&mut self, nodes: Vec<NodePointer>, nfa: &Nfa)
        requires
            nfa.wf(),
        ensures
            final(self).index == old(self).index,
            sorted_nodes(final(self).nodes@),
            forall|k: int| 0 <= k < final(self).nodes@.len() ==> #[trigger] final(self).nodes@[k].id
                < nfa.nodes@.len(),
            forall|x: int|
                #![trigger reachable(*nfa, valid_part(*nfa, node_set(nodes@)), x, true)]
                node_set(final(self).nodes@).contains(x) <==> reachable(
                    *nfa,
                    valid_part(*nfa, node_set(nodes@)),
                    x,
                    true,
                ),
    {
        let n = nfa.nodes.len();
        let mut init: Vec<bool> = Vec::new();
        let mut i: usize = 0;
        while i < n
            invariant
                i <= n,
                n == nfa.nodes@.len(),
                init@.len() == i,
                forall|x: int| 0 <= x < i ==> !init@[x],
            decreases n - i,
        {
            init.push(false);
            i = i + 1;
        }
        let mut k: usize = 0;
        while k < nodes.len()
            invariant
                n == nfa.nodes@.len(),
                init@.len() == n,
                k <= nodes@.len(),
                forall|y: int|
                    0 <= y < n ==> (init@[y] <==> exists|j: int| 0 <= j < k && nodes@[j].id == y),
            decreases nodes@.len() - k,
        {
            let ghost before = init@;
            if nodes[k].id < n {
                init.set(nodes[k].id, true);
            }
            proof {
                assert forall|y: int| 0 <= y < n implies (init@[y] <==> exists|j: int|
                    0 <= j < k + 1 && nodes@[j].id == y) by {
                    if y == nodes@[k as int].id {
                        assert(nodes@[k as int].id == y);
                    } else if exists|j: int| 0 <= j < k + 1 && nodes@[j].id == y {
                        let j = choose|j: int| 0 <= j < k + 1 && nodes@[j].id == y;
                        assert(j < k);
                    }
                }
            }
            k = k + 1;
        }
        proof {
            assert forall|y: int| marked_set(init@).contains(y) <==> valid_part(*nfa, node_set(nodes@)).contains(y) by {
                if valid_part(*nfa, node_set(nodes@)).contains(y) {
                    let j = choose|j: int| 0 <= j < nodes@.len() && nodes@[j].id == y;
                    assert(nodes@[j].id < n);
                }
            }
            assert(marked_set(init@) =~= valid_part(*nfa, node_set(nodes@)));
        }
        let marks = closure_of_marks(nfa, init, true);
        let mut list: Vec<NodePointer> = Vec::new();
        let mut x: usize = 0;
        while x < n
            invariant
                x <= n,
                n == marks@.len(),
                forall|j: int| 0 <= j < list@.len() ==> #[trigger] list@[j].id < x,
                sorted_nodes(list@),
                forall|y: int| 0 <= y < x ==> (marks@[y] <==> node_set(list@).contains(y)),
            decreases n - x,
        {
            let ghost before = list@;
            if marks[x] {
                list.push(NodePointer::new(x));
                proof {
                    assert(list@[list@.len() - 1].id == x);
                }
            }
            proof {
                assert forall|y: int| 0 <= y < x + 1 implies (marks@[y] <==> node_set(list@).contains(y)) by {
                    if node_set(before).contains(y) {
                        let j = choose|j: int| 0 <= j < before.len() && before[j].id == y;
                        assert(list@[j].id == y);
                    }
                    if node_set(list@).contains(y) && y != x {
                        let j = choose|j: int| 0 <= j < list@.len() && list@[j].id == y;
                        assert(before[j].id == y);
                    }
                }
            }
            x = x + 1;
        }
        let ghost snapshot = list@;
        self.nodes = list;
        let mut k: usize = 0;
        while k < self.nodes.len()
            invariant
                self.nodes@ == snapshot,
                self.index == old(self).index,
                sorted_nodes(snapshot),
                nfa.wf(),
                k <= self.nodes@.len(),
                forall|j: int| 0 <= j < snapshot.len() ==> #[trigger] snapshot[j].id < nfa.nodes@.len(),
            decreases self.nodes@.len() - k,
        {
            let a = self.nodes[k].id;
            let ts = &nfa.nodes[a].transitions;
            let mut j: usize = 0;
            while j < ts.len()
                invariant
                    self.nodes@ == snapshot,
                    self.index == old(self).index,
                    j <= ts@.len(),
                decreases ts@.len() - j,
            {
                match &ts[j].kind {
                    TransitionType::Open(g) => self.open(*g),
                    TransitionType::Close(g) => self.close(*g),
                    _ => {},
                }
                j = j + 1;
            }
            k = k + 1;
        }
        proof {
            assert forall|x: int|
                #![trigger reachable(*nfa, valid_part(*nfa, node_set(nodes@)), x, true)]
                node_set(self.nodes@).contains(x) <==> reachable(*nfa, valid_part(*nfa, node_set(nodes@)), x, true) by {
                if reachable(*nfa, valid_part(*nfa, node_set(nodes@)), x, true) {
                    assert(0 <= x < n);
                    assert(marks@[x]);
                }
                if node_set(self.nodes@).contains(x) {
                    let j = choose|j: int| 0 <= j < snapshot.len() && snapshot[j].id == x;
                    assert(snapshot[j].id < n);
                    assert(marks@[x]);
                }
            }
        }
    }
}

} // verus!
