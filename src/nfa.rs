//! Construction and execution of finite automata.
//!
//! Nodes live in a vector and are referred to by index, which lets the cycles
//! that `*` and `+` introduce be represented without shared ownership.
pub mod context;
pub mod dfa;
pub mod matcher;
pub mod queryengine;
pub mod replacer;
pub mod search;

use vstd::prelude::*;
use crate::error::ErrorKind;

verus! {

/// What a transition reads.
#[derive(Debug)]
pub enum TransitionType {
    Epsilon,
    Alpha(char),
    Range(String),
    NegativeRange(String),
    QuerySetRange(String),
    Open(usize),
    Close(usize),
    Any,
}

/// What a transition reads, with its strings seen as character sequences.
pub enum Label {
    Epsilon,
    Alpha(char),
    Range(Seq<char>),
    NegativeRange(Seq<char>),
    QuerySetRange(Seq<char>),
    Open(usize),
    Close(usize),
    Any,
}

pub open spec fn label(k: TransitionType) -> Label {
    match k {
        TransitionType::Epsilon => Label::Epsilon,
        TransitionType::Alpha(c) => Label::Alpha(c),
        TransitionType::Range(s) => Label::Range(s@),
        TransitionType::NegativeRange(s) => Label::NegativeRange(s@),
        TransitionType::QuerySetRange(s) => Label::QuerySetRange(s@),
        TransitionType::Open(i) => Label::Open(i),
        TransitionType::Close(i) => Label::Close(i),
        TransitionType::Any => Label::Any,
    }
}

/// A copy of a transition kind.
pub fn copy_kind(k: &TransitionType) -> (r: TransitionType)
    ensures
        label(r) == label(*k),
{
    match k {
        TransitionType::Epsilon => TransitionType::Epsilon,
        TransitionType::Alpha(c) => TransitionType::Alpha(*c),
        TransitionType::Range(s) => TransitionType::Range(s.clone()),
        TransitionType::NegativeRange(s) => TransitionType::NegativeRange(s.clone()),
        TransitionType::QuerySetRange(s) => TransitionType::QuerySetRange(s.clone()),
        TransitionType::Open(i) => TransitionType::Open(*i),
        TransitionType::Close(i) => TransitionType::Close(*i),
        TransitionType::Any => TransitionType::Any,
    }
}

/// Whether two transition kinds read the same thing.
pub fn same_kind(a: &TransitionType, b: &TransitionType) -> (r: bool)
    ensures
        r == (label(*a) == label(*b)),
{
    match (a, b) {
        (TransitionType::Epsilon, TransitionType::Epsilon) => true,
        (TransitionType::Alpha(x), TransitionType::Alpha(y)) => *x == *y,
        (TransitionType::Range(x), TransitionType::Range(y)) => *x == *y,
        (TransitionType::NegativeRange(x), TransitionType::NegativeRange(y)) => *x == *y,
        (TransitionType::QuerySetRange(x), TransitionType::QuerySetRange(y)) => *x == *y,
        (TransitionType::Open(x), TransitionType::Open(y)) => *x == *y,
        (TransitionType::Close(x), TransitionType::Close(y)) => *x == *y,
        (TransitionType::Any, TransitionType::Any) => true,
        _ => false,
    }
}

#[derive(Debug, Clone, Copy, PartialEq, Eq, Structural)]
pub enum NodeType {
    Normal,
    Accept,
}

#[derive(Debug)]
pub struct Transition {
    pub kind: TransitionType,
    pub dest: NodePointer,
}

impl Transition {
    pub fn new(kind: TransitionType, dest: NodePointer) -> (r: Self)
        ensures
            r.kind == kind,
            r.dest == dest,
    {
        Self { kind, dest }
    }
}

/// Refers to a node of an automaton by its index.
#[derive(Debug, Clone, Copy, PartialEq, Eq, Structural, Hash)]
pub struct NodePointer {
    pub id: usize,
}

impl NodePointer {
    pub fn new(id: usize) -> (r: Self)
        ensures
            r.id == id,
    {
        Self { id }
    }
}

#[derive(Debug)]
pub struct Node {
    pub transitions: Vec<Transition>,
    pub nt: NodeType,
}

impl Node {
    pub fn new() -> (r: Self)
        ensures
            r.transitions@.len() == 0,
            r.nt == NodeType::Normal,
    {
        Self { transitions: Vec::new(), nt: NodeType::Normal }
    }

    pub fn set_type(&mut self, nt: NodeType)
        ensures
            final(self).nt == nt,
            final(self).transitions == old(self).transitions,
    {
        self.nt = nt;
    }
}

/// A capture group of a match: where it starts and how long it is.
#[derive(Debug, Clone, Copy, PartialEq, Eq, Structural)]
pub struct Group {
    pub start: usize,
    pub len: usize,
}

/// A non-deterministic finite automaton; `index` is the number of capture
/// groups added so far.
#[derive(Debug)]
pub struct Nfa {
    pub nodes: Vec<Node>,
    pub index: usize,
}

/// A transition of the node `a` leads to `b`, and it reads nothing (with
/// `markers`, group markers count as reading nothing too).
pub open spec fn silent_step(nfa: Nfa, a: int, b: int, markers: bool) -> bool {
    &&& 0 <= a < nfa.nodes@.len()
    &&& exists|j: int|
        0 <= j < nfa.nodes@[a].transitions@.len() && #[trigger] nfa.nodes@[a].transitions@[j].dest.id
            == b && is_silent(label(nfa.nodes@[a].transitions@[j].kind), markers)
}

pub open spec fn is_silent(l: Label, markers: bool) -> bool {
    l is Epsilon || (markers && (l is Open || l is Close))
}

/// The nodes reached from `init` in at most `k` silent steps.
pub open spec fn reach(nfa: Nfa, init: Set<int>, k: nat, markers: bool) -> Set<int>
    decreases k,
{
    if k == 0 {
        init
    } else {
        let p = reach(nfa, init, (k - 1) as nat, markers);
        p.union(Set::new(|b: int| exists|a: int| p.contains(a) && silent_step(nfa, a, b, markers)))
    }
}

/// `x` is reached from `init` by silent steps.
pub open spec fn reachable(nfa: Nfa, init: Set<int>, x: int, markers: bool) -> bool {
    exists|k: nat| #[trigger] reach(nfa, init, k, markers).contains(x)
}

/// Every set that holds `init` and is closed under silent steps holds what they reach.
pub proof fn lemma_closed_holds_reach(nfa: Nfa, init: Set<int>, c: Set<int>, k: nat, markers: bool)
    requires
        init.subset_of(c),
        forall|a: int, b: int| c.contains(a) && silent_step(nfa, a, b, markers) ==> c.contains(b),
    ensures
        reach(nfa, init, k, markers).subset_of(c),
    decreases k,
{
    if k > 0 {
        lemma_closed_holds_reach(nfa, init, c, (k - 1) as nat, markers);
    }
}

/// The number of `true` entries of `s`.
pub open spec fn count_true(s: Seq<bool>) -> nat
    decreases s.len(),
{
    if s.len() == 0 {
        0
    } else {
        count_true(s.drop_last()) + if s.last() {
            1nat
        } else {
            0nat
        }
    }
}

pub proof fn lemma_count_true_bound(s: Seq<bool>)
    ensures
        count_true(s) <= s.len(),
    decreases s.len(),
{
    if s.len() > 0 {
        lemma_count_true_bound(s.drop_last());
    }
}

pub proof fn lemma_count_true_set(s: Seq<bool>, i: int)
    requires
        0 <= i < s.len(),
        !s[i],
    ensures
        count_true(s.update(i, true)) == count_true(s) + 1,
    decreases s.len(),
{
    if i < s.len() - 1 {
        assert(s.update(i, true).drop_last() =~= s.drop_last().update(i, true));
        lemma_count_true_set(s.drop_last(), i);
    } else {
        assert(s.update(i, true).drop_last() =~= s.drop_last());
    }
}

impl Nfa {
    /// Every transition leads to a node of the automaton.
    pub open spec fn wf(&self) -> bool {
        forall|i: int, j: int|
            0 <= i < self.nodes@.len() && 0 <= j < self.nodes@[i].transitions@.len()
                ==> (#[trigger] self.nodes@[i].transitions@[j]).dest.id < self.nodes@.len()
    }

    /// An automaton with the given nodes and no capture group.
    pub fn new(nodes: Vec<Node>) -> (r: Self)
        ensures
            r.nodes == nodes,
            r.index == 0,
    {
        Self { nodes, index: 0 }
    }

    /// The node that `i` refers to, if the automaton has it.
    pub fn get(&self, i: &NodePointer) -> (r: Option<&Node>)
        ensures
            i.id < self.nodes@.len() ==> r == Some(&self.nodes@[i.id as int]),
            i.id >= self.nodes@.len() ==> r is None,
    {
        if i.id < self.nodes.len() {
            Some(&self.nodes[i.id])
        } else {
            None
        }
    }

    /// Adds a node with no transitions.
    pub fn new_node(&mut self) -> (r: NodePointer)
        ensures
            final(self).nodes@.len() == old(self).nodes@.len() + 1,
            final(self).nodes@.drop_last() == old(self).nodes@,
            final(self).nodes@.last().transitions@.len() == 0,
            final(self).nodes@.last().nt == NodeType::Normal,
            final(self).index == old(self).index,
            r.id == old(self).nodes@.len(),
    {
        self.add_node(Node::new())
    }

    /// Adds `node`.
    pub fn add_node(&mut self, node: Node) -> (r: NodePointer)
        ensures
            final(self).nodes@ == old(self).nodes@.push(node),
            final(self).index == old(self).index,
            r.id == old(self).nodes@.len(),
    {
        self.nodes.push(node);
        NodePointer::new(self.nodes.len() - 1)
    }

    /// Whether `new` is `old` with a transition of label `l` to `to` added to `from`.
    pub open spec fn added(old: Nfa, new: Nfa, from: NodePointer, l: Label, to: NodePointer) -> bool {
        &&& new.index == old.index
        &&& new.nodes@.len() == old.nodes@.len()
        &&& forall|i: int|
            0 <= i < old.nodes@.len() && i != from.id ==> #[trigger] new.nodes@[i] == old.nodes@[i]
        &&& new.nodes@[from.id as int].nt == old.nodes@[from.id as int].nt
        &&& new.nodes@[from.id as int].transitions@.drop_last() == old.nodes@[from.id
            as int].transitions@
        &&& new.nodes@[from.id as int].transitions@.len() == old.nodes@[from.id
            as int].transitions@.len() + 1
        &&& label(new.nodes@[from.id as int].transitions@.last().kind) == l
        &&& new.nodes@[from.id as int].transitions@.last().dest == to
    }

    /// The outcome of adding a transition: it is added when `from` is a node of
    /// the automaton, and refused otherwise.
    pub open spec fn add_outcome(
        old: Nfa,
        new: Nfa,
        from: NodePointer,
        l: Label,
        to: NodePointer,
        r: Result<(), ErrorKind>,
    ) -> bool {
        if from.id < old.nodes@.len() {
            r is Ok && Self::added(old, new, from, l, to)
        } else {
            r == Err::<(), ErrorKind>(ErrorKind::InvalidNode) && new == old
        }
    }

    pub fn add_transition_range(&mut self, from: &NodePointer, to: &NodePointer, s: String) -> (r:
        Result<(), ErrorKind>)
        ensures
            Self::add_outcome(*old(self), *final(self), *from, Label::Range(s@), *to, r),
    {
        self.add_transition(from, Transition::new(TransitionType::Range(s), *to))
    }

    pub fn add_transition_queryset(&mut self, from: &NodePointer, to: &NodePointer, s: String) -> (r:
        Result<(), ErrorKind>)
        ensures
            Self::add_outcome(*old(self), *final(self), *from, Label::QuerySetRange(s@), *to, r),
    {
        self.add_transition(from, Transition::new(TransitionType::QuerySetRange(s), *to))
    }

    pub fn add_transition_negativerange(
        &mut self,
        from: &NodePointer,
        to: &NodePointer,
        s: String,
    ) -> (r: Result<(), ErrorKind>)
        ensures
            Self::add_outcome(*old(self), *final(self), *from, Label::NegativeRange(s@), *to, r),
    {
        self.add_transition(from, Transition::new(TransitionType::NegativeRange(s), *to))
    }

    pub fn add_transition_alpha(&mut self, from: &NodePointer, to: &NodePointer, on: char) -> (r:
        Result<(), ErrorKind>)
        ensures
            Self::add_outcome(*old(self), *final(self), *from, Label::Alpha(on), *to, r),
    {
        self.add_transition(from, Transition::new(TransitionType::Alpha(on), *to))
    }

    pub fn add_transition_any(&mut self, from: &NodePointer, to: &NodePointer) -> (r: Result<
        (),
        ErrorKind,
    >)
        ensures
            Self::add_outcome(*old(self), *final(self), *from, Label::Any, *to, r),
    {
        self.add_transition(from, Transition::new(TransitionType::Any, *to))
    }

    pub fn add_transition_epsilon(&mut self, from: &NodePointer, to: &NodePointer) -> (r: Result<
        (),
        ErrorKind,
    >)
        ensures
            Self::add_outcome(*old(self), *final(self), *from, Label::Epsilon, *to, r),
    {
        self.add_transition(from, Transition::new(TransitionType::Epsilon, *to))
    }

    /// Adds capture group number `index + 1`: an `Open` transition from
    /// `start_from` to `start_to` and a `Close` one from `end_from` to `end_to`.
    pub fn add_group(
        &mut self,
        start_from: &NodePointer,
        start_to: &NodePointer,
        end_from: &NodePointer,
        end_to: &NodePointer,
    ) -> (r: Result<(), ErrorKind>)
        requires
            old(self).index < usize::MAX,
        ensures
            start_from.id < old(self).nodes@.len() && end_from.id < old(self).nodes@.len() ==> {
                &&& r is Ok
                &&& final(self).index == old(self).index + 1
                &&& exists|mid: Nfa|
                    Self::added(
                        Nfa { nodes: old(self).nodes, index: (old(self).index + 1) as usize },
                        mid,
                        *start_from,
                        Label::Open((old(self).index + 1) as usize),
                        *start_to,
                    ) && #[trigger] Self::added(
                        mid,
                        *final(self),
                        *end_from,
                        Label::Close((old(self).index + 1) as usize),
                        *end_to,
                    )
            },
            !(start_from.id < old(self).nodes@.len() && end_from.id < old(self).nodes@.len())
                ==> r == Err::<(), ErrorKind>(ErrorKind::InvalidNode),
    {
        self.index = self.index + 1;
        let ghost mid0 = *self;
        let r1 = self.add_transition(
            start_from,
            Transition::new(TransitionType::Open(self.index), *start_to),
        );
        if r1.is_err() {
            return r1;
        }
        let ghost mid = *self;
        let r = self.add_transition(
            end_from,
            Transition::new(TransitionType::Close(self.index), *end_to),
        );
        assert(Self::added(mid0, mid, *start_from, Label::Open(self.index), *start_to));
        r
    }

    /// Adds the transition `to` to the node `from`.
    pub fn add_transition_to(&mut self, from: &NodePointer, to: Transition) -> (r: Result<(), ErrorKind>)
        ensures
            Self::add_outcome(*old(self), *final(self), *from, label(to.kind), to.dest, r),
    {
        self.add_transition(from, to)
    }

    fn add_transition(&mut self, from: &NodePointer, to: Transition) -> (r: Result<(), ErrorKind>)
        ensures
            Self::add_outcome(*old(self), *final(self), *from, label(to.kind), to.dest, r),
    {
        if from.id >= self.nodes.len() {
            return Err(ErrorKind::InvalidNode);
        }
        let ghost old_nodes = self.nodes@;
        let mut node = self.nodes.remove(from.id);
        assert(node == old_nodes[from.id as int]);
        let ghost before = node.transitions@;
        node.transitions.push(to);
        assert(node.transitions@.drop_last() =~= before);
        self.nodes.insert(from.id, node);
        assert(self.nodes@ =~= old_nodes.update(from.id as int, node));
        assert(self.nodes@[from.id as int] == node);
        Ok(())
    }

    /// The nodes reached from `start` by epsilon transitions, `start` included,
    /// in increasing order.
    pub fn e_closure(&self, start: usize) -> (r: Vec<usize>)
        requires
            self.wf(),
            start < self.nodes@.len(),
        ensures
            forall|i: int, j: int| 0 <= i < j < r@.len() ==> r@[i] < r@[j],
            forall|x: usize|
                #![trigger r@.contains(x)]
                r@.contains(x) <==> reachable(*self, set![start as int], x as int, false),
    {
        let visited = closure_marks(self, start, false);
        let mut v: Vec<usize> = Vec::new();
        let mut i: usize = 0;
        while i < visited.len()
            invariant
                i <= visited@.len(),
                visited@.len() == self.nodes@.len(),
                forall|a: int, b: int| 0 <= a < b < v@.len() ==> v@[a] < v@[b],
                forall|a: int| 0 <= a < v@.len() ==> v@[a] < i,
                forall|x: usize| #![trigger v@.contains(x)] v@.contains(x) ==> x < i,
                forall|x: usize| x < i ==> (visited@[x as int] <==> #[trigger] v@.contains(x)),
            decreases visited@.len() - i,
        {
            let ghost old_v = v@;
            if visited[i] {
                v.push(i);
                proof {
                    assert forall|x: usize| #[trigger] v@.contains(x) implies x < i + 1 by {
                        if x != i {
                            let k = choose|k: int| 0 <= k < v@.len() && v@[k] == x;
                            assert(old_v[k] == x);
                        }
                    }
                    assert forall|x: usize| x < i + 1 implies (visited@[x as int]
                        <==> #[trigger] v@.contains(x)) by {
                        if x == i {
                            assert(v@[v@.len() - 1] == x);
                        } else if old_v.contains(x) {
                            let k = choose|k: int| 0 <= k < old_v.len() && old_v[k] == x;
                            assert(v@[k] == x);
                        } else if v@.contains(x) {
                            let k = choose|k: int| 0 <= k < v@.len() && v@[k] == x;
                            assert(old_v[k] == x);
                        }
                    }
                }
            }
            i = i + 1;
        }
        proof {
            assert forall|x: usize|
                #![trigger v@.contains(x)]
                v@.contains(x) <==> reachable(*self, set![start as int], x as int, false) by {
                if reachable(*self, set![start as int], x as int, false) {
                    assert(0 <= x < self.nodes@.len());
                    assert(visited@[x as int]);
                }
                if v@.contains(x) {
                    assert(visited@[x as int]);
                }
            }
        }
        v
    }

    pub fn set_node_type(&mut self, node: NodePointer, nt: NodeType)
        requires
            node.id < old(self).nodes@.len(),
        ensures
            final(self).nodes@.len() == old(self).nodes@.len(),
            final(self).index == old(self).index,
            final(self).nodes@[node.id as int].nt == nt,
            final(self).nodes@[node.id as int].transitions == old(self).nodes@[node.id
                as int].transitions,
            forall|i: int|
                0 <= i < old(self).nodes@.len() && i != node.id ==> #[trigger] final(self).nodes@[i]
                    == old(self).nodes@[i],
    {
        let mut n = self.nodes.remove(node.id);
        n.set_type(nt);
        self.nodes.insert(node.id, n);
    }
}

/// An automaton together with its start and end nodes.
#[derive(Debug)]
pub struct NfaModel {
    pub nfa: Nfa,
    pub start: NodePointer,
    pub end: NodePointer,
}

/// Marks the nodes reached from `start` by silent steps.
pub fn closure_marks(nfa: &Nfa, start: usize, markers: bool) -> (r: Vec<bool>)
    requires
        nfa.wf(),
        start < nfa.nodes@.len(),
    ensures
        r@.len() == nfa.nodes@.len(),
        forall|x: int|
            #![trigger reachable(*nfa, set![start as int], x, markers)]
            reachable(*nfa, set![start as int], x, markers) ==> 0 <= x < r@.len(),
        forall|x: int|
            #![trigger r@[x]]
            0 <= x < r@.len() ==> (r@[x] <==> reachable(*nfa, set![start as int], x, markers)),
{
    let n = nfa.nodes.len();
    let mut init: Vec<bool> = Vec::new();
    let mut i: usize = 0;
    while i < n
        invariant
            i <= n,
            n == nfa.nodes@.len(),
            init@.len() == i,
            forall|x: int| 0 <= x < i ==> init@[x] == (x == start),
        decreases n - i,
    {
        init.push(i == start);
        i = i + 1;
    }
    assert(marked_set(init@) =~= set![start as int]);
    closure_of_marks(nfa, init, markers)
}

/// The indices that `marks` marks.
pub open spec fn marked_set(marks: Seq<bool>) -> Set<int> {
    Set::new(|x: int| 0 <= x < marks.len() && marks[x])
}

/// Marks the nodes reached by silent steps from the nodes that `init` marks.
pub fn closure_of_marks(nfa: &Nfa, init: Vec<bool>, markers: bool) -> (r: Vec<bool>)
    requires
        nfa.wf(),
        init@.len() == nfa.nodes@.len(),
    ensures
        r@.len() == nfa.nodes@.len(),
        forall|x: int|
            #![trigger reachable(*nfa, marked_set(init@), x, markers)]
            reachable(*nfa, marked_set(init@), x, markers) ==> 0 <= x < r@.len(),
        forall|x: int|
            #![trigger r@[x]]
            0 <= x < r@.len() ==> (r@[x] <==> reachable(*nfa, marked_set(init@), x, markers)),
{
    let ghost init_set = marked_set(init@);
    let n = nfa.nodes.len();
    let mut marks = init;
    proof {
        assert forall|x: int| 0 <= x < n && #[trigger] marks@[x] implies reachable(
            *nfa,
            init_set,
            x,
            markers,
        ) by {
            assert(reach(*nfa, init_set, 0, markers).contains(x));
        }
    }
    let mut changed = true;
    while changed
        invariant
            marks@.len() == n,
            n == nfa.nodes@.len(),
            nfa.wf(),
            init_set.subset_of(marked_set(marks@)),
            forall|x: int|
                0 <= x < n && #[trigger] marks@[x] ==> reachable(*nfa, init_set, x, markers),
            !changed ==> forall|a: int, b: int|
                0 <= a < n && marks@[a] && silent_step(*nfa, a, b, markers) ==> 0 <= b < n
                    && marks@[b],
        decreases n - count_true(marks@), if changed {
            1int
        } else {
            0int
        },
    {
        proof {
            lemma_count_true_bound(marks@);
        }
        let ghost count0 = count_true(marks@);
        changed = false;
        let mut a: usize = 0;
        while a < n
            invariant
                marks@.len() == n,
                n == nfa.nodes@.len(),
                nfa.wf(),
                a <= n,
                init_set.subset_of(marked_set(marks@)),
                forall|x: int|
                    0 <= x < n && #[trigger] marks@[x] ==> reachable(*nfa, init_set, x, markers),
                changed ==> count_true(marks@) > count0,
                !changed ==> count_true(marks@) == count0,
                !changed ==> forall|p: int, b: int|
                    0 <= p < a && marks@[p] && silent_step(*nfa, p, b, markers) ==> 0 <= b < n
                        && marks@[b],
            decreases n - a,
        {
            if marks[a] {
                let node = &nfa.nodes[a];
                let mut j: usize = 0;
                while j < node.transitions.len()
                    invariant
                        marks@.len() == n,
                        n == nfa.nodes@.len(),
                        nfa.wf(),
                        a < n,
                        marks@[a as int],
                        *node == nfa.nodes@[a as int],
                        j <= node.transitions@.len(),
                        init_set.subset_of(marked_set(marks@)),
                        forall|x: int|
                            0 <= x < n && #[trigger] marks@[x] ==> reachable(
                                *nfa,
                                init_set,
                                x,
                                markers,
                            ),
                        changed ==> count_true(marks@) > count0,
                        !changed ==> count_true(marks@) == count0,
                        !changed ==> forall|p: int, b: int|
                            0 <= p < a && marks@[p] && silent_step(*nfa, p, b, markers) ==> 0 <= b
                                < n && marks@[b],
                        !changed ==> forall|k: int|
                            0 <= k < j && is_silent(
                                label(#[trigger] node.transitions@[k].kind),
                                markers,
                            ) ==> marks@[node.transitions@[k].dest.id as int],
                    decreases node.transitions@.len() - j,
                {
                    let t = &node.transitions[j];
                    let silent = match &t.kind {
                        TransitionType::Epsilon => true,
                        TransitionType::Open(_) => markers,
                        TransitionType::Close(_) => markers,
                        _ => false,
                    };
                    let d = t.dest.id;
                    assert(d < n);
                    if silent && !marks[d] {
                        proof {
                            let k = choose|k: nat| #[trigger]
                                reach(*nfa, init_set, k, markers).contains(a as int);
                            assert(silent_step(*nfa, a as int, d as int, markers));
                            assert(reach(*nfa, init_set, k + 1, markers).contains(d as int));
                            lemma_count_true_set(marks@, d as int);
                        }
                        let ghost before = marks@;
                        marks.set(d, true);
                        proof {
                            assert(marked_set(before).subset_of(marked_set(marks@)));
                        }
                        changed = true;
                    }
                    j = j + 1;
                }
                proof {
                    if !changed {
                        assert forall|p: int, b: int|
                            0 <= p < a + 1 && marks@[p] && silent_step(
                                *nfa,
                                p,
                                b,
                                markers,
                            ) implies 0 <= b < n && marks@[b] by {
                            if p == a {
                                let k = choose|k: int|
                                    0 <= k < nfa.nodes@[p].transitions@.len()
                                        && #[trigger] nfa.nodes@[p].transitions@[k].dest.id == b
                                        && is_silent(
                                        label(nfa.nodes@[p].transitions@[k].kind),
                                        markers,
                                    );
                                assert(node.transitions@[k] == nfa.nodes@[p].transitions@[k]);
                            }
                        }
                    }
                }
            }
            a = a + 1;
        }
        proof {
            lemma_count_true_bound(marks@);
        }
    }
    proof {
        let c = marked_set(marks@);
        assert forall|x: int|
            #![trigger reachable(*nfa, init_set, x, markers)]
            reachable(*nfa, init_set, x, markers) implies 0 <= x < n && marks@[x] by {
            let k = choose|k: nat| #[trigger] reach(*nfa, init_set, k, markers).contains(x);
            lemma_closed_holds_reach(*nfa, init_set, c, k, markers);
        }
    }
    marks
}

} // verus!
