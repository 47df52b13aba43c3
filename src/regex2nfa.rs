//! Compiles a pattern's syntax tree into an automaton, one fragment per
//! sub-expression, each with a single entry and a single exit node.
use vstd::prelude::*;
use crate::nfa::{label, Label, Nfa, NodePointer, NodeType, Transition};
use crate::regexparser::ast::{
    Basic, Char, CharSet, Concatenation, Elementary, Group, Item, Items, Negative, Plus, Positive,
    QuerySet, Range, Regex, Simple, Star, Union,
};

verus! {

/// Relies on `char::from_u32`: the character with the given code, which exists
/// exactly when the code is a Unicode scalar value (not a surrogate, at most
/// `0x10FFFF`).
pub assume_specification[ core::char::from_u32 ](i: u32) -> (r: Option<char>)
    ensures
        r matches Some(c) ==> c as int == i as int,
        r is Some <==> (i < 0xD800 || (0xDFFF < i && i <= 0x10FFFF)),
;

pub open spec fn char_value(c: Char) -> char {
    match c {
        Char::Char(x) => x,
        Char::Meta(x) => x,
    }
}

/// `n` is the code of a Unicode scalar value.
pub open spec fn is_scalar(n: int) -> bool {
    (0 <= n < 0xD800) || (0xDFFF < n && n <= 0x10FFFF)
}

/// The character whose code is `n`.
pub open spec fn char_of(n: int) -> char {
    choose|c: char| #[trigger] has_code(c, n)
}

pub open spec fn has_code(c: char, n: int) -> bool {
    c as int == n
}

/// The characters whose codes lie from `lo` up to (not including) `hi`, in
/// order of code, surrogates left out.
pub open spec fn range_upto(lo: int, hi: int) -> Seq<char>
    decreases hi - lo,
{
    if hi <= lo {
        Seq::empty()
    } else {
        range_upto(lo, hi - 1) + if is_scalar(hi - 1) {
            seq![char_of(hi - 1)]
        } else {
            Seq::empty()
        }
    }
}

/// The characters that a set item stands for, a range written out in full.
pub open spec fn item_chars(i: Item) -> Seq<char> {
    match i {
        Item::Char(x) => seq![char_value(*x)],
        Item::Range(r) => match *r {
            Range::O(a, b) => range_upto(char_value(*a) as int, char_value(*b) as int + 1),
        },
    }
}

/// The characters of a list of set items, in order, ranges written out.
pub open spec fn expand(s: Seq<Item>) -> Seq<char>
    decreases s.len(),
{
    if s.len() == 0 {
        Seq::empty()
    } else {
        expand(s.drop_last()) + item_chars(s.last())
    }
}

pub open spec fn items_seq(it: Items) -> Seq<Item>
    decreases it,
{
    match it {
        Items::Item(i) => seq![*i],
        Items::Items(i, rest) => seq![*i] + items_seq(*rest),
    }
}

/// Whether the set item `i` holds `c`: a range holds the characters whose code
/// lies between the codes of its two ends.
pub open spec fn item_covers(i: Item, c: char) -> bool {
    match i {
        Item::Char(x) => char_value(*x) == c,
        Item::Range(r) => match *r {
            Range::O(a, b) => char_value(*a) as int <= c as int && c as int <= char_value(*b) as int
                && is_scalar(c as int),
        },
    }
}

pub open spec fn items_cover(it: Items, c: char) -> bool {
    exists|k: int| 0 <= k < items_seq(it).len() && item_covers(#[trigger] items_seq(it)[k], c)
}

pub open spec fn is_range(i: Item) -> bool {
    i is Range
}

/// The characters of a list of items without ranges, in order.
pub open spec fn plain_chars(s: Seq<Item>) -> Seq<char>
    decreases s.len(),
{
    if s.len() == 0 {
        Seq::empty()
    } else {
        plain_chars(s.drop_last()).push(
            match s.last() {
                Item::Char(x) => char_value(*x),
                Item::Range(_) => ' ',
            },
        )
    }
}

pub open spec fn regex_has_query(r: Regex) -> bool
    decreases r,
{
    match r {
        Regex::Union(u) => match *u {
            Union::O(a, b) => regex_has_query(*a) || simple_has_query(*b),
        },
        Regex::Simple(s) => simple_has_query(*s),
    }
}

pub open spec fn simple_has_query(s: Simple) -> bool
    decreases s,
{
    match s {
        Simple::Concatenation(c) => match *c {
            Concatenation::O(a, b) => simple_has_query(*a) || basic_has_query(*b),
        },
        Simple::Basic(b) => basic_has_query(*b),
    }
}

pub open spec fn basic_has_query(b: Basic) -> bool
    decreases b,
{
    match b {
        Basic::Star(s) => match *s {
            Star::O(e) => elem_has_query(*e),
        },
        Basic::Plus(p) => match *p {
            Plus::O(e) => elem_has_query(*e),
        },
        Basic::Elementary(e) => elem_has_query(*e),
    }
}

pub open spec fn elem_has_query(e: Elementary) -> bool
    decreases e,
{
    match e {
        Elementary::Group(g) => match *g {
            Group::O(r) => regex_has_query(*r),
        },
        Elementary::CharSet(s) => *s is QuerySet,
        _ => false,
    }
}

/// The automaton has no query-set transition.
pub open spec fn no_query(nfa: Nfa) -> bool {
    forall|i: int, j: int|
        0 <= i < nfa.nodes@.len() && 0 <= j < nfa.nodes@[i].transitions@.len() ==> !(label(
            #[trigger] nfa.nodes@[i].transitions@[j].kind,
        ) is QuerySetRange)
}

/// `new` is `old` with a contiguous fragment added: the nodes of `old` are
/// unchanged, and the added nodes are ordinary ones whose transitions stay
/// among the added nodes.
pub open spec fn fragment(old: Nfa, new: Nfa) -> bool {
    &&& new.nodes@.len() >= old.nodes@.len()
    &&& forall|i: int| 0 <= i < old.nodes@.len() ==> #[trigger] new.nodes@[i] == old.nodes@[i]
    &&& forall|i: int, j: int|
        old.nodes@.len() <= i < new.nodes@.len() && 0 <= j < new.nodes@[i].transitions@.len()
            ==> old.nodes@.len() <= (#[trigger] new.nodes@[i].transitions@[j]).dest.id
            < new.nodes@.len()
    &&& forall|i: int|
        old.nodes@.len() <= i < new.nodes@.len() ==> (#[trigger] new.nodes@[i]).nt
            == NodeType::Normal
}

proof fn lemma_fragment_trans(a: Nfa, b: Nfa, c: Nfa)
    requires
        fragment(a, b),
        fragment(b, c),
    ensures
        fragment(a, c),
{
    assert forall|i: int, j: int|
        a.nodes@.len() <= i < c.nodes@.len() && 0 <= j < c.nodes@[i].transitions@.len() implies a.nodes@.len()
        <= (#[trigger] c.nodes@[i].transitions@[j]).dest.id < c.nodes@.len() by {
        if i < b.nodes@.len() {
            assert(c.nodes@[i] == b.nodes@[i]);
        }
    }
    assert forall|i: int| a.nodes@.len() <= i < c.nodes@.len() implies (#[trigger] c.nodes@[i]).nt
        == NodeType::Normal by {
        if i < b.nodes@.len() {
            assert(c.nodes@[i] == b.nodes@[i]);
        }
    }
}

proof fn lemma_fragment_added(base: Nfa, old: Nfa, new: Nfa, from: NodePointer, l: Label, to: NodePointer)
    requires
        fragment(base, old),
        base.nodes@.len() <= from.id < old.nodes@.len(),
        base.nodes@.len() <= to.id < old.nodes@.len(),
        Nfa::added(old, new, from, l, to),
    ensures
        fragment(base, new),
{
    assert forall|i: int| 0 <= i < base.nodes@.len() implies #[trigger] new.nodes@[i] == base.nodes@[i] by {
        assert(new.nodes@[i] == old.nodes@[i]);
    }
    assert forall|i: int, j: int|
        base.nodes@.len() <= i < new.nodes@.len() && 0 <= j < new.nodes@[i].transitions@.len() implies base.nodes@.len()
        <= (#[trigger] new.nodes@[i].transitions@[j]).dest.id < new.nodes@.len() by {
        if i == from.id && j < old.nodes@[i].transitions@.len() {
            assert(new.nodes@[i].transitions@[j] == new.nodes@[i].transitions@.drop_last()[j]);
        } else if i != from.id {
            assert(new.nodes@[i] == old.nodes@[i]);
        }
    }
    assert forall|i: int| base.nodes@.len() <= i < new.nodes@.len() implies (#[trigger] new.nodes@[i]).nt
        == NodeType::Normal by {
        if i != from.id {
            assert(new.nodes@[i] == old.nodes@[i]);
        }
    }
}

/// An automaton seen as plain values: for each node, its transitions as
/// (label, destination) pairs, and the number of capture groups so far.
pub open spec fn nfa_view(n: Nfa) -> (Seq<Seq<(Label, usize)>>, usize) {
    (
        Seq::new(
            n.nodes@.len(),
            |i: int| n.nodes@[i].transitions@.map_values(|t: Transition| (label(t.kind), t.dest.id)),
        ),
        n.index,
    )
}

/// `n` is the automaton compiled from the pattern `r`, with its entry and exit.
pub open spec fn compiled_from(r: Regex, n: Nfa, s: NodePointer, e: NodePointer) -> bool {
    &&& n.wf()
    &&& nfa_view(n) == c_regex(r, (Seq::empty(), 0usize)).0
    &&& s.id == c_regex(r, (Seq::empty(), 0usize)).1
    &&& e.id == c_regex(r, (Seq::empty(), 0usize)).2
}

/// The graph with a node added, and that node.
pub open spec fn g_node(g: (Seq<Seq<(Label, usize)>>, usize)) -> ((Seq<Seq<(Label, usize)>>, usize), usize) {
    ((g.0.push(Seq::empty()), g.1), g.0.len() as usize)
}

/// The graph with a transition labelled `l` from `from` to `to` added.
pub open spec fn g_edge(g: (Seq<Seq<(Label, usize)>>, usize), from: usize, l: Label, to: usize) -> (
    Seq<Seq<(Label, usize)>>,
    usize,
) {
    (g.0.update(from as int, g.0[from as int].push((l, to))), g.1)
}

/// Two fresh nodes joined by a transition labelled `l`.
pub open spec fn c_leaf(g: (Seq<Seq<(Label, usize)>>, usize), l: Label) -> ((Seq<Seq<(Label, usize)>>, usize), usize, usize) {
    let (g1, s) = g_node(g);
    let (g2, d) = g_node(g1);
    (g_edge(g2, s, l, d), s, d)
}

/// Two fresh nodes that nothing joins.
pub open spec fn c_none(g: (Seq<Seq<(Label, usize)>>, usize)) -> ((Seq<Seq<(Label, usize)>>, usize), usize, usize) {
    let (g1, s) = g_node(g);
    let (g2, d) = g_node(g1);
    (g2, s, d)
}

/// What compiling the pattern `r` adds to the graph `g`: the new graph, and
/// the entry and exit of the pattern's fragment.
pub open spec fn c_regex(r: Regex, g: (Seq<Seq<(Label, usize)>>, usize)) -> ((Seq<Seq<(Label, usize)>>, usize), usize, usize)
    decreases r,
{
    match r {
        Regex::Union(u) => c_union(*u, g),
        Regex::Simple(x) => c_simple(*x, g),
    }
}

/// A union: a fresh entry with epsilon transitions into both alternatives, and
/// a fresh exit that both reach by epsilon transitions.
pub open spec fn c_union(u: Union, g: (Seq<Seq<(Label, usize)>>, usize)) -> ((Seq<Seq<(Label, usize)>>, usize), usize, usize)
    decreases u,
{
    match u {
        Union::O(x, y) => {
            let (g1, a0, a1) = c_regex(*x, g);
            let (g2, b0, b1) = c_simple(*y, g1);
            let (g3, s) = g_node(g2);
            let (g4, d) = g_node(g3);
            let g5 = g_edge(g_edge(g_edge(g_edge(g4, s, Label::Epsilon, a0), s, Label::Epsilon, b0), a1, Label::Epsilon, d), b1, Label::Epsilon, d);
            (g5, s, d)
        },
    }
}

pub open spec fn c_simple(x: Simple, g: (Seq<Seq<(Label, usize)>>, usize)) -> ((Seq<Seq<(Label, usize)>>, usize), usize, usize)
    decreases x,
{
    match x {
        Simple::Concatenation(c) => c_concat(*c, g),
        Simple::Basic(b) => c_basic(*b, g),
    }
}

/// A concatenation: an epsilon transition from the exit of the first part to
/// the entry of the second.
pub open spec fn c_concat(c: Concatenation, g: (Seq<Seq<(Label, usize)>>, usize)) -> ((Seq<Seq<(Label, usize)>>, usize), usize, usize)
    decreases c,
{
    match c {
        Concatenation::O(x, y) => {
            let (g1, ls, ld) = c_simple(*x, g);
            let (g2, rs, rd) = c_basic(*y, g1);
            (g_edge(g2, ld, Label::Epsilon, rs), ls, rd)
        },
    }
}

pub open spec fn c_basic(b: Basic, g: (Seq<Seq<(Label, usize)>>, usize)) -> ((Seq<Seq<(Label, usize)>>, usize), usize, usize)
    decreases b,
{
    match b {
        Basic::Star(x) => match *x {
            Star::O(e) => {
                let (g1, s, d) = c_elem(*e, g);
                (g_edge(g_edge(g1, d, Label::Epsilon, s), s, Label::Epsilon, d), s, d)
            },
        },
        Basic::Plus(x) => match *x {
            Plus::O(e) => {
                let (g1, s, d) = c_elem(*e, g);
                (g_edge(g1, d, Label::Epsilon, s), s, d)
            },
        },
        Basic::Elementary(e) => c_elem(*e, g),
    }
}

pub open spec fn c_elem(e: Elementary, g: (Seq<Seq<(Label, usize)>>, usize)) -> ((Seq<Seq<(Label, usize)>>, usize), usize, usize)
    decreases e,
{
    match e {
        Elementary::Group(x) => c_group(*x, g),
        Elementary::Any(_) => c_leaf(g, Label::Any),
        Elementary::Char(c) => c_leaf(g, Label::Alpha(char_value(*c))),
        Elementary::CharSet(x) => match *x {
            CharSet::Positive(p) => match *p {
                Positive::O(it) => c_leaf(g, Label::Range(expand(items_seq(*it)))),
            },
            CharSet::Negative(p) => match *p {
                Negative::O(it) => c_leaf(g, Label::NegativeRange(expand(items_seq(*it)))),
            },
            CharSet::QuerySet(p) => match *p {
                QuerySet::O(it) => c_leaf(g, Label::QuerySetRange(expand(items_seq(*it)))),
            },
        },
        Elementary::Eos(_) => c_none(g),
        Elementary::Nothing => c_none(g),
    }
}

/// A group: a fresh entry and exit around the inner fragment, joined to it by
/// `Open(i)` and `Close(i)`, where `i` is the group counter after increment.
pub open spec fn c_group(x: Group, g: (Seq<Seq<(Label, usize)>>, usize)) -> ((Seq<Seq<(Label, usize)>>, usize), usize, usize)
    decreases x,
{
    match x {
        Group::O(r) => {
            let (g1, s) = g_node(g);
            let (g2, d) = g_node(g1);
            let (g3, a, b) = c_regex(*r, g2);
            let i = (g3.1 + 1) as usize;
            let g4 = (g3.0, i);
            (g_edge(g_edge(g4, s, Label::Open(i), a), b, Label::Close(i), d), s, d)
        },
    }
}

/// `new` and `res` are what compiling adds to `old`, as `c` gives it.
pub open spec fn compiles_to(
    old: Nfa,
    new: Nfa,
    res: (NodePointer, NodePointer),
    c: ((Seq<Seq<(Label, usize)>>, usize), usize, usize),
) -> bool {
    nfa_view(new) == c.0 && res.0.id == c.1 && res.1.id == c.2
}

proof fn lemma_view_node(old: Nfa, new: Nfa)
    requires
        new.nodes@.len() == old.nodes@.len() + 1,
        new.nodes@.len() <= usize::MAX,
        new.nodes@.drop_last() == old.nodes@,
        new.nodes@.last().transitions@.len() == 0,
        new.index == old.index,
    ensures
        nfa_view(new) == g_node(nfa_view(old)).0,
        g_node(nfa_view(old)).1 == old.nodes@.len(),
{
    let a = nfa_view(new).0;
    let b = g_node(nfa_view(old)).0.0;
    assert forall|i: int| 0 <= i < a.len() implies a[i] == b[i] by {
        if i < old.nodes@.len() {
            assert(new.nodes@[i] == old.nodes@[i]);
        } else {
            assert(a[i] =~= Seq::<(Label, usize)>::empty());
        }
    }
    assert(a =~= b);
}

proof fn lemma_view_edge(old: Nfa, new: Nfa, from: NodePointer, l: Label, to: NodePointer)
    requires
        from.id < old.nodes@.len(),
        Nfa::added(old, new, from, l, to),
    ensures
        nfa_view(new) == g_edge(nfa_view(old), from.id, l, to.id),
{
    let a = nfa_view(new).0;
    let b = g_edge(nfa_view(old), from.id, l, to.id).0;
    assert forall|i: int| 0 <= i < a.len() implies a[i] == b[i] by {
        if i == from.id {
            let nt = new.nodes@[i].transitions@;
            let ot = old.nodes@[i].transitions@;
            assert(nt.drop_last() == ot);
            assert forall|j: int| 0 <= j < nt.len() implies #[trigger] a[i][j] == b[i][j] by {
                if j < ot.len() {
                    assert(nt[j] == nt.drop_last()[j]);
                }
            }
            assert(a[i] =~= b[i]);
        } else {
            assert(new.nodes@[i] == old.nodes@[i]);
        }
    }
    assert(a =~= b);
}

/// `new` extends `old` by the fragment `(s, d)` of a sub-expression: the
/// fragment is contiguous and closed, both ends are among its nodes, every
/// transition leads to a node, at most one capture group is added per two
/// nodes, and a fragment without query sets adds no query-set transition.
pub open spec fn compiled(old: Nfa, new: Nfa, s: NodePointer, d: NodePointer, q: bool) -> bool {
    &&& fragment(old, new)
    &&& old.nodes@.len() <= s.id
    &&& old.nodes@.len() <= d.id
    &&& new.nodes@.len() >= old.nodes@.len()
    &&& new.index >= old.index
    &&& new.nodes@.len() - old.nodes@.len() >= 2 * (new.index - old.index)
    &&& s.id < new.nodes@.len()
    &&& d.id < new.nodes@.len()
    &&& new.wf()
    &&& (no_query(old) && !q ==> no_query(new))
}

proof fn lemma_added(old: Nfa, new: Nfa, from: NodePointer, l: Label, to: NodePointer)
    requires
        old.wf(),
        to.id < old.nodes@.len(),
        from.id < old.nodes@.len(),
        Nfa::added(old, new, from, l, to),
    ensures
        new.wf(),
        no_query(old) && !(l is QuerySetRange) ==> no_query(new),
{
    assert forall|i: int, j: int|
        0 <= i < new.nodes@.len() && 0 <= j < new.nodes@[i].transitions@.len() implies (
    #[trigger] new.nodes@[i].transitions@[j]).dest.id < new.nodes@.len() by {
        if i == from.id && j < old.nodes@[i].transitions@.len() {
            assert(new.nodes@[i].transitions@[j] == new.nodes@[i].transitions@.drop_last()[j]);
        }
    }
    if no_query(old) && !(l is QuerySetRange) {
        assert forall|i: int, j: int|
            0 <= i < new.nodes@.len() && 0 <= j < new.nodes@[i].transitions@.len() implies !(label(
            #[trigger] new.nodes@[i].transitions@[j].kind,
        ) is QuerySetRange) by {
            if i == from.id && j < old.nodes@[i].transitions@.len() {
                assert(new.nodes@[i].transitions@[j] == new.nodes@[i].transitions@.drop_last()[j]);
            }
        }
    }
}

proof fn lemma_new_node(old: Nfa, new: Nfa)
    requires
        old.wf(),
        new.nodes@.len() == old.nodes@.len() + 1,
        new.nodes@.drop_last() == old.nodes@,
        new.nodes@.last().transitions@.len() == 0,
    ensures
        new.wf(),
        no_query(old) ==> no_query(new),
{
    assert forall|i: int, j: int|
        0 <= i < new.nodes@.len() && 0 <= j < new.nodes@[i].transitions@.len() implies (
    #[trigger] new.nodes@[i].transitions@[j]).dest.id < new.nodes@.len() by {
        assert(new.nodes@[i] == old.nodes@[i]);
    }
    if no_query(old) {
        assert forall|i: int, j: int|
            0 <= i < new.nodes@.len() && 0 <= j < new.nodes@[i].transitions@.len() implies !(label(
            #[trigger] new.nodes@[i].transitions@[j].kind,
        ) is QuerySetRange) by {
            assert(new.nodes@[i] == old.nodes@[i]);
        }
    }
}

fn fresh(nfa: &mut Nfa, base: Ghost<Nfa>) -> (r: NodePointer)
    requires
        old(nfa).wf(),
        fragment(base@, *old(nfa)),
    ensures
        final(nfa).wf(),
        fragment(base@, *final(nfa)),
        nfa_view(*final(nfa)) == g_node(nfa_view(*old(nfa))).0,
        r.id == g_node(nfa_view(*old(nfa))).1,
        final(nfa).nodes@.len() == old(nfa).nodes@.len() + 1,
        final(nfa).index == old(nfa).index,
        r.id == old(nfa).nodes@.len(),
        no_query(*old(nfa)) ==> no_query(*final(nfa)),
{
    let r = nfa.new_node();
    let _n = nfa.nodes.len();
    proof {
        lemma_new_node(*old(nfa), *nfa);
        lemma_view_node(*old(nfa), *nfa);
        let b = base@;
        assert forall|i: int| 0 <= i < b.nodes@.len() implies #[trigger] nfa.nodes@[i] == b.nodes@[i] by {
            assert(nfa.nodes@[i] == old(nfa).nodes@[i]);
        }
        assert forall|i: int, j: int|
            b.nodes@.len() <= i < nfa.nodes@.len() && 0 <= j < nfa.nodes@[i].transitions@.len() implies b.nodes@.len()
            <= (#[trigger] nfa.nodes@[i].transitions@[j]).dest.id < nfa.nodes@.len() by {
            assert(nfa.nodes@[i] == old(nfa).nodes@[i]);
        }
        assert forall|i: int| b.nodes@.len() <= i < nfa.nodes@.len() implies (#[trigger] nfa.nodes@[i]).nt
            == NodeType::Normal by {
            if i < old(nfa).nodes@.len() {
                assert(nfa.nodes@[i] == old(nfa).nodes@[i]);
            }
        }
    }
    r
}

fn epsilon(nfa: &mut Nfa, from: &NodePointer, to: &NodePointer, base: Ghost<Nfa>)
    requires
        old(nfa).wf(),
        fragment(base@, *old(nfa)),
        base@.nodes@.len() <= from.id < old(nfa).nodes@.len(),
        base@.nodes@.len() <= to.id < old(nfa).nodes@.len(),
    ensures
        final(nfa).wf(),
        fragment(base@, *final(nfa)),
        nfa_view(*final(nfa)) == g_edge(nfa_view(*old(nfa)), from.id, Label::Epsilon, to.id),
        final(nfa).nodes@.len() == old(nfa).nodes@.len(),
        final(nfa).index == old(nfa).index,
        no_query(*old(nfa)) ==> no_query(*final(nfa)),
{
    let ghost before = *nfa;
    let r = nfa.add_transition_epsilon(from, to);
    proof {
        lemma_added(before, *nfa, *from, Label::Epsilon, *to);
        lemma_fragment_added(base@, before, *nfa, *from, Label::Epsilon, *to);
        lemma_view_edge(before, *nfa, *from, Label::Epsilon, *to);
    }
}

/// Compiles `r` into a new automaton, returning it with the entry and exit of
/// the pattern's fragment. Every node is an ordinary one: acceptance is decided
/// by the exit node, which the subset construction marks.
pub fn build_nfa(r: &Regex) -> (res: (Nfa, NodePointer, NodePointer))
    ensures
        nfa_view(res.0) == c_regex(*r, (Seq::empty(), 0usize)).0,
        res.1.id == c_regex(*r, (Seq::empty(), 0usize)).1,
        res.2.id == c_regex(*r, (Seq::empty(), 0usize)).2,
        res.0.wf(),
        forall|i: int| 0 <= i < res.0.nodes@.len() ==> (#[trigger] res.0.nodes@[i]).nt
            == NodeType::Normal,
        res.1.id < res.0.nodes@.len(),
        res.2.id < res.0.nodes@.len(),
        !regex_has_query(*r) ==> no_query(res.0),
        2 * res.0.index <= res.0.nodes@.len(),
{
    let mut nfa = Nfa::new(Vec::new());
    assert(nfa_view(nfa).0 =~= Seq::<Seq<(Label, usize)>>::empty());
    let (s, d) = do_regex(r, &mut nfa);
    (nfa, s, d)
}

fn do_regex(r: &Regex, nfa: &mut Nfa) -> (res: (NodePointer, NodePointer))
    requires
        old(nfa).wf(),
        2 * old(nfa).index <= old(nfa).nodes@.len(),
    ensures
        compiles_to(*old(nfa), *final(nfa), res, c_regex(*r, nfa_view(*old(nfa)))),
        compiled(*old(nfa), *final(nfa), res.0, res.1, regex_has_query(*r)),
    decreases r,
{
    match r {
        Regex::Union(r) => do_union(r, nfa),
        Regex::Simple(r) => do_simple(r, nfa),
    }
}

fn do_union(r: &Union, nfa: &mut Nfa) -> (res: (NodePointer, NodePointer))
    requires
        old(nfa).wf(),
        2 * old(nfa).index <= old(nfa).nodes@.len(),
    ensures
        compiles_to(*old(nfa), *final(nfa), res, c_union(*r, nfa_view(*old(nfa)))),
        compiled(
            *old(nfa),
            *final(nfa),
            res.0,
            res.1,
            regex_has_query(Regex::Union(Box::new(*r))),
        ),
    decreases r,
{
    let ghost base = *nfa;
    let Union::O(x, y) = r;
    let a = do_regex(x, nfa);
    let ghost n1 = *nfa;
    let b = do_simple(y, nfa);
    proof {
        lemma_fragment_trans(base, n1, *nfa);
    }
    let s = fresh(nfa, Ghost(base));
    let d = fresh(nfa, Ghost(base));
    epsilon(nfa, &s, &a.0, Ghost(base));
    epsilon(nfa, &s, &b.0, Ghost(base));
    epsilon(nfa, &a.1, &d, Ghost(base));
    epsilon(nfa, &b.1, &d, Ghost(base));
    (s, d)
}

fn do_simple(r: &Simple, nfa: &mut Nfa) -> (res: (NodePointer, NodePointer))
    requires
        old(nfa).wf(),
        2 * old(nfa).index <= old(nfa).nodes@.len(),
    ensures
        compiles_to(*old(nfa), *final(nfa), res, c_simple(*r, nfa_view(*old(nfa)))),
        compiled(*old(nfa), *final(nfa), res.0, res.1, simple_has_query(*r)),
    decreases r,
{
    match r {
        Simple::Concatenation(r) => do_concat(r, nfa),
        Simple::Basic(r) => do_basic(r, nfa),
    }
}

fn do_basic(r: &Basic, nfa: &mut Nfa) -> (res: (NodePointer, NodePointer))
    requires
        old(nfa).wf(),
        2 * old(nfa).index <= old(nfa).nodes@.len(),
    ensures
        compiles_to(*old(nfa), *final(nfa), res, c_basic(*r, nfa_view(*old(nfa)))),
        compiled(*old(nfa), *final(nfa), res.0, res.1, basic_has_query(*r)),
    decreases r,
{
    match r {
        Basic::Star(r) => do_star(r, nfa),
        Basic::Plus(r) => do_plus(r, nfa),
        Basic::Elementary(r) => do_elem(r, nfa),
    }
}

fn do_concat(r: &Concatenation, nfa: &mut Nfa) -> (res: (NodePointer, NodePointer))
    requires
        old(nfa).wf(),
        2 * old(nfa).index <= old(nfa).nodes@.len(),
    ensures
        compiles_to(*old(nfa), *final(nfa), res, c_concat(*r, nfa_view(*old(nfa)))),
        compiled(
            *old(nfa),
            *final(nfa),
            res.0,
            res.1,
            simple_has_query(Simple::Concatenation(Box::new(*r))),
        ),
    decreases r,
{
    let ghost base = *nfa;
    let Concatenation::O(x, y) = r;
    let (ls, ld) = do_simple(x, nfa);
    let ghost n1 = *nfa;
    let (rs, rd) = do_basic(y, nfa);
    proof {
        lemma_fragment_trans(base, n1, *nfa);
    }
    epsilon(nfa, &ld, &rs, Ghost(base));
    (ls, rd)
}

fn do_elem(r: &Elementary, nfa: &mut Nfa) -> (res: (NodePointer, NodePointer))
    requires
        old(nfa).wf(),
        2 * old(nfa).index <= old(nfa).nodes@.len(),
    ensures
        compiles_to(*old(nfa), *final(nfa), res, c_elem(*r, nfa_view(*old(nfa)))),
        compiled(*old(nfa), *final(nfa), res.0, res.1, elem_has_query(*r)),
    decreases r,
{
    let ghost base = *nfa;
    match r {
        Elementary::Group(r) => do_group(r, nfa),
        Elementary::Any(_) => {
            let src = fresh(nfa, Ghost(base));
            let dst = fresh(nfa, Ghost(base));
            let ghost before = *nfa;
            let _ = nfa.add_transition_any(&src, &dst);
            proof {
                lemma_added(before, *nfa, src, Label::Any, dst);
                lemma_fragment_added(base, before, *nfa, src, Label::Any, dst);
                lemma_view_edge(before, *nfa, src, Label::Any, dst);
            }
            (src, dst)
        },
        Elementary::Char(r) => do_char(r, nfa),
        Elementary::CharSet(r) => do_set(r, nfa),
        // An end-of-text anchor has no transition kind of its own: its
        // fragment, like that of the empty pattern, joins nothing and so
        // matches nothing.
        Elementary::Eos(_) | Elementary::Nothing => {
            let src = fresh(nfa, Ghost(base));
            let dst = fresh(nfa, Ghost(base));
            (src, dst)
        },
    }
}

fn do_star(r: &Star, nfa: &mut Nfa) -> (res: (NodePointer, NodePointer))
    requires
        old(nfa).wf(),
        2 * old(nfa).index <= old(nfa).nodes@.len(),
    ensures
        compiles_to(*old(nfa), *final(nfa), res, c_basic(Basic::Star(Box::new(*r)), nfa_view(*old(nfa)))),
        compiled(*old(nfa), *final(nfa), res.0, res.1, basic_has_query(Basic::Star(Box::new(*r)))),
    decreases r,
{
    let ghost base = *nfa;
    let Star::O(r) = r;
    let (src, dst) = do_elem(r, nfa);
    epsilon(nfa, &dst, &src, Ghost(base));
    epsilon(nfa, &src, &dst, Ghost(base));
    (src, dst)
}

fn do_plus(r: &Plus, nfa: &mut Nfa) -> (res: (NodePointer, NodePointer))
    requires
        old(nfa).wf(),
        2 * old(nfa).index <= old(nfa).nodes@.len(),
    ensures
        compiles_to(*old(nfa), *final(nfa), res, c_basic(Basic::Plus(Box::new(*r)), nfa_view(*old(nfa)))),
        compiled(*old(nfa), *final(nfa), res.0, res.1, basic_has_query(Basic::Plus(Box::new(*r)))),
    decreases r,
{
    let ghost base = *nfa;
    let Plus::O(r) = r;
    let (src, dst) = do_elem(r, nfa);
    epsilon(nfa, &dst, &src, Ghost(base));
    (src, dst)
}

fn do_char(r: &Char, nfa: &mut Nfa) -> (res: (NodePointer, NodePointer))
    requires
        old(nfa).wf(),
        2 * old(nfa).index <= old(nfa).nodes@.len(),
    ensures
        compiles_to(*old(nfa), *final(nfa), res, c_elem(Elementary::Char(Box::new(*r)), nfa_view(*old(nfa)))),
        compiled(*old(nfa), *final(nfa), res.0, res.1, false),
{
    let ghost base = *nfa;
    let src = fresh(nfa, Ghost(base));
    let dst = fresh(nfa, Ghost(base));
    let c = get_char(r);
    let ghost before = *nfa;
    let _ = nfa.add_transition_alpha(&src, &dst, c);
    proof {
        lemma_added(before, *nfa, src, Label::Alpha(c), dst);
        lemma_fragment_added(base, before, *nfa, src, Label::Alpha(c), dst);
        lemma_view_edge(before, *nfa, src, Label::Alpha(c), dst);
    }
    (src, dst)
}

fn do_set(r: &CharSet, nfa: &mut Nfa) -> (res: (NodePointer, NodePointer))
    requires
        old(nfa).wf(),
        2 * old(nfa).index <= old(nfa).nodes@.len(),
    ensures
        compiles_to(*old(nfa), *final(nfa), res, c_elem(Elementary::CharSet(Box::new(*r)), nfa_view(*old(nfa)))),
        compiled(*old(nfa), *final(nfa), res.0, res.1, *r is QuerySet),
{
    match r {
        CharSet::Positive(r) => do_positive(r, nfa),
        CharSet::Negative(r) => do_negative(r, nfa),
        CharSet::QuerySet(r) => do_queryset(r, nfa),
    }
}

fn do_queryset(r: &QuerySet, nfa: &mut Nfa) -> (res: (NodePointer, NodePointer))
    requires
        old(nfa).wf(),
        2 * old(nfa).index <= old(nfa).nodes@.len(),
    ensures
        compiles_to(*old(nfa), *final(nfa), res, c_elem(Elementary::CharSet(Box::new(CharSet::QuerySet(Box::new(*r)))), nfa_view(*old(nfa)))),
        compiled(*old(nfa), *final(nfa), res.0, res.1, true),
{
    let ghost base = *nfa;
    let QuerySet::O(r) = r;
    let src = fresh(nfa, Ghost(base));
    let dst = fresh(nfa, Ghost(base));
    let s = get_string(r);
    let ghost before = *nfa;
    let ghost l = Label::QuerySetRange(s@);
    let _ = nfa.add_transition_queryset(&src, &dst, s);
    proof {
        lemma_added(before, *nfa, src, l, dst);
        lemma_fragment_added(base, before, *nfa, src, l, dst);
        lemma_view_edge(before, *nfa, src, l, dst);
    }
    (src, dst)
}

fn do_negative(r: &Negative, nfa: &mut Nfa) -> (res: (NodePointer, NodePointer))
    requires
        old(nfa).wf(),
        2 * old(nfa).index <= old(nfa).nodes@.len(),
    ensures
        compiles_to(*old(nfa), *final(nfa), res, c_elem(Elementary::CharSet(Box::new(CharSet::Negative(Box::new(*r)))), nfa_view(*old(nfa)))),
        compiled(*old(nfa), *final(nfa), res.0, res.1, false),
{
    let ghost base = *nfa;
    let Negative::O(r) = r;
    let src = fresh(nfa, Ghost(base));
    let dst = fresh(nfa, Ghost(base));
    let s = get_string(r);
    let ghost before = *nfa;
    let ghost l = Label::NegativeRange(s@);
    let _ = nfa.add_transition_negativerange(&src, &dst, s);
    proof {
        lemma_added(before, *nfa, src, l, dst);
        lemma_fragment_added(base, before, *nfa, src, l, dst);
        lemma_view_edge(before, *nfa, src, l, dst);
    }
    (src, dst)
}

fn do_positive(r: &Positive, nfa: &mut Nfa) -> (res: (NodePointer, NodePointer))
    requires
        old(nfa).wf(),
        2 * old(nfa).index <= old(nfa).nodes@.len(),
    ensures
        compiles_to(*old(nfa), *final(nfa), res, c_elem(Elementary::CharSet(Box::new(CharSet::Positive(Box::new(*r)))), nfa_view(*old(nfa)))),
        compiled(*old(nfa), *final(nfa), res.0, res.1, false),
{
    let ghost base = *nfa;
    let Positive::O(r) = r;
    let src = fresh(nfa, Ghost(base));
    let dst = fresh(nfa, Ghost(base));
    let s = get_string(r);
    let ghost before = *nfa;
    let ghost l = Label::Range(s@);
    let _ = nfa.add_transition_range(&src, &dst, s);
    proof {
        lemma_added(before, *nfa, src, l, dst);
        lemma_fragment_added(base, before, *nfa, src, l, dst);
        lemma_view_edge(before, *nfa, src, l, dst);
    }
    (src, dst)
}

/// The characters of a set's items, each range written out in full.
pub fn get_string(r: &Items) -> (s: String)
    ensures
        s@ == expand(items_seq(*r)),
        forall|c: char| #![trigger s@.contains(c)] s@.contains(c) <==> items_cover(*r, c),
        (forall|k: int| 0 <= k < items_seq(*r).len() ==> !is_range(#[trigger] items_seq(*r)[k]))
            ==> s@ == plain_chars(items_seq(*r)),
{
    let items = get_items(r);
    let ghost its = items_seq(*r);
    let mut s = String::new();
    let mut i: usize = 0;
    while i < items.len()
        invariant
            i <= items@.len(),
            items@.len() == its.len(),
            forall|k: int| 0 <= k < its.len() ==> *(#[trigger] items@[k]) == its[k],
            forall|c: char|
                #![trigger s@.contains(c)]
                s@.contains(c) <==> exists|k: int|
                    0 <= k < i && item_covers(#[trigger] its[k], c),
            (forall|k: int| 0 <= k < i ==> !is_range(#[trigger] its[k])) ==> s@ == plain_chars(
                its.subrange(0, i as int),
            ),
            s@ == expand(its.subrange(0, i as int)),
        decreases items@.len() - i,
    {
        let ghost s0 = s@;
        let ghost k0 = i as int;
        assert(its.subrange(0, i + 1).drop_last() =~= its.subrange(0, i as int));
        match &**items[i] {
            Item::Range(r) => {
                let Range::O(a, b) = &**r;
                let ca = get_char(a);
                let cb = get_char(b);
                let lo = ca as u32;
                let hi = cb as u32;
                assert(lo == ca as int && hi == cb as int);
                let mut code: u32 = lo;
                while code <= hi
                    invariant
                        lo <= code,
                        hi == cb as int,
                        lo == ca as int,
                        code <= hi + 1 || code == lo,
                        forall|c: char|
                            #![trigger s@.contains(c)]
                            s@.contains(c) <==> (s0.contains(c) || (lo <= c as int && (c as int) < code
                                && is_scalar(c as int))),
                        s@ == s0 + range_upto(lo as int, code as int),
                    decreases hi + 1 - code,
                {
                    let ghost s1 = s@;
                    match core::char::from_u32(code) {
                        Some(c) => {
                            s.push(c);
                            proof {
                                assert(has_code(c, code as int));
                                assert(has_code(char_of(code as int), code as int));
                                assert(char_of(code as int) == c);
                                assert(s@ =~= s0 + range_upto(lo as int, code + 1));
                                assert forall|x: char| #[trigger] s@.contains(x) <==> (s0.contains(x)
                                    || (lo <= x as int && (x as int) < code + 1
                                    && is_scalar(x as int))) by {
                                    if x == c {
                                        assert(s@[s@.len() - 1] == x);
                                    }
                                    if s1.contains(x) {
                                        let k = choose|k: int| 0 <= k < s1.len() && s1[k] == x;
                                        assert(s@[k] == x);
                                    }
                                    if s@.contains(x) && x != c {
                                        let k = choose|k: int| 0 <= k < s@.len() && s@[k] == x;
                                        assert(s1[k] == x);
                                    }
                                }
                            }
                        },
                        None => {
                            proof {
                                assert forall|x: char| #[trigger] s@.contains(x) <==> (s0.contains(x)
                                    || (lo <= x as int && (x as int) < code + 1
                                    && is_scalar(x as int))) by {
                                }
                            }
                        },
                    }
                    proof {
                        if !is_scalar(code as int) {
                            assert(s@ =~= s0 + range_upto(lo as int, code + 1));
                        }
                    }
                    code = code + 1;
                }
                proof {
                    assert forall|c: char| #[trigger] s@.contains(c) <==> exists|k: int|
                        0 <= k < i + 1 && item_covers(#[trigger] its[k], c) by {
                        if lo <= c as int && c as int <= hi && is_scalar(c as int) {
                            assert(item_covers(its[k0], c));
                        }
                        if exists|k: int| 0 <= k < i + 1 && item_covers(#[trigger] its[k], c) {
                            let k = choose|k: int| 0 <= k < i + 1 && item_covers(#[trigger] its[k], c);
                            if k < i {
                                assert(s0.contains(c));
                            }
                        }
                    }
                    assert(is_range(its[k0]));
                }
            },
            Item::Char(c) => {
                let ch = get_char(c);
                s.push(ch);
                proof {
                    assert forall|x: char| #[trigger] s@.contains(x) <==> exists|k: int|
                        0 <= k < i + 1 && item_covers(#[trigger] its[k], x) by {
                        if x == ch {
                            assert(s@[s@.len() - 1] == x);
                            assert(item_covers(its[k0], x));
                        }
                        if s0.contains(x) {
                            let k = choose|k: int| 0 <= k < s0.len() && s0[k] == x;
                            assert(s@[k] == x);
                        }
                        if s@.contains(x) && x != ch {
                            let k = choose|k: int| 0 <= k < s@.len() && s@[k] == x;
                            assert(s0[k] == x);
                        }
                        if exists|k: int| 0 <= k < i + 1 && item_covers(#[trigger] its[k], x) {
                            let k = choose|k: int| 0 <= k < i + 1 && item_covers(#[trigger] its[k], x);
                            if k < i {
                                assert(s0.contains(x));
                            }
                        }
                    }
                }
            },
        }
        i = i + 1;
    }
    assert(its.subrange(0, its.len() as int) =~= its);
    s
}

pub fn get_char(r: &Char) -> (c: char)
    ensures
        c == char_value(*r),
{
    match r {
        Char::Char(c) => *c,
        Char::Meta(c) => *c,
    }
}

/// The items of a set, in order.
pub fn get_items(r: &Items) -> (v: Vec<&Box<Item>>)
    ensures
        v@.len() == items_seq(*r).len(),
        forall|k: int| 0 <= k < v@.len() ==> *(#[trigger] v@[k]) == items_seq(*r)[k],
{
    let mut cur = r;
    let mut v: Vec<&Box<Item>> = Vec::new();
    loop
        invariant
            items_seq(*r) == v@.map_values(|b: &Box<Item>| **b) + items_seq(*cur),
        decreases *cur,
    {
        match cur {
            Items::Item(i) => {
                v.push(i);
                assert(items_seq(*r) =~= v@.map_values(|b: &Box<Item>| **b));
                return v;
            },
            Items::Items(i, nr) => {
                v.push(i);
                assert(items_seq(*r) =~= v@.map_values(|b: &Box<Item>| **b) + items_seq(**nr));
                cur = nr;
            },
        }
    }
}

fn do_group(r: &Group, nfa: &mut Nfa) -> (res: (NodePointer, NodePointer))
    requires
        old(nfa).wf(),
        2 * old(nfa).index <= old(nfa).nodes@.len(),
    ensures
        compiles_to(*old(nfa), *final(nfa), res, c_group(*r, nfa_view(*old(nfa)))),
        compiled(
            *old(nfa),
            *final(nfa),
            res.0,
            res.1,
            elem_has_query(Elementary::Group(Box::new(*r))),
        ),
    decreases r,
{
    let ghost base = *nfa;
    let Group::O(r) = r;
    let src = fresh(nfa, Ghost(base));
    let dst = fresh(nfa, Ghost(base));
    let ghost n2 = *nfa;
    let x = do_regex(r, nfa);
    proof {
        lemma_fragment_trans(base, n2, *nfa);
    }
    let n = nfa.nodes.len();
    assert(2 * nfa.index + 2 <= n);
    let ghost before = *nfa;
    let _ = nfa.add_group(&src, &x.0, &x.1, &dst);
    proof {
        let i = nfa.index;
        let mid = choose|mid: Nfa|
            Nfa::added(
                Nfa { nodes: before.nodes, index: i },
                mid,
                src,
                Label::Open(i),
                x.0,
            ) && #[trigger] Nfa::added(mid, *nfa, x.1, Label::Close(i), dst);
        let b2 = Nfa { nodes: before.nodes, index: i };
        assert(b2.wf());
        lemma_added(b2, mid, src, Label::Open(i), x.0);
        lemma_added(mid, *nfa, x.1, Label::Close(i), dst);
        assert(fragment(base, b2)) by {
            assert forall|k: int| 0 <= k < base.nodes@.len() implies #[trigger] b2.nodes@[k]
                == base.nodes@[k] by {
                assert(b2.nodes@[k] == before.nodes@[k]);
            }
        }
        lemma_fragment_added(base, b2, mid, src, Label::Open(i), x.0);
        lemma_fragment_added(base, mid, *nfa, x.1, Label::Close(i), dst);
        lemma_view_edge(b2, mid, src, Label::Open(i), x.0);
        lemma_view_edge(mid, *nfa, x.1, Label::Close(i), dst);
        assert(nfa_view(b2) == (nfa_view(before).0, i));
        if no_query(before) {
            assert(no_query(b2));
        }
    }
    (src, dst)
}

} // verus!
