//! Rewrites the matches of a command in a text.
use vstd::prelude::*;
use crate::editing::textbuffer::TextBuffer;
use crate::error::ErrorKind;
use crate::languages::clike::{clike_functions, clike_identifiers, Clike};
use crate::languages::parsing::{function_view, ident_view, Function, Identifier};
use crate::nfa::matcher::{automaton_of, find, fuel_for, match_view, scan, with_offset, Match};
use crate::nfa::dfa::{is_closure, justified, state_table, subset_automaton, transitions_justified, covered};
use crate::nfa::search::{best, end_search, search, stop};
use crate::nfa::{reach, reachable, silent_step, NodePointer};
use crate::regex2nfa::{c_basic, c_elem, c_none, c_regex, c_simple, compiled_from, nfa_view};
use crate::regexparser::nothing_regex;
use crate::nfa::queryengine::QueryEngine;
use crate::nfa::Nfa;
use crate::regex2nfa::{no_query, regex_has_query};
use crate::regexparser::ast::{check_spec, Location, Replace, ReplaceItem, Replacement};
use crate::text::{chars_of, string_of};

verus! {

/// The text of a replacement template for a match of `s`: literals as they are,
/// back-references as the text of their group.
pub open spec fn instantiate(items: Seq<ReplaceItem>, m: Match, s: Seq<char>) -> Seq<char>
    decreases items.len(),
{
    if items.len() == 0 {
        Seq::empty()
    } else {
        instantiate(items.drop_last(), m, s) + match items.last() {
            ReplaceItem::String(t) => t@,
            ReplaceItem::BackRef(x) => m.group_spec(x as int, s),
        }
    }
}

/// Where the `i`-th match ends (zero for the first).
pub open spec fn end_of(ms: Seq<Match>, i: int) -> int {
    if i <= 0 {
        0
    } else {
        ms[i - 1].start + ms[i - 1].len
    }
}

/// Each match ends before the next starts.
pub open spec fn ordered(ms: Seq<Match>) -> bool {
    forall|i: int, j: int|
        0 <= i < j < ms.len() ==> #[trigger] ms[i].start + ms[i].len <= #[trigger] ms[j].start
}

/// Every match lies within a text of `n` characters.
pub open spec fn within(ms: Seq<Match>, n: int) -> bool {
    forall|i: int| 0 <= i < ms.len() ==> #[trigger] ms[i].start + ms[i].len <= n
}

/// The text up to the end of the `i`-th match, where each match whose
/// decision is true has been replaced by its replacement.
pub open spec fn prefix_out(
    input: Seq<char>,
    ms: Seq<Match>,
    reps: Seq<Seq<char>>,
    ds: Seq<bool>,
    i: int,
) -> Seq<char>
    decreases i,
{
    if i <= 0 {
        Seq::empty()
    } else {
        prefix_out(input, ms, reps, ds, i - 1) + input.subrange(end_of(ms, i - 1), ms[i - 1].start as int)
            + if ds[i - 1] {
            reps[i - 1]
        } else {
            input.subrange(ms[i - 1].start as int, end_of(ms, i))
        }
    }
}

/// `input` with each match whose decision is true replaced by its replacement.
pub open spec fn spliced(
    input: Seq<char>,
    ms: Seq<Match>,
    reps: Seq<Seq<char>>,
    ds: Seq<bool>,
) -> Seq<char> {
    prefix_out(input, ms, reps, ds, ms.len() as int) + input.subrange(
        end_of(ms, ms.len() as int),
        input.len() as int,
    )
}

/// The replacement text of each match.
pub open spec fn replacements(items: Seq<ReplaceItem>, ms: Seq<Match>, input: Seq<char>) -> Seq<
    Seq<char>,
> {
    Seq::new(ms.len(), |i: int| instantiate(items, ms[i], input))
}

/// A match of `input` from `start` up to `end`, with replacement `rep`, was
/// replaced (`d`) only where the location predicate holds, and where it holds
/// `d` is what the acceptor answered on the match's text and `rep`.
pub open spec fn decision_ok<F: Fn(&str, &str) -> bool>(
    d: bool,
    input: Seq<char>,
    start: int,
    end: int,
    rep: Seq<char>,
    loc: Location,
    path: Seq<char>,
    qe: QueryEngine,
    acceptor: F,
) -> bool {
    let here = check_spec(loc, input, start, path, qe);
    &&& (d ==> here)
    &&& (here ==> exists|a: &str, b: &str|
        a@ == input.subrange(start, end) && b@ == rep && #[trigger] acceptor.ensures((a, b), d))
}

/// Some match is replaced by a text other than its own.
pub open spec fn text_changed(
    input: Seq<char>,
    ms: Seq<Match>,
    reps: Seq<Seq<char>>,
    ds: Seq<bool>,
) -> bool {
    exists|i: int|
        0 <= i < ds.len() && #[trigger] ds[i] && reps[i] != input.subrange(
            ms[i].start as int,
            end_of(ms, i + 1),
        )
}

/// How a rewrite of `input` over the matches `ms` may turn out: it fails when
/// a match reaches past the end of the text; otherwise each match is replaced
/// exactly where the decision `ds` says so, a match is replaced only where the
/// location predicate holds, and where it holds the decision is the acceptor's
/// answer on the match's text and its replacement.
pub open spec fn rewritten<F: Fn(&str, &str) -> bool>(
    r: Result<(String, bool), ErrorKind>,
    input: Seq<char>,
    ms: Seq<Match>,
    replacement: Replace,
    path: Seq<char>,
    qe: QueryEngine,
    acceptor: F,
) -> bool {
    let reps = replacements(replacement.replace.replacements@, ms, input);
    if !within(ms, input.len() as int) {
        r == Err::<(String, bool), ErrorKind>(ErrorKind::BufferBounds)
    } else {
        &&& r is Ok
        &&& exists|ds: Seq<bool>|
            {
                &&& ds.len() == ms.len()
                &&& #[trigger] spliced(input, ms, reps, ds) == r->Ok_0.0@
                &&& r->Ok_0.1 == text_changed(input, ms, reps, ds)
                &&& forall|i: int|
                    0 <= i < ds.len() ==> decision_ok(
                        #[trigger] ds[i],
                        input,
                        ms[i].start as int,
                        end_of(ms, i + 1),
                        reps[i],
                        *replacement.location,
                        path,
                        qe,
                        acceptor,
                    )
            }
    }
}

/// Rewrites the matches of the command `replacement` in `input`, the text of
/// the file `path_name`. The query engine comes from the C-like scanners; the
/// matches are those of the scan over the automaton compiled from the
/// command's pattern, as `find` reports them, and the rewrite over them is as
/// `rewritten` states. `changed` tells whether some match was replaced by a
/// text other than its own. Every match is considered,
/// whether or not the command is global.
pub fn replace<F: Fn(&str, &str) -> bool>(
    path_name: &String,
    input: &String,
    replacement: &Replace,
    acceptor: F,
) -> (r: Result<(String, bool), ErrorKind>)
    requires
        input@.len() < usize::MAX,
        forall|a: &str, b: &str| acceptor.requires((a, b)),
    ensures
        exists|qe: QueryEngine, ms: Seq<Match>, d: Nfa, st: int|
            {
                &&& qe.offset == 0
                &&& qe.idents@.map_values(|x: Identifier| ident_view(x)) == clike_identifiers(input@)
                &&& qe.functs@.map_values(|x: Function| function_view(x)) == clike_functions(input@)
                &&& d.wf()
                &&& 0 <= st < d.nodes@.len()
                &&& (!regex_has_query(*replacement.find) ==> no_query(d))
                &&& automaton_of(*replacement.find, d, st)
                &&& (!regex_has_query(*replacement.find) ==> forall|q: QueryEngine|
                    ms.map_values(|m: Match| match_view(m)) == #[trigger] scan(
                        q,
                        input@,
                        d,
                        st,
                        fuel_for(input@.len() as int, d.nodes@.len() as int),
                        0,
                    ))
                &&& ms.map_values(|m: Match| match_view(m)) == #[trigger] scan(
                    qe,
                    input@,
                    d,
                    st,
                    fuel_for(input@.len() as int, d.nodes@.len() as int),
                    0,
                )
                &&& ordered(ms)
                &&& #[trigger] rewritten(r, input@, ms, *replacement, path_name@, qe, acceptor)
            },
{
    let mut qe = QueryEngine::build(input, &Clike {}, &Clike {});
    let ghost qe0 = qe;
    let matches = find(&mut qe, input, &replacement.find);
    qe.set_offset(0);
    assert(qe == qe0);
    let r = replace_matches(&qe, path_name, input, &matches, replacement, &acceptor);
    r
}

/// Rewrites `input` over the matches `matches` as `rewritten` states.
#[verifier::rlimit(50)]
pub fn replace_matches<F: Fn(&str, &str) -> bool>(
    qe: &QueryEngine,
    path_name: &String,
    input: &String,
    matches: &Vec<Match>,
    replacement: &Replace,
    acceptor: &F,
) -> (r: Result<(String, bool), ErrorKind>)
    requires
        ordered(matches@),
        forall|a: &str, b: &str| acceptor.requires((a, b)),
    ensures
        rewritten(r, input@, matches@, *replacement, path_name@, *qe, *acceptor),
{
    let cs = chars_of(input.as_str());
    let ps = chars_of(path_name.as_str());
    let ghost ms = matches@;
    let ghost reps = replacements(replacement.replace.replacements@, ms, input@);
    let mut tb = TextBuffer::new();
    tb.add(input.as_str());
    let mut changed = false;
    let mut e: usize = 0;
    let mut plen: usize = 0;
    let ghost mut ds: Seq<bool> = Seq::empty();
    let mut i: usize = 0;
    while i < matches.len()
        invariant
            cs@ == input@,
            ps@ == path_name@,
            ms == matches@,
            ordered(ms),
            reps == replacements(replacement.replace.replacements@, ms, input@),
            forall|a: &str, b: &str| acceptor.requires((a, b)),
            i <= ms.len(),
            ds.len() == i,
            e == end_of(ms, i as int),
            e <= input@.len(),
            forall|k: int| 0 <= k < i ==> #[trigger] ms[k].start + ms[k].len <= input@.len(),
            plen == prefix_out(input@, ms, reps, ds, i as int).len(),
            tb@ == prefix_out(input@, ms, reps, ds, i as int) + input@.subrange(
                e as int,
                input@.len() as int,
            ),
            changed == text_changed(input@, ms, reps, ds),
            forall|k: int|
                0 <= k < ds.len() ==> decision_ok(
                    #[trigger] ds[k],
                    input@,
                    ms[k].start as int,
                    end_of(ms, k + 1),
                    reps[k],
                    *replacement.location,
                    path_name@,
                    *qe,
                    *acceptor,
                ),
        decreases ms.len() - i,
    {
        let m = &matches[i];
        let n = cs.len();
        if m.len > n || m.start > n - m.len {
            assert(ms[i as int].start + ms[i as int].len > input@.len());
            return Err(ErrorKind::BufferBounds);
        }
        proof {
            if i > 0 {
                assert(ms[i - 1].start + ms[i - 1].len <= ms[i as int].start);
            }
        }
        let ghost s = m.start as int;
        let ghost pre = prefix_out(input@, ms, reps, ds, i as int);
        let rep = replace_to_string(&replacement.replace, m, input);
        let blen = tb.len();
        let bstart = plen + (m.start - e);
        assert(tb@.subrange(bstart as int, bstart + m.len) =~= input@.subrange(s, s + m.len));
        let to_replace = match tb.get(bstart, m.len) {
            Ok(t) => t,
            Err(e) => return Err(e),
        };
        let here_ok = replacement.location.check_chars(&cs, m.start, &ps, qe);
        let a = to_replace.as_str();
        let b = rep.as_str();
        let accept = if here_ok {
            acceptor(a, b)
        } else {
            false
        };
        let ghost ds0 = ds;
        proof {
            ds = ds.push(accept);
            lemma_prefix_out_ext(input@, ms, reps, ds0, ds, i as int);
            assert(reps[i as int] == rep@);
        }
        if accept {
            let _ = tb.replace(bstart, m.len, b);
            if !(to_replace == rep) {
                changed = true;
            }
            proof {
                assert(tb@ =~= prefix_out(input@, ms, reps, ds, i + 1) + input@.subrange(
                    s + m.len,
                    input@.len() as int,
                ));
            }
        } else {
            proof {
                assert(tb@ =~= prefix_out(input@, ms, reps, ds, i + 1) + input@.subrange(
                    s + m.len,
                    input@.len() as int,
                ));
            }
        }
        e = m.start + m.len;
        plen = tb.len() - (n - e);
        proof {
            let ghost orig = input@.subrange(ms[i as int].start as int, end_of(ms, i + 1));
            assert(to_replace@ == orig);
            assert(changed == text_changed(input@, ms, reps, ds)) by {
                if accept && rep@ != orig {
                    assert(ds[i as int] && reps[i as int] != orig);
                }
                if text_changed(input@, ms, reps, ds) {
                    let k = choose|k: int|
                        0 <= k < ds.len() && #[trigger] ds[k] && reps[k] != input@.subrange(
                            ms[k].start as int,
                            end_of(ms, k + 1),
                        );
                    if k < i {
                        assert(ds0[k]);
                    }
                }
                if text_changed(input@, ms, reps, ds0) {
                    let k = choose|k: int|
                        0 <= k < ds0.len() && #[trigger] ds0[k] && reps[k] != input@.subrange(
                            ms[k].start as int,
                            end_of(ms, k + 1),
                        );
                    assert(ds[k]);
                }
            }
            if here_ok {
                assert(a@ == input@.subrange(m.start as int, end_of(ms, i + 1)) && b@ == reps[i as int]
                    && acceptor.ensures((a, b), accept));
            }
            assert(decision_ok(
                ds[i as int],
                input@,
                ms[i as int].start as int,
                end_of(ms, i + 1),
                reps[i as int],
                *replacement.location,
                path_name@,
                *qe,
                *acceptor,
            ));
            assert forall|k: int| 0 <= k < ds.len() implies decision_ok(
                #[trigger] ds[k],
                input@,
                ms[k].start as int,
                end_of(ms, k + 1),
                reps[k],
                *replacement.location,
                path_name@,
                *qe,
                *acceptor,
            ) by {
                if k < i {
                    assert(ds[k] == ds0[k]);
                }
            }
        }
        i = i + 1;
    }
    proof {
        assert(within(ms, input@.len() as int));
        assert(spliced(input@, ms, reps, ds) == tb@);
    }
    Ok((tb.consume(), changed))
}

/// The change of length that the replaced matches among the first `i` bring.
pub open spec fn length_change(ms: Seq<Match>, reps: Seq<Seq<char>>, ds: Seq<bool>, i: int) -> int
    decreases i,
{
    if i <= 0 {
        0
    } else {
        length_change(ms, reps, ds, i - 1) + if ds[i - 1] {
            reps[i - 1].len() - ms[i - 1].len
        } else {
            0
        }
    }
}

proof fn lemma_prefix_len(input: Seq<char>, ms: Seq<Match>, reps: Seq<Seq<char>>, ds: Seq<bool>, i: int)
    requires
        ordered(ms),
        within(ms, input.len() as int),
        0 <= i <= ms.len(),
        ds.len() == ms.len(),
    ensures
        prefix_out(input, ms, reps, ds, i).len() == end_of(ms, i) + length_change(ms, reps, ds, i),
    decreases i,
{
    if i > 0 {
        lemma_prefix_len(input, ms, reps, ds, i - 1);
        if i > 1 {
            assert(ms[i - 2].start + ms[i - 2].len <= ms[i - 1].start);
        }
        assert(ms[i - 1].start + ms[i - 1].len <= input.len());
    }
}

/// The rewritten text is as long as the input plus, over the replaced matches,
/// the length of each replacement minus the length of its match.
pub proof fn lemma_rewrite_length(
    input: Seq<char>,
    ms: Seq<Match>,
    reps: Seq<Seq<char>>,
    ds: Seq<bool>,
)
    requires
        ordered(ms),
        within(ms, input.len() as int),
        ds.len() == ms.len(),
    ensures
        spliced(input, ms, reps, ds).len() == input.len() + length_change(
            ms,
            reps,
            ds,
            ms.len() as int,
        ),
{
    lemma_prefix_len(input, ms, reps, ds, ms.len() as int);
    if ms.len() > 0 {
        assert(ms[ms.len() - 1].start + ms[ms.len() - 1].len <= input.len());
    }
}

/// For a rewrite as `replace` states it: when it succeeds, the output is as
/// long as the input plus, over the replaced matches, the length of each
/// replacement minus that of its match.
pub proof fn lemma_replace_length<F: Fn(&str, &str) -> bool>(
    r: Result<(String, bool), ErrorKind>,
    input: Seq<char>,
    ms: Seq<Match>,
    replacement: Replace,
    path: Seq<char>,
    qe: QueryEngine,
    acceptor: F,
)
    requires
        ordered(ms),
        rewritten(r, input, ms, replacement, path, qe, acceptor),
        r is Ok,
    ensures
        exists|ds: Seq<bool>|
            ds.len() == ms.len() && r->Ok_0.0@.len() == input.len() + #[trigger] length_change(
                ms,
                replacements(replacement.replace.replacements@, ms, input),
                ds,
                ms.len() as int,
            ),
{
    let reps = replacements(replacement.replace.replacements@, ms, input);
    let ds = choose|ds: Seq<bool>|
        {
            &&& ds.len() == ms.len()
            &&& #[trigger] spliced(input, ms, reps, ds) == r->Ok_0.0@
            &&& r->Ok_0.1 == text_changed(input, ms, reps, ds)
            &&& forall|i: int|
                0 <= i < ds.len() ==> decision_ok(
                    #[trigger] ds[i],
                    input,
                    ms[i].start as int,
                    end_of(ms, i + 1),
                    reps[i],
                    *replacement.location,
                    path,
                    qe,
                    acceptor,
                )
        };
    lemma_rewrite_length(input, ms, reps, ds);
}

/// For a rewrite as `replace` states it: when every match's replacement text
/// is the match's own text (as with a pattern and a template that are the
/// same literal), the output is the input and nothing counts as changed.
pub proof fn lemma_replace_identity<F: Fn(&str, &str) -> bool>(
    r: Result<(String, bool), ErrorKind>,
    input: Seq<char>,
    ms: Seq<Match>,
    replacement: Replace,
    path: Seq<char>,
    qe: QueryEngine,
    acceptor: F,
)
    requires
        ordered(ms),
        rewritten(r, input, ms, replacement, path, qe, acceptor),
        r is Ok,
        forall|k: int|
            0 <= k < ms.len() ==> #[trigger] instantiate(replacement.replace.replacements@, ms[k], input)
                == input.subrange(ms[k].start as int, ms[k].start + ms[k].len),
    ensures
        r->Ok_0.0@ == input,
        r->Ok_0.1 == false,
{
    let reps = replacements(replacement.replace.replacements@, ms, input);
    let ds = choose|ds: Seq<bool>|
        {
            &&& ds.len() == ms.len()
            &&& #[trigger] spliced(input, ms, reps, ds) == r->Ok_0.0@
            &&& r->Ok_0.1 == text_changed(input, ms, reps, ds)
            &&& forall|i: int|
                0 <= i < ds.len() ==> decision_ok(
                    #[trigger] ds[i],
                    input,
                    ms[i].start as int,
                    end_of(ms, i + 1),
                    reps[i],
                    *replacement.location,
                    path,
                    qe,
                    acceptor,
                )
        };
    assert forall|k: int|
        0 <= k < ms.len() && #[trigger] ds[k] implies reps[k] == input.subrange(
        ms[k].start as int,
        ms[k].start + ms[k].len,
    ) by {
        assert(reps[k] == instantiate(replacement.replace.replacements@, ms[k], input));
    }
    lemma_identity_rewrite(input, ms, reps, ds);
    if text_changed(input, ms, reps, ds) {
        let k = choose|k: int|
            0 <= k < ds.len() && #[trigger] ds[k] && reps[k] != input.subrange(
                ms[k].start as int,
                end_of(ms, k + 1),
            );
        assert(reps[k] == instantiate(replacement.replace.replacements@, ms[k], input));
    }
}

proof fn lemma_lone_node_reach(n: Nfa, k: nat, x: int)
    requires
        n.nodes@.len() > 0,
        n.nodes@[0].transitions@.len() == 0,
        reach(n, set![0int], k, false).contains(x),
    ensures
        x == 0,
    decreases k,
{
    if k > 0 {
        let k1 = (k - 1) as nat;
        if !reach(n, set![0int], k1, false).contains(x) {
            let a = choose|a: int| reach(n, set![0int], k1, false).contains(a) && silent_step(n, a, x, false);
            lemma_lone_node_reach(n, k1, a);
        } else {
            lemma_lone_node_reach(n, k1, x);
        }
    }
}

proof fn lemma_scan_nothing(q: QueryEngine, input: Seq<char>, d: Nfa, st: int, fuel: nat, is: int)
    requires
        0 <= st < d.nodes@.len(),
        d.nodes@[st].transitions@.len() == 0,
        d.nodes@[st].nt != crate::nfa::NodeType::Accept,
    ensures
        scan(q, input, d, st, fuel, is) == Seq::<crate::nfa::matcher::MatchView>::empty(),
    decreases input.len() + 1 - is,
{
    if 0 <= is <= input.len() {
        assert(end_search(d, st, 0) == stop(d, st));
        assert(best(with_offset(q, is), input, is, d, st, fuel, 0) is None);
        assert(search(with_offset(q, is), input, is, d, st, fuel) is None);
        lemma_scan_nothing(q, input, d, st, fuel, is + 1);
    }
}

/// The empty pattern matches nothing: a rewrite with it, as `replace` states
/// it, succeeds, gives back the input, and changes nothing.
pub proof fn lemma_empty_pattern_keeps_input<F: Fn(&str, &str) -> bool>(
    r: Result<(String, bool), ErrorKind>,
    input: Seq<char>,
    ms: Seq<Match>,
    replacement: Replace,
    path: Seq<char>,
    qe: QueryEngine,
    acceptor: F,
    d: Nfa,
    st: int,
)
    requires
        *replacement.find == nothing_regex(),
        0 <= st < d.nodes@.len(),
        automaton_of(*replacement.find, d, st),
        ms.map_values(|m: Match| match_view(m)) == scan(
            qe,
            input,
            d,
            st,
            fuel_for(input.len() as int, d.nodes@.len() as int),
            0,
        ),
        rewritten(r, input, ms, replacement, path, qe, acceptor),
    ensures
        r is Ok,
        r->Ok_0.0@ == input,
        r->Ok_0.1 == false,
{
    let (n, s0, e0, en) = choose|n: Nfa, s0: NodePointer, e0: NodePointer, en: NodePointer|
        compiled_from(*replacement.find, n, s0, e0) && #[trigger] subset_automaton(
            n,
            s0,
            e0,
            d,
            NodePointer { id: st as usize },
            en,
        );
    let g0 = (Seq::<Seq<(crate::nfa::Label, usize)>>::empty(), 0usize);
    let g = c_regex(nothing_regex(), g0);
    let el = crate::regexparser::ast::Elementary::Nothing;
    let ba = crate::regexparser::ast::Basic::Elementary(Box::new(el));
    let si = crate::regexparser::ast::Simple::Basic(Box::new(ba));
    assert(c_elem(el, g0) == c_none(g0));
    assert(c_basic(ba, g0) == c_elem(el, g0));
    assert(c_simple(si, g0) == c_basic(ba, g0));
    assert(g == c_simple(si, g0));
    assert(g.0.0 =~= seq![Seq::<(crate::nfa::Label, usize)>::empty(), Seq::<(crate::nfa::Label, usize)>::empty()]);
    assert(g.1 == 0 && g.2 == 1);
    assert(nfa_view(n).0.len() == 2);
    assert(n.nodes@.len() == 2);
    assert(nfa_view(n).0[0] == n.nodes@[0].transitions@.map_values(|t: crate::nfa::Transition| (crate::nfa::label(t.kind), t.dest.id)));
    assert(nfa_view(n).0[0] == g.0.0[0]);
    assert(g.0.0[0].len() == 0);
    assert(n.nodes@[0].transitions@.map_values(|t: crate::nfa::Transition| (crate::nfa::label(t.kind), t.dest.id)).len() == n.nodes@[0].transitions@.len());
    assert(n.nodes@[0].transitions@.len() == 0);
    assert(s0.id == 0 && e0.id == 1);
    let map = choose|map: Seq<(Vec<usize>, NodePointer)>|
        {
            &&& #[trigger] state_table(n, map, d, e0.id)
            &&& transitions_justified(n, map, d)
            &&& is_closure(n, s0.id, map[st].0@)
            &&& is_closure(n, e0.id, map[en.id as int].0@)
            &&& forall|k: int| 0 <= k < d.nodes@.len() ==> #[trigger] covered(n, map, d, NodePointer { id: st as usize }, en, k)
        };
    reveal(is_closure);
    assert forall|x: usize| map[st].0@.contains(x) implies x == 0 by {
        assert(reachable(n, set![0int], x as int, false));
        let k = choose|k: nat| #[trigger] reach(n, set![0int], k, false).contains(x as int);
        lemma_lone_node_reach(n, k, x as int);
    }
    assert(!map[st].0@.contains(1usize));
    assert(d.nodes@[st].nt != crate::nfa::NodeType::Accept);
    if d.nodes@[st].transitions@.len() > 0 {
        assert(justified(n, map, st, d.nodes@[st].transitions@[0]));
        let (a, b) = choose|a: usize, b: int|
            #![trigger map[st].0@.contains(a), n.nodes@[a as int].transitions@[b]]
            map[st].0@.contains(a) && a < n.nodes@.len() && 0 <= b < n.nodes@[a as int].transitions@.len()
                && crate::nfa::label(n.nodes@[a as int].transitions@[b].kind) == crate::nfa::label(d.nodes@[st].transitions@[0].kind)
                && is_closure(n, n.nodes@[a as int].transitions@[b].dest.id, map[d.nodes@[st].transitions@[0].dest.id as int].0@);
        assert(a == 0);
    }
    lemma_scan_nothing(qe, input, d, st, fuel_for(input.len() as int, d.nodes@.len() as int), 0);
    assert(d.nodes@[st].transitions@.len() == 0);
    assert(ms.map_values(|m: Match| match_view(m)).len() == ms.len());
    assert(ms.len() == 0);
    let reps = replacements(replacement.replace.replacements@, ms, input);
    let ds = choose|ds: Seq<bool>|
        {
            &&& ds.len() == ms.len()
            &&& #[trigger] spliced(input, ms, reps, ds) == r->Ok_0.0@
            &&& r->Ok_0.1 == text_changed(input, ms, reps, ds)
            &&& forall|i: int|
                0 <= i < ds.len() ==> decision_ok(
                    #[trigger] ds[i],
                    input,
                    ms[i].start as int,
                    end_of(ms, i + 1),
                    reps[i],
                    *replacement.location,
                    path,
                    qe,
                    acceptor,
                )
        };
    assert(input.subrange(0, input.len() as int) =~= input);
    assert(spliced(input, ms, reps, ds) =~= input);
}

proof fn lemma_prefix_identity(
    input: Seq<char>,
    ms: Seq<Match>,
    reps: Seq<Seq<char>>,
    ds: Seq<bool>,
    i: int,
)
    requires
        ordered(ms),
        within(ms, input.len() as int),
        0 <= i <= ms.len(),
        ds.len() == ms.len(),
        forall|k: int|
            0 <= k < ms.len() && #[trigger] ds[k] ==> reps[k] == input.subrange(
                ms[k].start as int,
                ms[k].start + ms[k].len,
            ),
    ensures
        prefix_out(input, ms, reps, ds, i) == input.subrange(0, end_of(ms, i)),
    decreases i,
{
    if i > 0 {
        lemma_prefix_identity(input, ms, reps, ds, i - 1);
        if i > 1 {
            assert(ms[i - 2].start + ms[i - 2].len <= ms[i - 1].start);
        }
        assert(ms[i - 1].start + ms[i - 1].len <= input.len());
        assert(input.subrange(0, end_of(ms, i - 1)) + input.subrange(
            end_of(ms, i - 1),
            ms[i - 1].start as int,
        ) + input.subrange(ms[i - 1].start as int, end_of(ms, i)) =~= input.subrange(
            0,
            end_of(ms, i),
        ));
    }
}

/// Replacing each match by its own text gives back the input.
pub proof fn lemma_identity_rewrite(
    input: Seq<char>,
    ms: Seq<Match>,
    reps: Seq<Seq<char>>,
    ds: Seq<bool>,
)
    requires
        ordered(ms),
        within(ms, input.len() as int),
        ds.len() == ms.len(),
        forall|k: int|
            0 <= k < ms.len() && #[trigger] ds[k] ==> reps[k] == input.subrange(
                ms[k].start as int,
                ms[k].start + ms[k].len,
            ),
    ensures
        spliced(input, ms, reps, ds) == input,
{
    lemma_prefix_identity(input, ms, reps, ds, ms.len() as int);
    if ms.len() > 0 {
        assert(ms[ms.len() - 1].start + ms[ms.len() - 1].len <= input.len());
    }
    assert(input.subrange(0, end_of(ms, ms.len() as int)) + input.subrange(
        end_of(ms, ms.len() as int),
        input.len() as int,
    ) =~= input);
}

/// The groups of the matches of a successful rewrite lie within the input:
/// each group lies within its match, and every match within the input.
pub proof fn lemma_accepted_groups_in_input(ms: Seq<Match>, n: int)
    requires
        within(ms, n),
        forall|i: int, k: int|
            0 <= i < ms.len() && 0 <= k < ms[i].groups@.len() ==> ms[i].start <= (
            #[trigger] ms[i].groups@[k]).start && ms[i].groups@[k].start + ms[i].groups@[k].len
                <= ms[i].start + ms[i].len,
    ensures
        forall|i: int, k: int|
            0 <= i < ms.len() && 0 <= k < ms[i].groups@.len() ==> 0 <= (
            #[trigger] ms[i].groups@[k]).start <= ms[i].groups@[k].start + ms[i].groups@[k].len
                <= n,
{
    assert forall|i: int, k: int|
        0 <= i < ms.len() && 0 <= k < ms[i].groups@.len() implies 0 <= (
        #[trigger] ms[i].groups@[k]).start <= ms[i].groups@[k].start + ms[i].groups@[k].len
            <= n by {
        assert(ms[i].start + ms[i].len <= n);
    }
}

proof fn lemma_prefix_out_ext(
    input: Seq<char>,
    ms: Seq<Match>,
    reps: Seq<Seq<char>>,
    d1: Seq<bool>,
    d2: Seq<bool>,
    i: int,
)
    requires
        i <= d1.len(),
        i <= d2.len(),
        forall|k: int| 0 <= k < i ==> d1[k] == d2[k],
    ensures
        prefix_out(input, ms, reps, d1, i) == prefix_out(input, ms, reps, d2, i),
    decreases i,
{
    if i > 0 {
        lemma_prefix_out_ext(input, ms, reps, d1, d2, i - 1);
    }
}

/// The text of the template `replacement` for the match `m` of `s`.
pub fn replace_to_string(replacement: &Replacement, m: &Match, s: &String) -> (r: String)
    ensures
        r@ == instantiate(replacement.replacements@, *m, s@),
{
    let cs = chars_of(s.as_str());
    let mut ret: Vec<char> = Vec::new();
    let mut i: usize = 0;
    while i < replacement.replacements.len()
        invariant
            cs@ == s@,
            i <= replacement.replacements@.len(),
            ret@ == instantiate(replacement.replacements@.subrange(0, i as int), *m, s@),
        decreases replacement.replacements@.len() - i,
    {
        assert(replacement.replacements@.subrange(0, i + 1).drop_last()
            =~= replacement.replacements@.subrange(0, i as int));
        let piece = match &replacement.replacements[i] {
            ReplaceItem::String(t) => chars_of(t.as_str()),
            ReplaceItem::BackRef(x) => m.group_text(*x, &cs),
        };
        let mut piece = piece;
        ret.append(&mut piece);
        i = i + 1;
    }
    assert(replacement.replacements@.subrange(0, replacement.replacements@.len() as int)
        =~= replacement.replacements@);
    string_of(&ret)
}

} // verus!
