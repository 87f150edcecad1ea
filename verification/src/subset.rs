//! The subset construction: from an automaton with epsilon transitions to a
//! deterministic one whose states are sets of states of the first.

use vstd::prelude::*;
use vstd::set_lib::lemma_len_subset;
use crate::encoding::{encode, encode_set};
use crate::finite::{subsets_of, lemma_subsets_finite};
use crate::language::lemma_determinized_language;
use crate::model::Automaton;
use crate::nfae::{NFAe, increasing};
use crate::state_set::StateSet;
use crate::steps::{
    steps_to_accept, walks_to_accept, lemma_accepts_is_steps, lemma_accepts_is_walk,
};
use crate::symbol::Symbol;
use crate::transition::Edge;
use crate::walk::{walk, lemma_walk_concat, lemma_walk_more, lemma_walk_one};

verus! {

/// Every character of `word` is in `alphabet`.
pub open spec fn over(word: Seq<char>, alphabet: Set<char>) -> bool {
    forall|i: int| 0 <= i < word.len() ==> alphabet.contains(#[trigger] word[i])
}

/// `set` is where `a` may be after it has read some word over its alphabet.
pub open spec fn subset_state(a: Automaton, set: Set<Seq<char>>) -> bool {
    exists|word: Seq<char>| over(word, a.alphabet()) && set == #[trigger] a.run(a.start(), word)
}

/// The transition of the deterministic automaton that leaves the set `set`
/// on `c`.
pub open spec fn subset_edge(a: Automaton, set: Set<Seq<char>>, c: char) -> Edge {
    Edge { from: encode(set), when: Symbol::Symbol(c), to: encode(a.step(set, c)) }
}

/// The deterministic automaton of the subset construction. Its states are
/// the sets that `a` may be in after a word over its alphabet, each under
/// its name; it starts in the epsilon closure of the initial state of `a`,
/// accepts in the sets that hold an accepting state of `a`, and goes on
/// each character of the alphabet from a set to the set that `a` may be in
/// after that character. It is empty where `a` has no initial state.
pub open spec fn determinized(a: Automaton) -> Automaton {
    if a.initial is None {
        Automaton::empty()
    } else {
        Automaton {
            states: Set::new(
                |n: Seq<char>| exists|s: Set<Seq<char>>| #[trigger] subset_state(a, s) && n == encode(s),
            ),
            initial: Some(encode(a.start())),
            finals: Set::new(
                |n: Seq<char>|
                    exists|s: Set<Seq<char>>| #[trigger]
                        subset_state(a, s) && !s.disjoint(a.finals) && n == encode(s),
            ),
            edges: Set::new(
                |e: Edge|
                    exists|s: Set<Seq<char>>, c: char|
                        subset_state(a, s) && a.alphabet().contains(c) && e == #[trigger] subset_edge(
                            a,
                            s,
                            c,
                        ),
            ),
        }
    }
}

/// The state `name` of `d` stands for the set `set` of `a`: it bears its
/// name, accepts exactly if the set holds an accepting state, and goes on
/// each character of the alphabet where the set goes.
#[verifier::opaque]
pub open spec fn stands_for(a: Automaton, d: Automaton, name: Seq<char>, set: Set<Seq<char>>) -> bool {
    &&& subset_state(a, set)
    &&& encode(set) == name
    &&& d.finals.contains(name) <==> !set.disjoint(a.finals)
    &&& forall|c: char| #[trigger]
        a.alphabet().contains(c) ==> d.edges.contains(subset_edge(a, set, c))
}

/// Every state of `d` stands for one of the sets that `a` may be in.
pub open spec fn represented(a: Automaton, d: Automaton) -> bool {
    forall|name: Seq<char>| #[trigger]
        d.states.contains(name) ==> exists|set: Set<Seq<char>>| stands_for(a, d, name, set)
}

/// `state` is reached from the initial state of `d` along transitions of
/// `d`.
#[verifier::opaque]
pub open spec fn reached(d: Automaton, state: Seq<char>) -> bool {
    d.initial matches Some(first) && exists|path: Seq<Edge>| #[trigger]
        walk(d.edges, first, path, state)
}

/// Every state of `d` is reached from its initial state.
pub open spec fn connected(d: Automaton) -> bool {
    forall|state: Seq<char>| #[trigger] d.states.contains(state) ==> reached(d, state)
}

/// What is reached stays reached when states and transitions are added,
/// and the end of a new transition from a reached state is reached too.
proof fn lemma_reached_more(d: Automaton, d2: Automaton, e: Edge)
    requires
        d2.initial == d.initial,
        d2.edges == d.edges.insert(e),
        reached(d, e.from),
    ensures
        reached(d2, e.to),
        forall|state: Seq<char>| reached(d, state) ==> reached(d2, state),
{
    reveal(reached);
    let first = d.initial->Some_0;
    assert forall|state: Seq<char>| reached(d, state) implies reached(d2, state) by {
        let path = choose|path: Seq<Edge>| #[trigger] walk(d.edges, first, path, state);
        lemma_walk_more(d.edges, d2.edges, first, path, state);
    }
    let path = choose|path: Seq<Edge>| #[trigger] walk(d.edges, first, path, e.from);
    lemma_walk_more(d.edges, d2.edges, first, path, e.from);
    lemma_walk_one(d2.edges, e);
    lemma_walk_concat(d2.edges, first, path, e.from, seq![e], e.to);
}

/// The initial state is reached.
proof fn lemma_reached_first(d: Automaton)
    requires
        d.initial is Some,
    ensures
        reached(d, d.initial->Some_0),
{
    reveal(reached);
    let first = d.initial->Some_0;
    assert(walk(d.edges, first, Seq::<Edge>::empty(), first));
}

/// Different sets that `a` may be in have different names.
pub open spec fn unambiguous(a: Automaton) -> bool {
    forall|s: Set<Seq<char>>, t: Set<Seq<char>>|
        #![trigger subset_state(a, s), subset_state(a, t)]
        subset_state(a, s) && subset_state(a, t) && encode(s) == encode(t) ==> s == t
}

/// The names of the subsets of the base of `a`: every state of the
/// deterministic automaton is among them.
pub open spec fn universe(a: Automaton) -> Set<Seq<char>> {
    subsets_of(a.base()).map(|s: Set<Seq<char>>| encode(s))
}

/// The universe is finite, and holds the name of every set that `a` may be
/// in.
pub proof fn lemma_universe(a: Automaton)
    requires
        a.states.finite(),
        a.edges.finite(),
    ensures
        universe(a).finite(),
        forall|s: Set<Seq<char>>| #[trigger] subset_state(a, s) ==> universe(a).contains(encode(s)),
{
    a.edges.lemma_map_finite(|e: Edge| e.to);
    lemma_subsets_finite(a.base());
    subsets_of(a.base()).lemma_map_finite(|s: Set<Seq<char>>| encode(s));
    assert forall|s: Set<Seq<char>>| #[trigger] subset_state(a, s) implies universe(a).contains(
        encode(s),
    ) by {
        let word = choose|word: Seq<char>|
            over(word, a.alphabet()) && s == #[trigger] a.run(a.start(), word);
        a.lemma_run_within(word);
        assert(subsets_of(a.base()).contains(s));
    }
}

/// After one more character of the alphabet, `a` is again in one of its
/// sets.
pub proof fn lemma_subset_state_step(a: Automaton, set: Set<Seq<char>>, c: char)
    requires
        subset_state(a, set),
        a.alphabet().contains(c),
    ensures
        subset_state(a, a.step(set, c)),
{
    let word = choose|word: Seq<char>|
        over(word, a.alphabet()) && set == #[trigger] a.run(a.start(), word);
    let longer = word.push(c);
    assert(longer.drop_last() =~= word);
    assert(over(longer, a.alphabet()));
    assert(a.step(set, c) == a.run(a.start(), longer));
}

/// The start of `a` is one of its sets.
pub proof fn lemma_subset_state_start(a: Automaton)
    ensures
        subset_state(a, a.start()),
{
    let word = Seq::<char>::empty();
    assert(over(word, a.alphabet()));
    assert(a.start() == a.run(a.start(), word));
}

/// `name` is the name of a set that waits to be explored.
spec fn waits(pending: Seq<Set<Seq<char>>>, name: Seq<char>) -> bool {
    exists|i: int| 0 <= i < pending.len() && encode(#[trigger] pending[i]) == name
}

/// The transition `e` of the automaton under construction is the one that
/// leaves an explored set, or the set being explored, on a character.
spec fn edge_explored(
    a: Automaton,
    d: Automaton,
    rep: Map<Seq<char>, Set<Seq<char>>>,
    pending: Seq<Set<Seq<char>>>,
    busy: bool,
    current: Seq<char>,
    done: Set<char>,
    e: Edge,
) -> bool {
    &&& d.states.contains(e.from)
    &&& d.states.contains(e.to)
    &&& !waits(pending, e.from)
    &&& exists|c: char|
        a.alphabet().contains(c) && e == #[trigger] subset_edge(a, rep[e.from], c) && (busy && e.from
            == current ==> done.contains(c))
}

/// Each state of the automaton under construction stands for one of the
/// sets of `a`, whose name it is, and accepts as that set does.
spec fn states_explored(a: Automaton, d: Automaton, rep: Map<Seq<char>, Set<Seq<char>>>) -> bool {
    &&& rep.dom() == d.states
    &&& d.finals.subset_of(d.states)
    &&& connected(d)
    &&& forall|n: Seq<char>| #[trigger]
        d.states.contains(n) ==> subset_state(a, rep[n]) && encode(rep[n]) == n && (d.finals.contains(
            n,
        ) <==> !rep[n].disjoint(a.finals))
}

/// The sets that wait are states already, under different names.
spec fn pending_explored(
    d: Automaton,
    rep: Map<Seq<char>, Set<Seq<char>>>,
    pending: Seq<Set<Seq<char>>>,
) -> bool {
    &&& forall|i: int|
        0 <= i < pending.len() ==> d.states.contains(encode(#[trigger] pending[i])) && rep[encode(
            pending[i],
        )] == pending[i]
    &&& forall|i: int, j: int|
        0 <= i < j < pending.len() ==> encode(#[trigger] pending[i]) != encode(#[trigger] pending[j])
}

/// What holds of the automaton under construction: every state that
/// neither waits nor is being explored has its transition on every
/// character of the alphabet, the state being explored has those on the
/// characters that are done, and there are no other transitions.
spec fn explored(
    a: Automaton,
    d: Automaton,
    rep: Map<Seq<char>, Set<Seq<char>>>,
    pending: Seq<Set<Seq<char>>>,
    busy: bool,
    current: Seq<char>,
    done: Set<char>,
) -> bool {
    &&& d.initial == Some(encode(a.start()))
    &&& d.states.contains(encode(a.start()))
    &&& states_explored(a, d, rep)
    &&& pending_explored(d, rep, pending)
    &&& forall|e: Edge| #[trigger]
        d.edges.contains(e) ==> edge_explored(a, d, rep, pending, busy, current, done, e)
    &&& forall|n: Seq<char>, c: char|
        #![trigger d.states.contains(n), a.alphabet().contains(c)]
        d.states.contains(n) && a.alphabet().contains(c) && !waits(pending, n) && (busy && n
            == current ==> done.contains(c)) ==> d.edges.contains(subset_edge(a, rep[n], c))
    &&& busy ==> d.states.contains(current) && !waits(pending, current)
}

/// Taking the last waiting set up for exploring.
proof fn lemma_explored_take(
    a: Automaton,
    d: Automaton,
    rep: Map<Seq<char>, Set<Seq<char>>>,
    pending: Seq<Set<Seq<char>>>,
)
    requires
        pending.len() > 0,
        explored(a, d, rep, pending, false, Seq::empty(), Set::empty()),
    ensures
        explored(
            a,
            d,
            rep,
            pending.drop_last(),
            true,
            encode(pending.last()),
            Set::empty(),
        ),
        rep[encode(pending.last())] == pending.last(),
{
    let rest = pending.drop_last();
    let current = encode(pending.last());
    let last = pending.len() - 1;
    assert(encode(pending[last]) == current);
    assert(waits(pending, current));
    assert forall|n: Seq<char>| waits(rest, n) implies waits(pending, n) by {
        let i = choose|i: int| 0 <= i < rest.len() && encode(#[trigger] rest[i]) == n;
        assert(pending[i] == rest[i]);
    }
    assert forall|n: Seq<char>| waits(pending, n) && n != current implies waits(rest, n) by {
        let i = choose|i: int| 0 <= i < pending.len() && encode(#[trigger] pending[i]) == n;
        assert(rest[i] == pending[i]);
    }
    if waits(rest, current) {
        let i = choose|i: int| 0 <= i < rest.len() && encode(#[trigger] rest[i]) == current;
        assert(pending[i] == rest[i]);
        assert(encode(pending[i]) != encode(pending[last]));
    }
    assert forall|i: int| 0 <= i < rest.len() implies d.states.contains(encode(#[trigger] rest[i]))
        && rep[encode(rest[i])] == rest[i] by {
        assert(pending[i] == rest[i]);
    }
    assert forall|i: int, j: int| 0 <= i < j < rest.len() implies encode(#[trigger] rest[i])
        != encode(#[trigger] rest[j]) by {
        assert(pending[i] == rest[i]);
        assert(pending[j] == rest[j]);
    }
    assert forall|e: Edge| #[trigger] d.edges.contains(e) implies edge_explored(
        a,
        d,
        rep,
        rest,
        true,
        current,
        Set::empty(),
        e,
    ) by {
        assert(edge_explored(a, d, rep, pending, false, Seq::empty(), Set::empty(), e));
    }
}

/// Adding the transition from the set being explored on `c`, and its
/// target, when that is new, as a state that waits.
proof fn lemma_explored_add(
    a: Automaton,
    d: Automaton,
    rep: Map<Seq<char>, Set<Seq<char>>>,
    pending: Seq<Set<Seq<char>>>,
    current: Seq<char>,
    done: Set<char>,
    c: char,
    d2: Automaton,
)
    requires
        explored(a, d, rep, pending, true, current, done),
        a.alphabet().contains(c),
        ({
            let next = a.step(rep[current], c);
            let to = encode(next);
            let e = Edge { from: current, when: Symbol::Symbol(c), to };
            if d.states.contains(to) {
                d2 == d.with_edge(e)
            } else {
                d2 == d.with_state(to, !next.disjoint(a.finals)).with_edge(e)
            }
        }),
    ensures
        ({
            let next = a.step(rep[current], c);
            let to = encode(next);
            if d.states.contains(to) {
                explored(a, d2, rep, pending, true, current, done.insert(c))
            } else {
                explored(a, d2, rep.insert(to, next), pending.push(next), true, current, done.insert(c))
            }
        }),
{
    let next = a.step(rep[current], c);
    let to = encode(next);
    let e = Edge { from: current, when: Symbol::Symbol(c), to };
    let done2 = done.insert(c);
    lemma_subset_state_step(a, rep[current], c);
    assert(e == subset_edge(a, rep[current], c));
    assert(reached(d, current));
    lemma_reached_more(d, d2, e);
    if d.states.contains(to) {
        assert(states_explored(a, d2, rep));
        assert forall|x: Edge| #[trigger] d2.edges.contains(x) implies edge_explored(
            a,
            d2,
            rep,
            pending,
            true,
            current,
            done2,
            x,
        ) by {
            if x != e {
                assert(d.edges.contains(x));
                assert(edge_explored(a, d, rep, pending, true, current, done, x));
                let xc = choose|xc: char|
                    a.alphabet().contains(xc) && x == #[trigger] subset_edge(a, rep[x.from], xc) && (
                    x.from == current ==> done.contains(xc));
                assert(a.alphabet().contains(xc) && x == subset_edge(a, rep[x.from], xc) && (x.from
                    == current ==> done2.contains(xc)));
            } else {
                assert(a.alphabet().contains(c) && e == subset_edge(a, rep[e.from], c) && (e.from
                    == current ==> done2.contains(c)));
            }
        }
        assert forall|n: Seq<char>, k: char|
            #![trigger d2.states.contains(n), a.alphabet().contains(k)]
            d2.states.contains(n) && a.alphabet().contains(k) && !waits(pending, n) && (n == current
                ==> done2.contains(k)) implies d2.edges.contains(subset_edge(a, rep[n], k)) by {
            if n == current && k == c {
            } else {
                assert(d.states.contains(n) && a.alphabet().contains(k));
                assert(d.edges.contains(subset_edge(a, rep[n], k)));
            }
        }
    } else {
        let rep2 = rep.insert(to, next);
        let pending2 = pending.push(next);
        assert(rep2.dom() =~= d2.states);
        assert forall|n: Seq<char>| #[trigger] d2.states.contains(n) implies subset_state(a, rep2[n])
            && encode(rep2[n]) == n && (d2.finals.contains(n) <==> !rep2[n].disjoint(a.finals)) by {
            if n != to {
                assert(d.states.contains(n));
            }
        }
        assert(states_explored(a, d2, rep2));
        assert forall|n: Seq<char>| waits(pending2, n) <==> (waits(pending, n) || n == to) by {
            if waits(pending2, n) {
                let i = choose|i: int| 0 <= i < pending2.len() && encode(#[trigger] pending2[i]) == n;
                if i < pending.len() {
                    assert(pending[i] == pending2[i]);
                }
            }
            if waits(pending, n) {
                let i = choose|i: int| 0 <= i < pending.len() && encode(#[trigger] pending[i]) == n;
                assert(pending2[i] == pending[i]);
            }
            if n == to {
                assert(encode(pending2[pending.len() as int]) == to);
            }
        }
        assert forall|i: int| 0 <= i < pending2.len() implies d2.states.contains(
            encode(#[trigger] pending2[i]),
        ) && rep2[encode(pending2[i])] == pending2[i] by {
            if i < pending.len() {
                assert(pending[i] == pending2[i]);
                assert(d.states.contains(encode(pending[i])));
            }
        }
        assert forall|i: int, j: int| 0 <= i < j < pending2.len() implies encode(
            #[trigger] pending2[i],
        ) != encode(#[trigger] pending2[j]) by {
            assert(pending[i] == pending2[i]);
            assert(d.states.contains(encode(pending[i])));
            if j < pending.len() {
                assert(pending[j] == pending2[j]);
            }
        }
        assert(pending_explored(d2, rep2, pending2));
        assert forall|x: Edge| #[trigger] d2.edges.contains(x) implies edge_explored(
            a,
            d2,
            rep2,
            pending2,
            true,
            current,
            done2,
            x,
        ) by {
            if x != e {
                assert(d.edges.contains(x));
                assert(edge_explored(a, d, rep, pending, true, current, done, x));
                let xc = choose|xc: char|
                    a.alphabet().contains(xc) && x == #[trigger] subset_edge(a, rep[x.from], xc) && (
                    x.from == current ==> done.contains(xc));
                assert(rep2[x.from] == rep[x.from]);
                assert(a.alphabet().contains(xc) && x == subset_edge(a, rep2[x.from], xc) && (x.from
                    == current ==> done2.contains(xc)));
            } else {
                assert(rep2[current] == rep[current]);
                assert(a.alphabet().contains(c) && e == subset_edge(a, rep2[e.from], c) && (e.from
                    == current ==> done2.contains(c)));
            }
        }
        assert forall|n: Seq<char>, k: char|
            #![trigger d2.states.contains(n), a.alphabet().contains(k)]
            d2.states.contains(n) && a.alphabet().contains(k) && !waits(pending2, n) && (n == current
                ==> done2.contains(k)) implies d2.edges.contains(subset_edge(a, rep2[n], k)) by {
            assert(n != to);
            assert(rep2[n] == rep[n]);
            if n == current && k == c {
            } else {
                assert(d.states.contains(n) && a.alphabet().contains(k));
                assert(d.edges.contains(subset_edge(a, rep[n], k)));
            }
        }
    }
}

/// When every character of the alphabet is done, the set that was being
/// explored is explored.
proof fn lemma_explored_finish(
    a: Automaton,
    d: Automaton,
    rep: Map<Seq<char>, Set<Seq<char>>>,
    pending: Seq<Set<Seq<char>>>,
    current: Seq<char>,
    done: Set<char>,
)
    requires
        explored(a, d, rep, pending, true, current, done),
        done == a.alphabet(),
    ensures
        explored(a, d, rep, pending, false, Seq::empty(), Set::empty()),
{
    assert forall|e: Edge| #[trigger] d.edges.contains(e) implies edge_explored(
        a,
        d,
        rep,
        pending,
        false,
        Seq::empty(),
        Set::empty(),
        e,
    ) by {
        assert(edge_explored(a, d, rep, pending, true, current, done, e));
    }
}

/// Once no set waits, the automaton is deterministic and complete, and its
/// initial state, its accepting states and the ends of its transitions are
/// among its states.
proof fn lemma_explored_deterministic(
    a: Automaton,
    d: Automaton,
    rep: Map<Seq<char>, Set<Seq<char>>>,
)
    requires
        explored(a, d, rep, Seq::empty(), false, Seq::empty(), Set::empty()),
    ensures
        d.deterministic(),
        d.complete(a.alphabet()),
        d.finals.subset_of(d.states),
        d.initial matches Some(i) && d.states.contains(i),
        forall|e: Edge| #[trigger]
            d.edges.contains(e) ==> d.states.contains(e.from) && d.states.contains(e.to),
{
    let none = Seq::<Set<Seq<char>>>::empty();
    assert forall|e: Edge| #[trigger] d.edges.contains(e) implies e.when != Symbol::Epsilon
        && d.states.contains(e.from) && d.states.contains(e.to) by {
        assert(edge_explored(a, d, rep, none, false, Seq::empty(), Set::empty(), e));
    }
    assert forall|e1: Edge, e2: Edge|
        #![trigger d.edges.contains(e1), d.edges.contains(e2)]
        d.edges.contains(e1) && d.edges.contains(e2) && e1.from == e2.from && e1.when
            == e2.when implies e1.to == e2.to by {
        assert(edge_explored(a, d, rep, none, false, Seq::empty(), Set::empty(), e1));
        assert(edge_explored(a, d, rep, none, false, Seq::empty(), Set::empty(), e2));
    }
    assert forall|s: Seq<char>, c: char|
        d.states.contains(s) && a.alphabet().contains(c) implies #[trigger] d.has_transition(
        s,
        c,
    ) by {
        let e = subset_edge(a, rep[s], c);
        assert(d.edges.contains(e));
        assert(edge_explored(a, d, rep, none, false, Seq::empty(), Set::empty(), e));
        assert(d.states.contains(e.to) && d.edges.contains(
            Edge { from: s, when: Symbol::Symbol(c), to: e.to },
        ));
    }
}

/// Whatever waits, the automaton under construction has nothing that the
/// automaton of the subset construction has not.
proof fn lemma_explored_within(
    a: Automaton,
    d: Automaton,
    rep: Map<Seq<char>, Set<Seq<char>>>,
    pending: Seq<Set<Seq<char>>>,
)
    requires
        a.initial is Some,
        explored(a, d, rep, pending, false, Seq::empty(), Set::empty()),
    ensures
        d.initial == determinized(a).initial,
        d.states.subset_of(determinized(a).states),
        d.finals.subset_of(determinized(a).finals),
        d.edges.subset_of(determinized(a).edges),
{
    let goal = determinized(a);
    assert forall|n: Seq<char>| d.states.contains(n) implies goal.states.contains(n) by {
        assert(subset_state(a, rep[n]) && n == encode(rep[n]));
    }
    assert forall|n: Seq<char>| d.finals.contains(n) implies goal.finals.contains(n) by {
        assert(d.states.contains(n));
        assert(subset_state(a, rep[n]) && !rep[n].disjoint(a.finals) && n == encode(rep[n]));
    }
    assert forall|e: Edge| d.edges.contains(e) implies goal.edges.contains(e) by {
        assert(edge_explored(a, d, rep, pending, false, Seq::empty(), Set::empty(), e));
        let c = choose|c: char|
            a.alphabet().contains(c) && e == #[trigger] subset_edge(a, rep[e.from], c);
        assert(subset_state(a, rep[e.from]) && a.alphabet().contains(c) && e == subset_edge(
            a,
            rep[e.from],
            c,
        ));
    }
}

/// Once no set waits, every state stands for one of the sets of `a`.
proof fn lemma_explored_represented(
    a: Automaton,
    d: Automaton,
    rep: Map<Seq<char>, Set<Seq<char>>>,
)
    requires
        explored(a, d, rep, Seq::empty(), false, Seq::empty(), Set::empty()),
    ensures
        represented(a, d),
{
    reveal(stands_for);
    assert forall|name: Seq<char>| #[trigger] d.states.contains(name) implies exists|
        set: Set<Seq<char>>,
    | stands_for(a, d, name, set) by {
        let set = rep[name];
        assert forall|c: char| #[trigger] a.alphabet().contains(c) implies d.edges.contains(
            subset_edge(a, set, c),
        ) by {
            assert(d.states.contains(name) && a.alphabet().contains(c));
        }
        assert(stands_for(a, d, name, set));
    }
}

/// Once no set waits, every set that `a` may be in is a state, and stands
/// for itself, provided that the names of the sets are unambiguous.
proof fn lemma_explored_reaches(
    a: Automaton,
    d: Automaton,
    rep: Map<Seq<char>, Set<Seq<char>>>,
    word: Seq<char>,
)
    requires
        explored(a, d, rep, Seq::empty(), false, Seq::empty(), Set::empty()),
        unambiguous(a),
        over(word, a.alphabet()),
    ensures
        d.states.contains(encode(a.run(a.start(), word))),
        rep[encode(a.run(a.start(), word))] == a.run(a.start(), word),
    decreases word.len(),
{
    let none = Seq::<Set<Seq<char>>>::empty();
    let set = a.run(a.start(), word);
    assert(subset_state(a, set));
    if word.len() == 0 {
        assert(subset_state(a, rep[encode(set)]));
    } else {
        let shorter = word.drop_last();
        let c = word.last();
        assert(over(shorter, a.alphabet()));
        lemma_explored_reaches(a, d, rep, shorter);
        let before = a.run(a.start(), shorter);
        let n = encode(before);
        assert(d.states.contains(n) && a.alphabet().contains(c));
        let e = subset_edge(a, rep[n], c);
        assert(d.edges.contains(e));
        assert(edge_explored(a, d, rep, none, false, Seq::empty(), Set::empty(), e));
        assert(e.to == encode(set));
        assert(subset_state(a, rep[encode(set)]));
    }
}

/// Once no set waits, the automaton is the one of the subset construction,
/// provided that the names of the sets are unambiguous.
proof fn lemma_explored_exact(a: Automaton, d: Automaton, rep: Map<Seq<char>, Set<Seq<char>>>)
    requires
        a.initial is Some,
        explored(a, d, rep, Seq::empty(), false, Seq::empty(), Set::empty()),
        unambiguous(a),
    ensures
        d == determinized(a),
{
    let none = Seq::<Set<Seq<char>>>::empty();
    let goal = determinized(a);
    assert forall|n: Seq<char>| d.states.contains(n) <==> goal.states.contains(n) by {
        if d.states.contains(n) {
            assert(subset_state(a, rep[n]) && n == encode(rep[n]));
        }
        if goal.states.contains(n) {
            let s = choose|s: Set<Seq<char>>| #[trigger] subset_state(a, s) && n == encode(s);
            let word = choose|word: Seq<char>|
                over(word, a.alphabet()) && s == #[trigger] a.run(a.start(), word);
            lemma_explored_reaches(a, d, rep, word);
        }
    }
    assert(d.states =~= goal.states);
    assert forall|n: Seq<char>| d.finals.contains(n) <==> goal.finals.contains(n) by {
        if d.finals.contains(n) {
            assert(d.states.contains(n));
            assert(subset_state(a, rep[n]) && !rep[n].disjoint(a.finals) && n == encode(rep[n]));
        }
        if goal.finals.contains(n) {
            let s = choose|s: Set<Seq<char>>| #[trigger]
                subset_state(a, s) && !s.disjoint(a.finals) && n == encode(s);
            let word = choose|word: Seq<char>|
                over(word, a.alphabet()) && s == #[trigger] a.run(a.start(), word);
            lemma_explored_reaches(a, d, rep, word);
            assert(d.states.contains(n));
        }
    }
    assert(d.finals =~= goal.finals);
    assert forall|e: Edge| d.edges.contains(e) <==> goal.edges.contains(e) by {
        if d.edges.contains(e) {
            assert(edge_explored(a, d, rep, none, false, Seq::empty(), Set::empty(), e));
            let c = choose|c: char|
                a.alphabet().contains(c) && e == #[trigger] subset_edge(a, rep[e.from], c);
            assert(subset_state(a, rep[e.from]) && a.alphabet().contains(c) && e == subset_edge(
                a,
                rep[e.from],
                c,
            ));
        }
        if goal.edges.contains(e) {
            let (s, c) = choose|s: Set<Seq<char>>, c: char|
                subset_state(a, s) && a.alphabet().contains(c) && e == #[trigger] subset_edge(a, s, c);
            let word = choose|word: Seq<char>|
                over(word, a.alphabet()) && s == #[trigger] a.run(a.start(), word);
            lemma_explored_reaches(a, d, rep, word);
            assert(d.states.contains(encode(s)) && a.alphabet().contains(c));
            assert(d.edges.contains(subset_edge(a, rep[encode(s)], c)));
        }
    }
    assert(d.edges =~= goal.edges);
}

/// The sets of a listing.
spec fn sets_of(work: Seq<StateSet>) -> Seq<Set<Seq<char>>> {
    Seq::new(work.len(), |i: int| work[i]@)
}

/// Determinizes `nfae` by the subset construction.
///
/// The result is deterministic and has, from each of its states, a
/// transition on every character of the alphabet of `nfae`; the empty set
/// of states is a state like any other, which the automaton never leaves.
/// Each state is named after a set that it stands for and is reached from
/// the initial state, and the result has nothing that the automaton of the
/// subset construction has not. Where
/// different sets have different names, it is exactly that automaton, and
/// accepts the words that `nfae` accepts: following a word through the
/// result, one transition for each character, ends in an accepting state
/// exactly if a walk of `nfae` from its initial state to an accepting state
/// reads the word.
pub fn nfae_to_dfae(nfae: &NFAe) -> (dfa: NFAe)
    requires
        nfae.wf(),
    ensures
        dfa.wf(),
        dfa@.closed(),
        dfa@.deterministic(),
        dfa@.complete(nfae@.alphabet()),
        dfa@.initial == determinized(nfae@).initial,
        dfa@.states.subset_of(determinized(nfae@).states),
        dfa@.finals.subset_of(determinized(nfae@).finals),
        dfa@.edges.subset_of(determinized(nfae@).edges),
        represented(nfae@, dfa@),
        connected(dfa@),
        unambiguous(nfae@) ==> dfa@ == determinized(nfae@),
        unambiguous(nfae@) ==> forall|word: Seq<char>| #[trigger]
            dfa@.accepts(word) == nfae@.accepts(word),
        unambiguous(nfae@) && nfae@.closed() ==> forall|word: Seq<char>| #[trigger]
            steps_to_accept(dfa@, word) <==> walks_to_accept(nfae@, word),
{
    let mut dfa = NFAe::new();
    let abc = nfae.alphabet();
    let ghost a = nfae@;
    proof {
        dfa.lemma_finite();
    }
    let start = match nfae.get_initial() {
        Some(state) => nfae.closure(state),
        None => {
            proof {
                assert forall|word: Seq<char>| unambiguous(a) implies #[trigger] dfa@.accepts(word)
                    == a.accepts(word) by {
                    lemma_determinized_language(a, word);
                }
                assert forall|word: Seq<char>| !steps_to_accept(dfa@, word) && !walks_to_accept(
                    a,
                    word,
                ) by {}
            }
            return dfa;
        },
    };
    let name = encode_set(&start);
    dfa.add_state(name.clone(), nfae.accepts_in(&start));
    dfa.set_initial(name);
    let mut work: Vec<StateSet> = Vec::new();
    work.push(start);
    let ghost mut rep: Map<Seq<char>, Set<Seq<char>>> = Map::empty().insert(
        encode(a.start()),
        a.start(),
    );
    proof {
        nfae.lemma_finite();
        lemma_universe(a);
        lemma_subset_state_start(a);
        assert(rep.dom() =~= dfa@.states);
        assert(sets_of(work@)[0] == a.start());
        lemma_reached_first(dfa@);
        assert(dfa@.states =~= set![encode(a.start())]);
        assert(explored(a, dfa@, rep, sets_of(work@), false, Seq::empty(), Set::empty()));
    }
    while work.len() > 0
        invariant
            nfae.wf(),
            dfa.wf(),
            a == nfae@,
            a.initial is Some,
            increasing(abc@),
            abc@.to_set() == a.alphabet(),
            universe(a).finite(),
            forall|s: Set<Seq<char>>| #[trigger] subset_state(a, s) ==> universe(a).contains(encode(s)),
            forall|i: int| 0 <= i < work@.len() ==> (#[trigger] work@[i]).wf(),
            explored(a, dfa@, rep, sets_of(work@), false, Seq::empty(), Set::empty()),
        decreases universe(a).len() - dfa@.states.len(), work@.len(),
    {
        let ghost pending = sets_of(work@);
        let ghost size_before = dfa@.states.len();
        let ghost work_before = work@.len();
        proof {
            lemma_states_within(a, dfa@, rep);
            dfa.lemma_finite();
            lemma_len_subset(dfa@.states, universe(a));
            lemma_explored_take(a, dfa@, rep, pending);
        }
        let subset = work.pop().unwrap();
        let from = encode_set(&subset);
        proof {
            assert(sets_of(work@) =~= pending.drop_last());
        }
        let mut k: usize = 0;
        let ghost mut done: Set<char> = Set::empty();
        while k < abc.len()
            invariant
                nfae.wf(),
                dfa.wf(),
                a == nfae@,
                a.initial is Some,
                increasing(abc@),
                abc@.to_set() == a.alphabet(),
                universe(a).finite(),
                forall|s: Set<Seq<char>>| #[trigger]
                    subset_state(a, s) ==> universe(a).contains(encode(s)),
                forall|i: int| 0 <= i < work@.len() ==> (#[trigger] work@[i]).wf(),
                subset.wf(),
                from@ == encode(subset@),
                rep[from@] == subset@,
                k <= abc@.len(),
                done == abc@.take(k as int).to_set(),
                explored(a, dfa@, rep, sets_of(work@), true, from@, done),
                size_before <= universe(a).len(),
                size_before <= dfa@.states.len(),
                work@.len() - (work_before - 1) == dfa@.states.len() - size_before,
            decreases abc@.len() - k,
        {
            let c = abc[k];
            let next = nfae.step(&subset, c);
            let to = encode_set(&next);
            let ghost d = dfa@;
            let ghost pending_now = sets_of(work@);
            let ghost rep_now = rep;
            proof {
                assert(abc@.to_set().contains(abc@[k as int]));
                dfa.lemma_finite();
            }
            if !dfa.has_state(&to) {
                dfa.add_state(to.clone(), nfae.accepts_in(&next));
                work.push(next);
                proof {
                    rep = rep.insert(to@, next@);
                    assert(sets_of(work@) =~= pending_now.push(next@));
                }
            }
            dfa.add_transition(&from, &to, Symbol::Symbol(c));
            proof {
                lemma_explored_add(a, d, rep_now, pending_now, from@, done, c, dfa@);
                done = done.insert(c);
                assert(abc@.take(k + 1).to_set() =~= abc@.take(k as int).to_set().insert(c)) by {
                    assert(abc@.take(k + 1) =~= abc@.take(k as int).push(c));
                    abc@.take(k as int).lemma_push_to_set_commute(c);
                }
            }
            k += 1;
        }
        proof {
            assert(abc@.take(abc@.len() as int) =~= abc@);
            lemma_explored_finish(a, dfa@, rep, sets_of(work@), from@, done);
            lemma_states_within(a, dfa@, rep);
            dfa.lemma_finite();
            lemma_len_subset(dfa@.states, universe(a));
        }
    }
    proof {
        assert(sets_of(work@) =~= Seq::<Set<Seq<char>>>::empty());
        dfa.lemma_finite();
        lemma_explored_deterministic(a, dfa@, rep);
        lemma_explored_within(a, dfa@, rep, Seq::empty());
        lemma_explored_represented(a, dfa@, rep);
        if unambiguous(a) {
            lemma_explored_exact(a, dfa@, rep);
            assert forall|word: Seq<char>| #[trigger] dfa@.accepts(word) == a.accepts(word) by {
                lemma_determinized_language(a, word);
            }
            if a.closed() {
                assert forall|word: Seq<char>| #[trigger]
                    steps_to_accept(dfa@, word) <==> walks_to_accept(a, word) by {
                    lemma_accepts_is_steps(dfa@, word);
                    lemma_accepts_is_walk(a, word);
                }
            }
        }
    }
    dfa
}

/// The states of the automaton under construction are in the universe.
proof fn lemma_states_within(a: Automaton, d: Automaton, rep: Map<Seq<char>, Set<Seq<char>>>)
    requires
        states_explored(a, d, rep),
        forall|s: Set<Seq<char>>| #[trigger] subset_state(a, s) ==> universe(a).contains(encode(s)),
    ensures
        d.states.subset_of(universe(a)),
{
    assert forall|n: Seq<char>| d.states.contains(n) implies universe(a).contains(n) by {
        assert(subset_state(a, rep[n]) && encode(rep[n]) == n);
    }
}

} // verus!
