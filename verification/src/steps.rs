//! Acceptance told in two other ways: by a walk from the initial state to an
//! accepting state, and, for a deterministic automaton, by following the
//! one transition on each character.

use vstd::prelude::*;
use crate::correct::lemma_thompson_language;
use crate::encoding::encode;
use crate::language::{
    lemma_determinized_language, lemma_reach_without_epsilon, lemma_run_from_nothing,
    lemma_step_from_nothing,
};
use crate::matching::denotes;
use crate::model::Automaton;
use crate::regex::RegularExpression;
use crate::subset::{
    determinized, subset_edge, subset_state, unambiguous, lemma_subset_state_start,
    lemma_subset_state_step,
};
use crate::symbol::Symbol;
use crate::thompson::{thompson, lemma_thompson_shape, lemma_thompson_unambiguous};
use crate::transition::Edge;
use crate::walk::{leads, lemma_run_is_walk};

verus! {

/// Some walk from the initial state to an accepting state reads `word`:
/// its characters are those on the transitions of the walk, the epsilon
/// transitions left out.
pub open spec fn walks_to_accept(a: Automaton, word: Seq<char>) -> bool {
    a.initial matches Some(first) && exists|last: Seq<char>|
        a.finals.contains(last) && #[trigger] leads(a.edges, first, word, last)
}

/// A closed automaton accepts a word exactly if a walk from its initial
/// state to an accepting state reads it.
pub proof fn lemma_accepts_is_walk(a: Automaton, word: Seq<char>)
    requires
        a.closed(),
    ensures
        a.accepts(word) <==> walks_to_accept(a, word),
{
    match a.initial {
        None => {
            lemma_run_from_nothing(a, word);
        },
        Some(first) => {
            let at = a.run(a.start(), word);
            if a.accepts(word) {
                let last = choose|last: Seq<char>| at.contains(last) && a.finals.contains(last);
                lemma_run_is_walk(a, first, word, last);
            }
            if walks_to_accept(a, word) {
                let last = choose|last: Seq<char>|
                    a.finals.contains(last) && #[trigger] leads(a.edges, first, word, last);
                lemma_run_is_walk(a, first, word, last);
                assert(at.contains(last));
            }
        },
    }
}

/// The state after `state` on `c`: the end of a transition from `state` on
/// `c`, if there is one.
pub open spec fn next_state(d: Automaton, state: Seq<char>, c: char) -> Option<Seq<char>> {
    if exists|to: Seq<char>|
        d.edges.contains(Edge { from: state, when: Symbol::Symbol(c), to: to }) {
        Some(
            choose|to: Seq<char>|
                d.edges.contains(Edge { from: state, when: Symbol::Symbol(c), to: to }),
        )
    } else {
        None
    }
}

/// The state in which following `word` from `state` ends, one transition
/// for each character; none if a transition is missing on the way.
pub open spec fn follow(d: Automaton, state: Seq<char>, word: Seq<char>) -> Option<Seq<char>>
    decreases word.len(),
{
    if word.len() == 0 {
        Some(state)
    } else {
        match follow(d, state, word.drop_last()) {
            Some(before) => next_state(d, before, word.last()),
            None => None,
        }
    }
}

/// Following `word` from the initial state ends in an accepting state.
pub open spec fn steps_to_accept(d: Automaton, word: Seq<char>) -> bool {
    d.initial matches Some(first) && (follow(d, first, word) matches Some(last)
        && d.finals.contains(last))
}

/// The states of `d` hold the initial state and the ends of the
/// transitions.
pub open spec fn holds_ends(d: Automaton) -> bool {
    &&& (d.initial matches Some(first) ==> d.states.contains(first))
    &&& forall|e: Edge| #[trigger] d.edges.contains(e) ==> d.states.contains(e.to)
}

/// A deterministic automaton goes from a state, on a character, to the one
/// state after it, or to none.
proof fn lemma_deterministic_step(d: Automaton, before: Seq<char>, c: char)
    requires
        d.deterministic(),
        holds_ends(d),
    ensures
        d.step(set![before], c) == (match next_state(d, before, c) {
            Some(to) => set![to],
            None => Set::<Seq<char>>::empty(),
        }),
        next_state(d, before, c) matches Some(to) ==> d.states.contains(to),
{
    let from = set![before];
    let entered = d.move_on(from, c);
    lemma_reach_without_epsilon(d, entered.intersect(d.states));
    match next_state(d, before, c) {
        None => {
            assert forall|t: Seq<char>| !entered.contains(t) by {
                if entered.contains(t) {
                    let s = choose|s: Seq<char>|
                        from.contains(s) && #[trigger] d.edges.contains(
                            Edge { from: s, when: Symbol::Symbol(c), to: t },
                        );
                    assert(d.edges.contains(Edge { from: before, when: Symbol::Symbol(c), to: t }));
                }
            }
            assert(entered.intersect(d.states) =~= Set::<Seq<char>>::empty());
        },
        Some(to) => {
            let e = Edge { from: before, when: Symbol::Symbol(c), to };
            assert(d.edges.contains(e));
            assert(from.contains(before));
            assert(entered.contains(to));
            assert forall|t: Seq<char>| entered.contains(t) implies t == to by {
                let s = choose|s: Seq<char>|
                    from.contains(s) && #[trigger] d.edges.contains(
                        Edge { from: s, when: Symbol::Symbol(c), to: t },
                    );
                let other = Edge { from: s, when: Symbol::Symbol(c), to: t };
                assert(d.edges.contains(other) && d.edges.contains(e));
            }
            assert(d.states.contains(e.to));
            assert(entered.intersect(d.states) =~= set![to]);
        },
    }
}

/// A deterministic automaton is, after a word, in the one state in which
/// following the word ends, or in none.
proof fn lemma_deterministic_run(d: Automaton, first: Seq<char>, word: Seq<char>)
    requires
        d.deterministic(),
        holds_ends(d),
        d.states.contains(first),
    ensures
        d.run(d.closure(first), word) == (match follow(d, first, word) {
            Some(last) => set![last],
            None => Set::<Seq<char>>::empty(),
        }),
        follow(d, first, word) matches Some(last) ==> d.states.contains(last),
    decreases word.len(),
{
    if word.len() == 0 {
        lemma_reach_without_epsilon(d, set![first]);
    } else {
        let shorter = word.drop_last();
        lemma_deterministic_run(d, first, shorter);
        match follow(d, first, shorter) {
            None => {
                lemma_step_from_nothing(d, word.last());
            },
            Some(before) => {
                lemma_deterministic_step(d, before, word.last());
            },
        }
    }
}

/// A deterministic automaton accepts a word exactly if following the word
/// from the initial state, one transition for each character, ends in an
/// accepting state.
pub proof fn lemma_accepts_is_steps(d: Automaton, word: Seq<char>)
    requires
        d.deterministic(),
        holds_ends(d),
    ensures
        d.accepts(word) <==> steps_to_accept(d, word),
{
    match d.initial {
        None => {
            lemma_run_from_nothing(d, word);
        },
        Some(first) => {
            lemma_deterministic_run(d, first, word);
            let at = d.run(d.start(), word);
            if d.accepts(word) {
                let last = choose|last: Seq<char>| at.contains(last) && d.finals.contains(last);
            }
            if steps_to_accept(d, word) {
                let last = follow(d, first, word)->Some_0;
                assert(at.contains(last));
            }
        },
    }
}

/// The deterministic automaton of the subset construction is
/// deterministic, and its states hold its initial state and the ends of its
/// transitions, where different sets have different names.
pub proof fn lemma_determinized_shape(a: Automaton)
    requires
        unambiguous(a),
    ensures
        determinized(a).deterministic(),
        holds_ends(determinized(a)),
{
    let d = determinized(a);
    if a.initial is Some {
        lemma_subset_state_start(a);
        assert forall|e: Edge| #[trigger] d.edges.contains(e) implies e.when != Symbol::Epsilon
            && d.states.contains(e.to) by {
            let (s, c) = choose|s: Set<Seq<char>>, c: char|
                subset_state(a, s) && a.alphabet().contains(c) && e == #[trigger] subset_edge(a, s, c);
            lemma_subset_state_step(a, s, c);
            assert(subset_state(a, a.step(s, c)) && e.to == encode(a.step(s, c)));
        }
        assert forall|e1: Edge, e2: Edge|
            #![trigger d.edges.contains(e1), d.edges.contains(e2)]
            d.edges.contains(e1) && d.edges.contains(e2) && e1.from == e2.from && e1.when
                == e2.when implies e1.to == e2.to by {
            let (s1, c1) = choose|s: Set<Seq<char>>, c: char|
                subset_state(a, s) && a.alphabet().contains(c) && e1 == #[trigger] subset_edge(a, s, c);
            let (s2, c2) = choose|s: Set<Seq<char>>, c: char|
                subset_state(a, s) && a.alphabet().contains(c) && e2 == #[trigger] subset_edge(a, s, c);
            assert(s1 == s2);
        }
        assert(d.states.contains(encode(a.start())));
    }
}

/// Following a word through the deterministic automaton of the subset
/// construction ends in an accepting state exactly if a walk of the
/// automaton it was made from, from the initial state to an accepting
/// state, reads the word; provided that the latter is closed and that
/// different sets have different names.
pub proof fn lemma_determinized_steps(a: Automaton, word: Seq<char>)
    requires
        a.closed(),
        unambiguous(a),
    ensures
        steps_to_accept(determinized(a), word) <==> walks_to_accept(a, word),
{
    lemma_determinized_shape(a);
    lemma_accepts_is_steps(determinized(a), word);
    lemma_determinized_language(a, word);
    lemma_accepts_is_walk(a, word);
}

/// For every regular expression and every word, these are the same:
/// following the word through the deterministic automaton ends in an
/// accepting state; a walk of the automaton with epsilon transitions, from
/// the initial state to the accepting state, reads the word; the expression
/// denotes the word.
pub proof fn lemma_regex_steps(regex: RegularExpression, word: Seq<char>)
    ensures
        steps_to_accept(determinized(thompson(regex)), word) <==> walks_to_accept(
            thompson(regex),
            word,
        ),
        walks_to_accept(thompson(regex), word) <==> denotes(regex, word),
{
    lemma_thompson_shape(regex);
    lemma_thompson_unambiguous(regex);
    lemma_determinized_steps(thompson(regex), word);
    lemma_accepts_is_walk(thompson(regex), word);
    lemma_thompson_language(regex, word);
}

} // verus!
