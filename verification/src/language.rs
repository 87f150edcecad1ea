//! The deterministic automaton of the subset construction accepts the words
//! that the automaton it was made from accepts.

use vstd::prelude::*;
use crate::encoding::encode;
use crate::model::Automaton;
use crate::subset::{
    determinized, over, subset_edge, subset_state, unambiguous, lemma_subset_state_start,
    lemma_subset_state_step,
};
use crate::symbol::Symbol;
use crate::transition::Edge;

verus! {

/// From no state, no state is reached.
pub proof fn lemma_run_from_nothing(a: Automaton, word: Seq<char>)
    ensures
        a.run(Set::empty(), word) == Set::<Seq<char>>::empty(),
    decreases word.len(),
{
    if word.len() > 0 {
        lemma_run_from_nothing(a, word.drop_last());
        lemma_step_from_nothing(a, word.last());
    }
}

/// From no state, a character leads to no state.
pub proof fn lemma_step_from_nothing(a: Automaton, c: char)
    ensures
        a.step(Set::empty(), c) == Set::<Seq<char>>::empty(),
{
    assert(a.move_on(Set::empty(), c) =~= Set::<Seq<char>>::empty());
    assert(Set::<Seq<char>>::empty().intersect(a.states) =~= Set::<Seq<char>>::empty());
    assert(a.reach_from(Set::<Seq<char>>::empty()) =~= Set::<Seq<char>>::empty());
}

/// A character outside the alphabet leads to no state.
pub proof fn lemma_step_outside_alphabet(a: Automaton, from: Set<Seq<char>>, c: char)
    requires
        !a.alphabet().contains(c),
    ensures
        a.step(from, c) == Set::<Seq<char>>::empty(),
{
    assert forall|t: Seq<char>| !a.move_on(from, c).contains(t) by {
        if a.move_on(from, c).contains(t) {
            let s = choose|s: Seq<char>|
                from.contains(s) && #[trigger] a.edges.contains(
                    Edge { from: s, when: Symbol::Symbol(c), to: t },
                );
            let e = Edge { from: s, when: Symbol::Symbol(c), to: t };
            assert(a.edges.contains(e) && e.when == Symbol::Symbol(c));
        }
    }
    assert(a.move_on(from, c) =~= Set::<Seq<char>>::empty());
    lemma_step_from_nothing(a, c);
}

/// A word with a character outside the alphabet leads to no state.
pub proof fn lemma_run_outside_alphabet(a: Automaton, from: Set<Seq<char>>, word: Seq<char>)
    requires
        !over(word, a.alphabet()),
    ensures
        a.run(from, word) == Set::<Seq<char>>::empty(),
    decreases word.len(),
{
    if word.len() > 0 {
        let shorter = word.drop_last();
        if a.alphabet().contains(word.last()) {
            assert(!over(shorter, a.alphabet())) by {
                if over(shorter, a.alphabet()) {
                    assert forall|i: int| 0 <= i < word.len() implies a.alphabet().contains(
                        #[trigger] word[i],
                    ) by {
                        if i < shorter.len() {
                            assert(shorter[i] == word[i]);
                        }
                    }
                }
            }
            lemma_run_outside_alphabet(a, from, shorter);
            lemma_step_from_nothing(a, word.last());
        } else {
            lemma_step_outside_alphabet(a, a.run(from, shorter), word.last());
        }
    }
}

/// Where no transition is an epsilon transition, a state reaches only
/// itself.
pub proof fn lemma_reach_without_epsilon(d: Automaton, seeds: Set<Seq<char>>)
    requires
        forall|e: Edge| #[trigger] d.edges.contains(e) ==> e.when != Symbol::Epsilon,
    ensures
        d.reach_from(seeds) == seeds,
{
    assert forall|t: Seq<char>| d.reach_from(seeds).contains(t) implies seeds.contains(t) by {
        let s = choose|s: Seq<char>| seeds.contains(s) && #[trigger] d.eps_reaches(s, t);
        let p = choose|path: Seq<Seq<char>>| #[trigger]
            d.eps_path(path) && path.first() == s && path.last() == t;
        if p.len() > 1 {
            assert(d.eps_edge(p[0int], p[0int + 1]));
        }
    }
    d.lemma_reach_is_closed(seeds);
    assert(d.reach_from(seeds) =~= seeds);
}

/// The deterministic automaton goes from the name of a set, on a character
/// of the alphabet, to the name of the set that comes next.
pub proof fn lemma_determinized_step(a: Automaton, set: Set<Seq<char>>, c: char)
    requires
        a.initial is Some,
        unambiguous(a),
        subset_state(a, set),
        a.alphabet().contains(c),
    ensures
        determinized(a).step(set![encode(set)], c) == set![encode(a.step(set, c))],
{
    let d = determinized(a);
    let from = set![encode(set)];
    let next = encode(a.step(set, c));
    lemma_subset_state_step(a, set, c);
    assert forall|t: Seq<char>| d.move_on(from, c).contains(t) <==> t == next by {
        if d.move_on(from, c).contains(t) {
            let s = choose|s: Seq<char>|
                from.contains(s) && #[trigger] d.edges.contains(
                    Edge { from: s, when: Symbol::Symbol(c), to: t },
                );
            let e = Edge { from: s, when: Symbol::Symbol(c), to: t };
            let (other, k) = choose|other: Set<Seq<char>>, k: char|
                subset_state(a, other) && a.alphabet().contains(k) && e == #[trigger] subset_edge(
                    a,
                    other,
                    k,
                );
            assert(other == set);
        }
        if t == next {
            let e = Edge { from: encode(set), when: Symbol::Symbol(c), to: t };
            assert(e == subset_edge(a, set, c));
            assert(d.edges.contains(e));
            assert(from.contains(encode(set)));
        }
    }
    assert(d.move_on(from, c) =~= set![next]);
    assert(d.states.contains(next));
    assert(set![next].intersect(d.states) =~= set![next]);
    assert forall|e: Edge| #[trigger] d.edges.contains(e) implies e.when != Symbol::Epsilon by {
        let (other, k) = choose|other: Set<Seq<char>>, k: char|
            subset_state(a, other) && a.alphabet().contains(k) && e == #[trigger] subset_edge(
                a,
                other,
                k,
            );
    }
    lemma_reach_without_epsilon(d, set![next]);
}

/// After a word over the alphabet, the deterministic automaton is in the
/// state named after the set that the other automaton may be in.
pub proof fn lemma_determinized_run(a: Automaton, word: Seq<char>)
    requires
        a.initial is Some,
        unambiguous(a),
        over(word, a.alphabet()),
    ensures
        determinized(a).run(determinized(a).start(), word) == set![
            encode(a.run(a.start(), word)),
        ],
        subset_state(a, a.run(a.start(), word)),
    decreases word.len(),
{
    let d = determinized(a);
    if word.len() == 0 {
        lemma_subset_state_start(a);
        let first = encode(a.start());
        assert(d.states.contains(first));
        assert forall|e: Edge| #[trigger] d.edges.contains(e) implies e.when != Symbol::Epsilon by {
            let (other, k) = choose|other: Set<Seq<char>>, k: char|
                subset_state(a, other) && a.alphabet().contains(k) && e == #[trigger] subset_edge(
                    a,
                    other,
                    k,
                );
        }
        lemma_reach_without_epsilon(d, set![first]);
        assert(a.run(a.start(), word) == a.start());
    } else {
        let shorter = word.drop_last();
        assert(over(shorter, a.alphabet()));
        assert(a.alphabet().contains(word[word.len() - 1]));
        lemma_determinized_run(a, shorter);
        lemma_determinized_step(a, a.run(a.start(), shorter), word.last());
        lemma_subset_state_step(a, a.run(a.start(), shorter), word.last());
    }
}

/// The deterministic automaton of the subset construction accepts a word
/// if and only if the automaton it was made from accepts it, provided that
/// different sets of states have different names.
pub proof fn lemma_determinized_language(a: Automaton, word: Seq<char>)
    requires
        unambiguous(a),
    ensures
        determinized(a).accepts(word) == a.accepts(word),
{
    let d = determinized(a);
    if a.initial is None {
        lemma_run_from_nothing(a, word);
    } else if over(word, a.alphabet()) {
        lemma_determinized_run(a, word);
        let set = a.run(a.start(), word);
        let name = encode(set);
        let at = d.run(d.start(), word);
        assert(at.contains(name));
        if d.accepts(word) {
            let n = choose|n: Seq<char>| at.contains(n) && d.finals.contains(n);
            let other = choose|other: Set<Seq<char>>| #[trigger]
                subset_state(a, other) && !other.disjoint(a.finals) && n == encode(other);
            assert(other == set);
        }
        if a.accepts(word) {
            assert(subset_state(a, set) && !set.disjoint(a.finals) && name == encode(set));
            assert(d.finals.contains(name));
        }
    } else {
        lemma_run_outside_alphabet(a, a.start(), word);
        lemma_run_outside_alphabet_determinized(a, word);
    }
}

/// The deterministic automaton has no other characters on its transitions
/// than those of the alphabet, so a word with another character leads it to
/// no state.
proof fn lemma_run_outside_alphabet_determinized(a: Automaton, word: Seq<char>)
    requires
        a.initial is Some,
        !over(word, a.alphabet()),
    ensures
        determinized(a).run(determinized(a).start(), word) == Set::<Seq<char>>::empty(),
{
    let d = determinized(a);
    assert forall|c: char| d.alphabet().contains(c) implies a.alphabet().contains(c) by {
        let e = choose|e: Edge| #[trigger] d.edges.contains(e) && e.when == Symbol::Symbol(c);
        let (other, k) = choose|other: Set<Seq<char>>, k: char|
            subset_state(a, other) && a.alphabet().contains(k) && e == #[trigger] subset_edge(
                a,
                other,
                k,
            );
    }
    assert(!over(word, d.alphabet())) by {
        if over(word, d.alphabet()) {
            assert forall|i: int| 0 <= i < word.len() implies a.alphabet().contains(
                #[trigger] word[i],
            ) by {
                assert(d.alphabet().contains(word[i]));
            }
        }
    }
    lemma_run_outside_alphabet(d, d.start(), word);
}

} // verus!
