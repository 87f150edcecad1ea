//! How far the counter of automatic names goes while a part is built.

use vstd::prelude::*;
use vstd::set_lib::lemma_len_subset;
use crate::model::Automaton;
use crate::regex::RegularExpression;
use crate::state::{state_name, lemma_state_name_injective};
use crate::thompson::{built, eps, fresh_states, with_fresh, lemma_with_fresh};

verus! {

/// The states that bear an automatic name with a number from `from` on.
pub open spec fn taken(states: Set<Seq<char>>, from: nat) -> Set<Seq<char>> {
    states.filter(|s: Seq<char>| exists|j: nat| j >= from && s == #[trigger] state_name(j))
}

/// The counter and the number of automatic names that are taken from it
/// on: no name that is given later has a number above this plus the number
/// of names given before it.
pub open spec fn reach(states: Set<Seq<char>>, counter: nat) -> nat {
    counter + taken(states, counter).len()
}

/// Where the names with the numbers from `from` up to `to` are all taken,
/// there are `to - from` more names taken from `from` on than from `to` on.
proof fn lemma_taken_range(states: Set<Seq<char>>, from: nat, to: nat)
    requires
        states.finite(),
        from <= to,
        forall|j: nat| from <= j < to ==> states.contains(#[trigger] state_name(j)),
    ensures
        taken(states, from).len() == (to - from) + taken(states, to).len(),
    decreases to - from,
{
    if from < to {
        lemma_taken_range(states, from + 1, to);
        let more = taken(states, from);
        let less = taken(states, from + 1);
        let name = state_name(from);
        assert(states.contains(name));
        assert(!less.contains(name)) by {
            if less.contains(name) {
                let j = choose|j: nat| j >= from + 1 && name == #[trigger] state_name(j);
                lemma_state_name_injective(from, j);
            }
        }
        assert forall|s: Seq<char>| more.contains(s) <==> less.insert(name).contains(s) by {
            if more.contains(s) && s != name {
                let j = choose|j: nat| j >= from && s == #[trigger] state_name(j);
                assert(j >= from + 1 && s == state_name(j));
            }
            if less.contains(s) {
                let j = choose|j: nat| j >= from + 1 && s == #[trigger] state_name(j);
                assert(j >= from && s == state_name(j));
            }
            if s == name {
                assert(from >= from && s == state_name(from));
            }
        }
        assert(more =~= less.insert(name));
        lemma_len_subset(less, states);
    }
}

/// A fresh state raises the reach by one, and its number is not above the
/// reach before.
proof fn lemma_fresh_reach(a: Automaton, counter: nat)
    requires
        a.states.finite(),
    ensures
        with_fresh(a, counter).1 <= reach(a.states, counter),
        reach(with_fresh(a, counter).0.states, with_fresh(a, counter).1) == reach(a.states, counter)
            + 1,
{
    lemma_with_fresh(a, counter);
    let k = with_fresh(a, counter).1;
    let name = state_name(k);
    let after = with_fresh(a, counter).0.states;
    lemma_taken_range(a.states, counter, k);
    let old = taken(a.states, k);
    let new = taken(after, k);
    assert(!old.contains(name));
    assert forall|s: Seq<char>| new.contains(s) <==> old.insert(name).contains(s) by {
        if s == name {
            assert(k >= k && s == state_name(k));
        }
    }
    assert(new =~= old.insert(name));
    lemma_len_subset(old, a.states);
}

/// Building a part raises the reach by the number of states that it adds.
proof fn lemma_built_reach(
    regex: RegularExpression,
    a: Automaton,
    counter: nat,
    initial: Seq<char>,
    end: Seq<char>,
)
    requires
        a.states.finite(),
    ensures
        ({
            let after = built(regex, a, counter, initial, end);
            &&& after.0.states.finite()
            &&& reach(after.0.states, after.1) == reach(a.states, counter) + fresh_states(regex)
        }),
    decreases regex,
{
    match regex {
        RegularExpression::Epsilon => {},
        RegularExpression::Symbol(c) => {},
        RegularExpression::Group(inner) => {
            lemma_built_reach(*inner, a, counter, initial, end);
        },
        RegularExpression::Union(x, y) => {
            let a1 = with_fresh(a, counter);
            lemma_with_fresh(a, counter);
            lemma_fresh_reach(a, counter);
            let a2 = with_fresh(a1.0, a1.1);
            lemma_with_fresh(a1.0, a1.1);
            lemma_fresh_reach(a1.0, a1.1);
            let a3 = with_fresh(a2.0, a2.1);
            lemma_with_fresh(a2.0, a2.1);
            lemma_fresh_reach(a2.0, a2.1);
            let a4 = with_fresh(a3.0, a3.1);
            lemma_with_fresh(a3.0, a3.1);
            lemma_fresh_reach(a3.0, a3.1);
            let x_start = state_name(a1.1);
            let x_end = state_name(a2.1);
            let y_start = state_name(a3.1);
            let y_end = state_name(a4.1);
            let frame = a4.0.with_edge(eps(initial, x_start)).with_edge(eps(initial, y_start)).with_edge(
                eps(x_end, end),
            ).with_edge(eps(y_end, end));
            lemma_built_reach(*x, frame, a4.1, x_start, x_end);
            let left = built(*x, frame, a4.1, x_start, x_end);
            lemma_built_reach(*y, left.0, left.1, y_start, y_end);
        },
        RegularExpression::Concat(x, y) => {
            let a1 = with_fresh(a, counter);
            lemma_with_fresh(a, counter);
            lemma_fresh_reach(a, counter);
            let middle = state_name(a1.1);
            lemma_built_reach(*x, a1.0, a1.1, initial, middle);
            let left = built(*x, a1.0, a1.1, initial, middle);
            lemma_built_reach(*y, left.0, left.1, middle, end);
        },
        RegularExpression::Closure(inner) => {
            let a1 = with_fresh(a, counter);
            lemma_with_fresh(a, counter);
            lemma_fresh_reach(a, counter);
            let a2 = with_fresh(a1.0, a1.1);
            lemma_with_fresh(a1.0, a1.1);
            lemma_fresh_reach(a1.0, a1.1);
            let m_start = state_name(a1.1);
            let m_end = state_name(a2.1);
            let frame = a2.0.with_edge(eps(initial, m_start)).with_edge(eps(m_end, end)).with_edge(
                eps(initial, end),
            ).with_edge(eps(m_end, m_start));
            lemma_built_reach(*inner, frame, a2.1, m_start, m_end);
        },
    }
}

/// The counter after a part is built is at most the counter before, plus
/// the number of states that were there, plus the number of states that the
/// part adds: where that fits the counter, the part can be built.
pub proof fn lemma_counter_limit(
    regex: RegularExpression,
    a: Automaton,
    counter: nat,
    initial: Seq<char>,
    end: Seq<char>,
)
    requires
        a.states.finite(),
    ensures
        built(regex, a, counter, initial, end).1 <= counter + a.states.len() + fresh_states(regex),
{
    lemma_built_reach(regex, a, counter, initial, end);
    lemma_len_subset(taken(a.states, counter), a.states);
}

} // verus!
