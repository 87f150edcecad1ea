//! A literal character: what it parses to, and what its automaton accepts.

use vstd::prelude::*;
use crate::language::{lemma_reach_without_epsilon, lemma_step_from_nothing};
use crate::model::Automaton;
use crate::regex::{build_from, flatten, group_at, parse_spec, RegularExpression, Tok};
use crate::state::{state_name, lemma_state_name_injective};
use crate::symbol::Symbol;
use crate::thompson::thompson;
use crate::transition::Edge;

verus! {

/// The characters that the language of regular expressions keeps for
/// itself: the parentheses, the union sign and the closure sign. All others
/// are literals.
pub open spec fn reserved(c: char) -> bool {
    c == '(' || c == ')' || c == '+' || c == '*'
}

/// A text of one literal character parses to that symbol.
pub proof fn lemma_parse_literal(c: char)
    requires
        !reserved(c),
    ensures
        parse_spec(seq![c]) == RegularExpression::Symbol(c),
{
    let text = seq![c];
    reveal_with_fuel(group_at, 3);
    let tokens = group_at(text, 0).0;
    assert(group_at(text, 1).0 =~= Seq::<Tok>::empty());
    assert(tokens =~= seq![Tok::Symbol(c)]);
    reveal_with_fuel(flatten, 2);
    assert(flatten(tokens) =~= seq![Tok::Symbol(c)]);
    reveal_with_fuel(build_from, 3);
}

/// Where no transition is an epsilon transition, a character leads from a
/// set of states to the states that its transitions enter.
proof fn lemma_step_without_epsilon(a: Automaton, from: Set<Seq<char>>, c: char)
    requires
        forall|e: Edge| #[trigger] a.edges.contains(e) ==> e.when != Symbol::Epsilon,
    ensures
        a.step(from, c) == a.move_on(from, c).intersect(a.states),
{
    lemma_reach_without_epsilon(a, a.move_on(from, c).intersect(a.states));
}

/// Where an automaton has one transition, a character enters nothing but
/// the end of that transition, and that only from its start and if it is its
/// label.
proof fn lemma_single_edge_move(a: Automaton, edge: Edge, from: Set<Seq<char>>, c: char)
    requires
        a.edges == set![edge],
    ensures
        forall|t: Seq<char>|
            a.move_on(from, c).contains(t) ==> from.contains(edge.from) && edge.when
                == Symbol::Symbol(c) && t == edge.to,
{
    assert forall|t: Seq<char>| a.move_on(from, c).contains(t) implies from.contains(edge.from)
        && edge.when == Symbol::Symbol(c) && t == edge.to by {
        let s = choose|s: Seq<char>|
            from.contains(s) && #[trigger] a.edges.contains(
                Edge { from: s, when: Symbol::Symbol(c), to: t },
            );
        let e = Edge { from: s, when: Symbol::Symbol(c), to: t };
        assert(set![edge].contains(e));
    }
}

/// Where the automaton for the symbol `c` may be after `word`: in `q0`
/// before it has read anything, in `q1` after `c`, and nowhere after
/// anything else.
proof fn lemma_symbol_run(c: char, word: Seq<char>)
    ensures
        thompson(RegularExpression::Symbol(c)).run(
            thompson(RegularExpression::Symbol(c)).start(),
            word,
        ) == (if word.len() == 0 {
            set![state_name(0)]
        } else if word == seq![c] {
            set![state_name(1)]
        } else {
            Set::<Seq<char>>::empty()
        }),
    decreases word.len(),
{
    let a = thompson(RegularExpression::Symbol(c));
    let q0 = state_name(0);
    let q1 = state_name(1);
    let edge = Edge { from: q0, when: Symbol::Symbol(c), to: q1 };
    assert(q0 != q1) by {
        if q0 == q1 {
            lemma_state_name_injective(0, 1);
        }
    }
    assert(a.edges =~= set![edge]);
    assert(a.states =~= set![q0, q1]);
    if word.len() == 0 {
        lemma_reach_without_epsilon(a, set![q0]);
    } else {
        let shorter = word.drop_last();
        let x = word.last();
        lemma_symbol_run(c, shorter);
        let before = a.run(a.start(), shorter);
        lemma_step_without_epsilon(a, before, x);
        assert(word =~= shorter.push(x));
        lemma_single_edge_move(a, edge, before, x);
        if shorter.len() == 0 {
            assert(word =~= seq![x]);
            if x == c {
                assert(a.edges.contains(edge));
                assert(a.move_on(before, x).contains(q1));
                assert(a.move_on(before, x).intersect(a.states) =~= set![q1]);
            } else {
                assert(seq![x][0] != seq![c][0]);
                assert(a.move_on(before, x).intersect(a.states) =~= Set::<Seq<char>>::empty());
            }
        } else if shorter == seq![c] {
            assert(a.move_on(before, x).intersect(a.states) =~= Set::<Seq<char>>::empty());
        } else {
            lemma_step_from_nothing(a, x);
        }
    }
}

/// The automaton for a literal character accepts the word of that one
/// character and no other: not the empty word, and no other character.
pub proof fn lemma_literal_language(c: char, word: Seq<char>)
    requires
        !reserved(c),
    ensures
        thompson(parse_spec(seq![c])).accepts(word) <==> word == seq![c],
{
    lemma_parse_literal(c);
    lemma_symbol_run(c, word);
    let a = thompson(RegularExpression::Symbol(c));
    let at = a.run(a.start(), word);
    assert(a.finals =~= set![state_name(1)]);
    if state_name(0) == state_name(1) {
        lemma_state_name_injective(0, 1);
    }
    if word == seq![c] {
        assert(word.len() == 1);
        assert(at.contains(state_name(1)));
    }
}

} // verus!

