//! The transitions that Thompson's construction makes for an expression,
//! and where they lead.

use vstd::prelude::*;
use crate::model::Automaton;
use crate::regex::RegularExpression;
use crate::state::{state_name, lemma_state_name_injective};
use crate::symbol::Symbol;
use crate::thompson::{eps, fresh_states, thompson, thompson_inner};
use crate::transition::Edge;

verus! {

/// The names with the numbers from `next` up to `next + count`.
pub open spec fn zone(next: nat, count: nat) -> Set<Seq<char>> {
    Set::new(|s: Seq<char>| exists|k: nat| next <= k < next + count && s == #[trigger] state_name(k))
}

/// A name with a number is in a zone exactly if its number is.
pub proof fn lemma_zone(k: nat, next: nat, count: nat)
    ensures
        zone(next, count).contains(state_name(k)) <==> next <= k < next + count,
{
    if zone(next, count).contains(state_name(k)) {
        let j = choose|j: nat| next <= j < next + count && state_name(k) == #[trigger] state_name(j);
        lemma_state_name_injective(k, j);
    }
    if next <= k < next + count {
        assert(next <= k < next + count && state_name(k) == state_name(k));
    }
}

/// A zone inside another holds nothing that the other does not hold.
pub proof fn lemma_zone_within(inner: nat, inner_count: nat, next: nat, count: nat)
    requires
        next <= inner,
        inner + inner_count <= next + count,
    ensures
        zone(inner, inner_count).subset_of(zone(next, count)),
{
    assert forall|s: Seq<char>| zone(inner, inner_count).contains(s) implies zone(
        next,
        count,
    ).contains(s) by {
        let k = choose|k: nat| inner <= k < inner + inner_count && s == #[trigger] state_name(k);
        assert(next <= k < next + count && s == state_name(k));
    }
}

/// Zones of numbers that do not overlap hold no name in common.
pub proof fn lemma_zone_apart(first: nat, first_count: nat, second: nat, second_count: nat)
    requires
        first + first_count <= second,
    ensures
        zone(first, first_count).disjoint(zone(second, second_count)),
{
    assert forall|s: Seq<char>| zone(first, first_count).contains(s) implies !zone(
        second,
        second_count,
    ).contains(s) by {
        let k = choose|k: nat| first <= k < first + first_count && s == #[trigger] state_name(k);
        lemma_zone(k, second, second_count);
    }
}

/// The transitions that the construction makes for `regex` between
/// `initial` and `end`, with the states it needs named from `next` on.
pub open spec fn part(regex: RegularExpression, next: nat, initial: Seq<char>, end: Seq<char>) -> Set<
    Edge,
>
    decreases regex,
{
    match regex {
        RegularExpression::Epsilon => set![eps(initial, end)],
        RegularExpression::Symbol(c) => set![Edge { from: initial, when: Symbol::Symbol(c), to: end }],
        RegularExpression::Group(inner) => part(*inner, next, initial, end),
        RegularExpression::Union(x, y) => {
            let x_start = state_name(next);
            let x_end = state_name(next + 1);
            let y_start = state_name(next + 2);
            let y_end = state_name(next + 3);
            set![eps(initial, x_start), eps(initial, y_start), eps(x_end, end), eps(y_end, end)].union(
                part(*x, next + 4, x_start, x_end),
            ).union(part(*y, next + 4 + fresh_states(*x), y_start, y_end))
        },
        RegularExpression::Concat(x, y) => {
            let middle = state_name(next);
            part(*x, next + 1, initial, middle).union(
                part(*y, next + 1 + fresh_states(*x), middle, end),
            )
        },
        RegularExpression::Closure(inner) => {
            let m_start = state_name(next);
            let m_end = state_name(next + 1);
            set![eps(initial, m_start), eps(m_end, end), eps(initial, end), eps(m_end, m_start)].union(
                part(*inner, next + 2, m_start, m_end),
            )
        },
    }
}

/// The construction adds its part to the transitions that are there, and
/// nothing else.
pub proof fn lemma_inner_edges(
    regex: RegularExpression,
    a: Automaton,
    next: nat,
    initial: Seq<char>,
    end: Seq<char>,
)
    ensures
        thompson_inner(regex, a, next, initial, end).edges == a.edges.union(
            part(regex, next, initial, end),
        ),
    decreases regex,
{
    let built = thompson_inner(regex, a, next, initial, end);
    let goal = a.edges.union(part(regex, next, initial, end));
    match regex {
        RegularExpression::Epsilon => {
            assert(built.edges =~= goal);
        },
        RegularExpression::Symbol(c) => {
            assert(built.edges =~= goal);
        },
        RegularExpression::Group(inner) => {
            lemma_inner_edges(*inner, a, next, initial, end);
        },
        RegularExpression::Union(x, y) => {
            let x_start = state_name(next);
            let x_end = state_name(next + 1);
            let y_start = state_name(next + 2);
            let y_end = state_name(next + 3);
            let frame = a.with_state(x_start, false).with_state(x_end, false).with_state(
                y_start,
                false,
            ).with_state(y_end, false).with_edge(eps(initial, x_start)).with_edge(
                eps(initial, y_start),
            ).with_edge(eps(x_end, end)).with_edge(eps(y_end, end));
            lemma_inner_edges(*x, frame, next + 4, x_start, x_end);
            let left = thompson_inner(*x, frame, next + 4, x_start, x_end);
            lemma_inner_edges(*y, left, next + 4 + fresh_states(*x), y_start, y_end);
            assert(built.edges =~= goal);
        },
        RegularExpression::Concat(x, y) => {
            let middle = state_name(next);
            let frame = a.with_state(middle, false);
            lemma_inner_edges(*x, frame, next + 1, initial, middle);
            let left = thompson_inner(*x, frame, next + 1, initial, middle);
            lemma_inner_edges(*y, left, next + 1 + fresh_states(*x), middle, end);
            assert(built.edges =~= goal);
        },
        RegularExpression::Closure(inner) => {
            let m_start = state_name(next);
            let m_end = state_name(next + 1);
            let frame = a.with_state(m_start, false).with_state(m_end, false).with_edge(
                eps(initial, m_start),
            ).with_edge(eps(m_end, end)).with_edge(eps(initial, end)).with_edge(
                eps(m_end, m_start),
            );
            lemma_inner_edges(*inner, frame, next + 2, m_start, m_end);
            assert(built.edges =~= goal);
        },
    }
}

/// The transitions of the automaton for `regex` are the part for `regex`
/// between `q0` and `q1`.
pub proof fn lemma_thompson_edges(regex: RegularExpression)
    ensures
        thompson(regex).edges == part(regex, 2, state_name(0), state_name(1)),
{
    let frame = Automaton::empty().with_state(state_name(0), false).with_state(state_name(1), true);
    lemma_inner_edges(regex, frame, 2, state_name(0), state_name(1));
    assert(frame.edges.union(part(regex, 2, state_name(0), state_name(1))) =~= part(
        regex,
        2,
        state_name(0),
        state_name(1),
    ));
}

/// Every transition of a part starts in the initial state or in a state of
/// the part, and ends in the end state or in a state of the part.
pub open spec fn shaped(
    edges: Set<Edge>,
    initial: Seq<char>,
    end: Seq<char>,
    inside: Set<Seq<char>>,
) -> bool {
    forall|e: Edge| #[trigger]
        edges.contains(e) ==> (e.from == initial || inside.contains(e.from)) && (e.to == end
            || inside.contains(e.to))
}

/// The part for `regex` has the shape of a part: its transitions stay
/// between the initial state, the states made for it, and the end state.
pub proof fn lemma_part_shape(regex: RegularExpression, next: nat, initial: Seq<char>, end: Seq<char>)
    ensures
        shaped(part(regex, next, initial, end), initial, end, zone(next, fresh_states(regex))),
    decreases regex,
{
    let whole = zone(next, fresh_states(regex));
    match regex {
        RegularExpression::Epsilon => {},
        RegularExpression::Symbol(c) => {},
        RegularExpression::Group(inner) => {
            lemma_part_shape(*inner, next, initial, end);
        },
        RegularExpression::Union(x, y) => {
            let fx = fresh_states(*x);
            let fy = fresh_states(*y);
            lemma_part_shape(*x, next + 4, state_name(next), state_name(next + 1));
            lemma_part_shape(*y, next + 4 + fx, state_name(next + 2), state_name(next + 3));
            lemma_zone(next, next, 4 + fx + fy);
            lemma_zone(next + 1, next, 4 + fx + fy);
            lemma_zone(next + 2, next, 4 + fx + fy);
            lemma_zone(next + 3, next, 4 + fx + fy);
            lemma_zone_within(next + 4, fx, next, 4 + fx + fy);
            lemma_zone_within(next + 4 + fx, fy, next, 4 + fx + fy);
        },
        RegularExpression::Concat(x, y) => {
            let fx = fresh_states(*x);
            let fy = fresh_states(*y);
            lemma_part_shape(*x, next + 1, initial, state_name(next));
            lemma_part_shape(*y, next + 1 + fx, state_name(next), end);
            lemma_zone(next, next, 1 + fx + fy);
            lemma_zone_within(next + 1, fx, next, 1 + fx + fy);
            lemma_zone_within(next + 1 + fx, fy, next, 1 + fx + fy);
        },
        RegularExpression::Closure(inner) => {
            let f = fresh_states(*inner);
            lemma_part_shape(*inner, next + 2, state_name(next), state_name(next + 1));
            lemma_zone(next, next, 2 + f);
            lemma_zone(next + 1, next, 2 + f);
            lemma_zone_within(next + 2, f, next, 2 + f);
        },
    }
}

} // verus!
