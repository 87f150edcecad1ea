//! Thompson's construction: from a regular expression to an automaton with
//! epsilon transitions.

use vstd::prelude::*;
use crate::correct::lemma_thompson_language;
use crate::language::lemma_determinized_language;
use crate::matching::denotes;
use crate::model::Automaton;
use crate::names::{plain, lemma_plain_names_unambiguous, lemma_state_name_plain};
use crate::nfae::{NFAe, first_free, lemma_first_free_exists};
use crate::regex::RegularExpression;
use crate::state::{State, state_name, lemma_state_name_injective};
use crate::steps::{walks_to_accept, lemma_accepts_is_walk};
use crate::subset::{determinized, unambiguous};
use crate::symbol::Symbol;
use crate::transition::Edge;

verus! {

/// The number of states that the construction adds for `regex` between the
/// two states it is given.
pub open spec fn fresh_states(regex: RegularExpression) -> nat
    decreases regex,
{
    match regex {
        RegularExpression::Epsilon => 0,
        RegularExpression::Symbol(_) => 0,
        RegularExpression::Group(inner) => fresh_states(*inner),
        RegularExpression::Union(a, b) => 4 + fresh_states(*a) + fresh_states(*b),
        RegularExpression::Concat(a, b) => 1 + fresh_states(*a) + fresh_states(*b),
        RegularExpression::Closure(inner) => 2 + fresh_states(*inner),
    }
}

/// The number of nodes of `regex`.
pub open spec fn nodes(regex: RegularExpression) -> nat
    decreases regex,
{
    match regex {
        RegularExpression::Epsilon => 1,
        RegularExpression::Symbol(_) => 1,
        RegularExpression::Group(inner) => 1 + nodes(*inner),
        RegularExpression::Union(a, b) => 1 + nodes(*a) + nodes(*b),
        RegularExpression::Concat(a, b) => 1 + nodes(*a) + nodes(*b),
        RegularExpression::Closure(inner) => 1 + nodes(*inner),
    }
}

/// The states that the construction adds for all the expressions of
/// `waiting` together.
pub open spec fn fresh_states_of(waiting: Seq<&RegularExpression>) -> nat
    decreases waiting.len(),
{
    if waiting.len() == 0 {
        0
    } else {
        fresh_states_of(waiting.drop_last()) + fresh_states(*waiting.last())
    }
}

/// The nodes of all the expressions of `waiting` together.
pub open spec fn nodes_of(waiting: Seq<&RegularExpression>) -> nat
    decreases waiting.len(),
{
    if waiting.len() == 0 {
        0
    } else {
        nodes_of(waiting.drop_last()) + nodes(*waiting.last())
    }
}

/// One more expression waits.
proof fn lemma_waiting_push(waiting: Seq<&RegularExpression>, regex: &RegularExpression)
    ensures
        fresh_states_of(waiting.push(regex)) == fresh_states_of(waiting) + fresh_states(*regex),
        nodes_of(waiting.push(regex)) == nodes_of(waiting) + nodes(*regex),
{
    assert(waiting.push(regex).drop_last() =~= waiting);
}

/// The number of states that the construction adds for `regex`, unless it
/// is more than a counter of states can hold. The expression is walked with
/// a stack of the operands that wait, so that its depth costs no call
/// depth.
pub fn count_fresh_states(regex: &RegularExpression) -> (count: Option<u32>)
    ensures
        match count {
            Some(n) => n == fresh_states(*regex),
            None => fresh_states(*regex) > u32::MAX,
        },
{
    let mut total: u32 = 0;
    let mut waiting: Vec<&RegularExpression> = Vec::new();
    waiting.push(regex);
    proof {
        lemma_waiting_push(Seq::empty(), regex);
    }
    while waiting.len() > 0
        invariant
            total + fresh_states_of(waiting@) == fresh_states(*regex),
        decreases nodes_of(waiting@),
    {
        let ghost before = waiting@;
        let next = waiting.pop().unwrap();
        proof {
            assert(waiting@ =~= before.drop_last());
        }
        let added: u32 = match next {
            RegularExpression::Epsilon => 0,
            RegularExpression::Symbol(_) => 0,
            RegularExpression::Group(inner) => {
                proof {
                    lemma_waiting_push(waiting@, &**inner);
                }
                waiting.push(inner);
                0
            },
            RegularExpression::Union(a, b) => {
                proof {
                    lemma_waiting_push(waiting@, &**a);
                    lemma_waiting_push(waiting@.push(&**a), &**b);
                }
                waiting.push(a);
                waiting.push(b);
                4
            },
            RegularExpression::Concat(a, b) => {
                proof {
                    lemma_waiting_push(waiting@, &**a);
                    lemma_waiting_push(waiting@.push(&**a), &**b);
                }
                waiting.push(a);
                waiting.push(b);
                1
            },
            RegularExpression::Closure(inner) => {
                proof {
                    lemma_waiting_push(waiting@, &**inner);
                }
                waiting.push(inner);
                2
            },
        };
        total = match total.checked_add(added) {
            Some(sum) => sum,
            None => {
                return None;
            },
        };
    }
    Some(total)
}

/// An epsilon transition.
pub open spec fn eps(from: Seq<char>, to: Seq<char>) -> Edge {
    Edge { from, when: Symbol::Epsilon, to }
}

/// The automaton `a` with the part for `regex` built between its states
/// `initial` and `end`. The states that the part needs are named from number
/// `next` on, in the order in which they are made.
pub open spec fn thompson_inner(
    regex: RegularExpression,
    a: Automaton,
    next: nat,
    initial: Seq<char>,
    end: Seq<char>,
) -> Automaton
    decreases regex,
{
    match regex {
        RegularExpression::Epsilon => a.with_edge(eps(initial, end)),
        RegularExpression::Symbol(c) => a.with_edge(
            Edge { from: initial, when: Symbol::Symbol(c), to: end },
        ),
        RegularExpression::Group(inner) => thompson_inner(*inner, a, next, initial, end),
        RegularExpression::Union(x, y) => {
            let x_start = state_name(next);
            let x_end = state_name(next + 1);
            let y_start = state_name(next + 2);
            let y_end = state_name(next + 3);
            let frame = a.with_state(x_start, false).with_state(x_end, false).with_state(
                y_start,
                false,
            ).with_state(y_end, false).with_edge(eps(initial, x_start)).with_edge(
                eps(initial, y_start),
            ).with_edge(eps(x_end, end)).with_edge(eps(y_end, end));
            let left = thompson_inner(*x, frame, next + 4, x_start, x_end);
            thompson_inner(*y, left, next + 4 + fresh_states(*x), y_start, y_end)
        },
        RegularExpression::Concat(x, y) => {
            let middle = state_name(next);
            let frame = a.with_state(middle, false);
            let left = thompson_inner(*x, frame, next + 1, initial, middle);
            thompson_inner(*y, left, next + 1 + fresh_states(*x), middle, end)
        },
        RegularExpression::Closure(inner) => {
            let m_start = state_name(next);
            let m_end = state_name(next + 1);
            let frame = a.with_state(m_start, false).with_state(m_end, false).with_edge(
                eps(initial, m_start),
            ).with_edge(eps(m_end, end)).with_edge(eps(initial, end)).with_edge(
                eps(m_end, m_start),
            );
            thompson_inner(*inner, frame, next + 2, m_start, m_end)
        },
    }
}

/// The automaton for `regex`: it starts in `q0`, accepts in `q1`, and has the
/// part for `regex` between the two.
pub open spec fn thompson(regex: RegularExpression) -> Automaton {
    let frame = Automaton::empty().with_state(state_name(0), false).with_state(state_name(1), true);
    thompson_inner(regex, frame, 2, state_name(0), state_name(1)).with_initial(state_name(0))
}

/// The states are those with the numbers below `n`.
pub open spec fn numbered(states: Set<Seq<char>>, n: nat) -> bool {
    forall|s: Seq<char>| states.contains(s) <==> exists|j: nat| j < n && s == #[trigger] state_name(j)
}

/// Where the states are those with the numbers below `n`, the name with the
/// number `n` is the first free one from `n - 1` on, and with it the states
/// are those with the numbers below `n + 1`.
pub proof fn lemma_numbered_next(states: Set<Seq<char>>, n: nat)
    requires
        numbered(states, n),
        n >= 1,
    ensures
        first_free(states, (n - 1) as nat, n),
        numbered(states.insert(state_name(n)), n + 1),
{
    if states.contains(state_name(n)) {
        let j = choose|j: nat| j < n && state_name(n) == #[trigger] state_name(j);
        lemma_state_name_injective(n, j);
    }
    assert forall|j: nat| (n - 1) as nat <= j < n implies states.contains(#[trigger] state_name(j)) by {
        assert(j < n && state_name(j) == state_name(j));
    }
    let more = states.insert(state_name(n));
    assert forall|s: Seq<char>| more.contains(s) <==> exists|j: nat|
        j < n + 1 && s == #[trigger] state_name(j) by {
        if more.contains(s) {
            if s == state_name(n) {
                assert(n < n + 1 && s == state_name(n));
            } else {
                let j = choose|j: nat| j < n && s == #[trigger] state_name(j);
                assert(j < n + 1 && s == state_name(j));
            }
        }
        if exists|j: nat| j < n + 1 && s == #[trigger] state_name(j) {
            let j = choose|j: nat| j < n + 1 && s == #[trigger] state_name(j);
            if j < n {
                assert(states.contains(s));
            }
        }
    }
}

/// The first number from `from` on whose name no state of `states` bears.
pub open spec fn next_free(states: Set<Seq<char>>, from: nat) -> nat {
    choose|k: nat| first_free(states, from, k)
}

/// The automaton `a` with one more state, not accepting, under the first
/// free name from `counter` on; and the number of that name.
pub open spec fn with_fresh(a: Automaton, counter: nat) -> (Automaton, nat) {
    let k = next_free(a.states, counter);
    (a.with_state(state_name(k), false), k)
}

/// The automaton `a`, whatever its states are named, with the part for
/// `regex` built between its states `initial` and `end`; and the counter of
/// names after it. Each state that the part needs gets the first free name
/// from the counter on, in the order in which the states are made.
pub open spec fn built(
    regex: RegularExpression,
    a: Automaton,
    counter: nat,
    initial: Seq<char>,
    end: Seq<char>,
) -> (Automaton, nat)
    decreases regex,
{
    match regex {
        RegularExpression::Epsilon => (a.with_edge(eps(initial, end)), counter),
        RegularExpression::Symbol(c) => (
            a.with_edge(Edge { from: initial, when: Symbol::Symbol(c), to: end }),
            counter,
        ),
        RegularExpression::Group(inner) => built(*inner, a, counter, initial, end),
        RegularExpression::Union(x, y) => {
            let a1 = with_fresh(a, counter);
            let a2 = with_fresh(a1.0, a1.1);
            let a3 = with_fresh(a2.0, a2.1);
            let a4 = with_fresh(a3.0, a3.1);
            let x_start = state_name(a1.1);
            let x_end = state_name(a2.1);
            let y_start = state_name(a3.1);
            let y_end = state_name(a4.1);
            let frame = a4.0.with_edge(eps(initial, x_start)).with_edge(eps(initial, y_start)).with_edge(
                eps(x_end, end),
            ).with_edge(eps(y_end, end));
            let left = built(*x, frame, a4.1, x_start, x_end);
            built(*y, left.0, left.1, y_start, y_end)
        },
        RegularExpression::Concat(x, y) => {
            let a1 = with_fresh(a, counter);
            let middle = state_name(a1.1);
            let left = built(*x, a1.0, a1.1, initial, middle);
            built(*y, left.0, left.1, middle, end)
        },
        RegularExpression::Closure(inner) => {
            let a1 = with_fresh(a, counter);
            let a2 = with_fresh(a1.0, a1.1);
            let m_start = state_name(a1.1);
            let m_end = state_name(a2.1);
            let frame = a2.0.with_edge(eps(initial, m_start)).with_edge(eps(m_end, end)).with_edge(
                eps(initial, end),
            ).with_edge(eps(m_end, m_start));
            built(*inner, frame, a2.1, m_start, m_end)
        },
    }
}

/// Every transition that `after` has and `before` has not runs between
/// states of `after`.
pub open spec fn added_between(before: Automaton, after: Automaton) -> bool {
    forall|e: Edge| #[trigger]
        after.edges.contains(e) && !before.edges.contains(e) ==> after.states.contains(e.from)
            && after.states.contains(e.to)
}

/// There is one first free number.
pub proof fn lemma_first_free_unique(states: Set<Seq<char>>, from: nat, k: nat)
    requires
        first_free(states, from, k),
    ensures
        next_free(states, from) == k,
{
    let other = next_free(states, from);
    assert(first_free(states, from, other));
    if other < k {
        assert(states.contains(state_name(other)));
    } else if k < other {
        assert(states.contains(state_name(k)));
    }
}

/// A fresh state is new, its number is not below the counter, and nothing
/// else of the automaton changes.
pub proof fn lemma_with_fresh(a: Automaton, counter: nat)
    requires
        a.states.finite(),
    ensures
        first_free(a.states, counter, with_fresh(a, counter).1),
        counter <= with_fresh(a, counter).1,
        !a.states.contains(state_name(with_fresh(a, counter).1)),
        with_fresh(a, counter).0.states.finite(),
{
    lemma_first_free_exists(a.states, counter);
}

/// What building a part does to an automaton: it only adds states and
/// transitions, leaves the initial state and the accepting states as they
/// were, and does not lower the counter. The added transitions run between
/// states of the result, if `initial` and `end` are states.
pub proof fn lemma_built(
    regex: RegularExpression,
    a: Automaton,
    counter: nat,
    initial: Seq<char>,
    end: Seq<char>,
)
    requires
        a.states.finite(),
    ensures
        ({
            let after = built(regex, a, counter, initial, end);
            &&& counter <= after.1
            &&& after.0.states.finite()
            &&& a.states.subset_of(after.0.states)
            &&& a.edges.subset_of(after.0.edges)
            &&& after.0.finals == a.finals
            &&& after.0.initial == a.initial
            &&& a.edges.finite() ==> after.0.edges.finite()
            &&& a.states.contains(initial) && a.states.contains(end) ==> added_between(a, after.0)
        }),
    decreases regex,
{
    match regex {
        RegularExpression::Epsilon => {},
        RegularExpression::Symbol(c) => {},
        RegularExpression::Group(inner) => {
            lemma_built(*inner, a, counter, initial, end);
        },
        RegularExpression::Union(x, y) => {
            let a1 = with_fresh(a, counter);
            lemma_with_fresh(a, counter);
            let a2 = with_fresh(a1.0, a1.1);
            lemma_with_fresh(a1.0, a1.1);
            let a3 = with_fresh(a2.0, a2.1);
            lemma_with_fresh(a2.0, a2.1);
            let a4 = with_fresh(a3.0, a3.1);
            lemma_with_fresh(a3.0, a3.1);
            let x_start = state_name(a1.1);
            let x_end = state_name(a2.1);
            let y_start = state_name(a3.1);
            let y_end = state_name(a4.1);
            let frame = a4.0.with_edge(eps(initial, x_start)).with_edge(eps(initial, y_start)).with_edge(
                eps(x_end, end),
            ).with_edge(eps(y_end, end));
            lemma_built(*x, frame, a4.1, x_start, x_end);
            let left = built(*x, frame, a4.1, x_start, x_end);
            lemma_built(*y, left.0, left.1, y_start, y_end);
        },
        RegularExpression::Concat(x, y) => {
            let a1 = with_fresh(a, counter);
            lemma_with_fresh(a, counter);
            let middle = state_name(a1.1);
            lemma_built(*x, a1.0, a1.1, initial, middle);
            let left = built(*x, a1.0, a1.1, initial, middle);
            lemma_built(*y, left.0, left.1, middle, end);
        },
        RegularExpression::Closure(inner) => {
            let a1 = with_fresh(a, counter);
            lemma_with_fresh(a, counter);
            let a2 = with_fresh(a1.0, a1.1);
            lemma_with_fresh(a1.0, a1.1);
            let m_start = state_name(a1.1);
            let m_end = state_name(a2.1);
            let frame = a2.0.with_edge(eps(initial, m_start)).with_edge(eps(m_end, end)).with_edge(
                eps(initial, end),
            ).with_edge(eps(m_end, m_start));
            lemma_built(*inner, frame, a2.1, m_start, m_end);
        },
    }
}

/// Where the states are those with the numbers below `n`, the part is built
/// with the names from `n` on: the state made first is `q<n>`, the next one
/// `q<n + 1>`, and so on.
pub proof fn lemma_built_numbered(
    regex: RegularExpression,
    a: Automaton,
    n: nat,
    initial: Seq<char>,
    end: Seq<char>,
)
    requires
        n >= 1,
        numbered(a.states, n),
    ensures
        built(regex, a, (n - 1) as nat, initial, end) == (
            thompson_inner(regex, a, n, initial, end),
            (n - 1 + fresh_states(regex)) as nat,
        ),
        numbered(thompson_inner(regex, a, n, initial, end).states, n + fresh_states(regex)),
    decreases regex,
{
    match regex {
        RegularExpression::Epsilon => {},
        RegularExpression::Symbol(c) => {},
        RegularExpression::Group(inner) => {
            lemma_built_numbered(*inner, a, n, initial, end);
        },
        RegularExpression::Union(x, y) => {
            lemma_fresh_numbered(a, n);
            let a1 = with_fresh(a, (n - 1) as nat);
            lemma_fresh_numbered(a1.0, n + 1);
            let a2 = with_fresh(a1.0, a1.1);
            lemma_fresh_numbered(a2.0, n + 2);
            let a3 = with_fresh(a2.0, a2.1);
            lemma_fresh_numbered(a3.0, n + 3);
            let a4 = with_fresh(a3.0, a3.1);
            let x_start = state_name(n);
            let x_end = state_name(n + 1);
            let y_start = state_name(n + 2);
            let y_end = state_name(n + 3);
            let frame = a4.0.with_edge(eps(initial, x_start)).with_edge(eps(initial, y_start)).with_edge(
                eps(x_end, end),
            ).with_edge(eps(y_end, end));
            lemma_built_numbered(*x, frame, n + 4, x_start, x_end);
            let left = thompson_inner(*x, frame, n + 4, x_start, x_end);
            lemma_built_numbered(*y, left, n + 4 + fresh_states(*x), y_start, y_end);
        },
        RegularExpression::Concat(x, y) => {
            lemma_fresh_numbered(a, n);
            let a1 = with_fresh(a, (n - 1) as nat);
            let middle = state_name(n);
            lemma_built_numbered(*x, a1.0, n + 1, initial, middle);
            let left = thompson_inner(*x, a1.0, n + 1, initial, middle);
            lemma_built_numbered(*y, left, n + 1 + fresh_states(*x), middle, end);
        },
        RegularExpression::Closure(inner) => {
            lemma_fresh_numbered(a, n);
            let a1 = with_fresh(a, (n - 1) as nat);
            lemma_fresh_numbered(a1.0, n + 1);
            let a2 = with_fresh(a1.0, a1.1);
            let m_start = state_name(n);
            let m_end = state_name(n + 1);
            let frame = a2.0.with_edge(eps(initial, m_start)).with_edge(eps(m_end, end)).with_edge(
                eps(initial, end),
            ).with_edge(eps(m_end, m_start));
            lemma_built_numbered(*inner, frame, n + 2, m_start, m_end);
        },
    }
}

/// Where the states are those with the numbers below `n`, the fresh state
/// is `q<n>`.
proof fn lemma_fresh_numbered(a: Automaton, n: nat)
    requires
        n >= 1,
        numbered(a.states, n),
    ensures
        with_fresh(a, (n - 1) as nat) == (a.with_state(state_name(n), false), n),
        numbered(with_fresh(a, (n - 1) as nat).0.states, n + 1),
{
    lemma_numbered_next(a.states, n);
    lemma_first_free_unique(a.states, (n - 1) as nat, n);
}

/// Adds a state, accepting if `end`, under the first free name from the
/// counter on.
fn add_fresh(nfae: &mut NFAe, end: bool) -> (added: State)
    requires
        old(nfae).wf(),
        next_free(old(nfae)@.states, old(nfae).counter()) <= u32::MAX,
    ensures
        final(nfae).wf(),
        final(nfae).counter() == next_free(old(nfae)@.states, old(nfae).counter()),
        added@ == state_name(final(nfae).counter()),
        final(nfae)@ == old(nfae)@.with_state(added@, end),
{
    proof {
        nfae.lemma_finite();
        lemma_first_free_exists(nfae@.states, nfae.counter());
        assert(first_free(
            nfae@.states,
            nfae.counter(),
            next_free(nfae@.states, nfae.counter()),
        ));
    }
    let added = nfae.add_state_auto(end);
    proof {
        lemma_first_free_unique(old(nfae)@.states, old(nfae).counter(), nfae.counter());
    }
    added
}

/// A part that waits to be built: an expression and the two states
/// between which its part goes.
struct Task<'a> {
    regex: &'a RegularExpression,
    initial: State,
    end: State,
}

/// What a task asks for: the expression and the names of the two states.
pub struct Order {
    pub regex: RegularExpression,
    pub initial: Seq<char>,
    pub end: Seq<char>,
}

/// What the tasks of a stack ask for.
spec fn orders(tasks: Seq<Task>) -> Seq<Order> {
    Seq::new(
        tasks.len(),
        |i: int| Order { regex: *tasks[i].regex, initial: tasks[i].initial@, end: tasks[i].end@ },
    )
}

/// The automaton and the counter after the parts of all the orders are
/// built, the last order first.
pub open spec fn built_all(waiting: Seq<Order>, a: Automaton, counter: nat) -> (Automaton, nat)
    decreases waiting.len(),
{
    if waiting.len() == 0 {
        (a, counter)
    } else {
        let next = waiting.last();
        let after = built(next.regex, a, counter, next.initial, next.end);
        built_all(waiting.drop_last(), after.0, after.1)
    }
}

/// The nodes of the expressions of all the orders together.
pub open spec fn nodes_waiting(waiting: Seq<Order>) -> nat
    decreases waiting.len(),
{
    if waiting.len() == 0 {
        0
    } else {
        nodes_waiting(waiting.drop_last()) + nodes(waiting.last().regex)
    }
}

/// Building the parts of orders does not lower the counter.
proof fn lemma_built_all(waiting: Seq<Order>, a: Automaton, counter: nat)
    requires
        a.states.finite(),
    ensures
        counter <= built_all(waiting, a, counter).1,
    decreases waiting.len(),
{
    if waiting.len() > 0 {
        let next = waiting.last();
        lemma_built(next.regex, a, counter, next.initial, next.end);
        let after = built(next.regex, a, counter, next.initial, next.end);
        lemma_built_all(waiting.drop_last(), after.0, after.1);
    }
}

/// With one more order, that order is built first.
proof fn lemma_order_push(waiting: Seq<Order>, next: Order, a: Automaton, counter: nat)
    ensures
        built_all(waiting.push(next), a, counter) == built_all(
            waiting,
            built(next.regex, a, counter, next.initial, next.end).0,
            built(next.regex, a, counter, next.initial, next.end).1,
        ),
        nodes_waiting(waiting.push(next)) == nodes_waiting(waiting) + nodes(next.regex),
{
    assert(waiting.push(next).drop_last() =~= waiting);
}

/// Puts a task on the stack.
fn push_task<'a>(
    stack: &mut Vec<Task<'a>>,
    regex: &'a RegularExpression,
    initial: State,
    end: State,
)
    ensures
        orders(final(stack)@) == orders(old(stack)@).push(
            Order { regex: *regex, initial: initial@, end: end@ },
        ),
{
    stack.push(Task { regex, initial, end });
    proof {
        assert(orders(final(stack)@) =~= orders(old(stack)@).push(
            Order { regex: *regex, initial: initial@, end: end@ },
        ));
    }
}

/// Builds the part for `regex` between the states `initial` and `end` of
/// `nfae`. The states that the part needs get the first free names `q0`,
/// `q1`, ... from the counter on; the number of the last one must fit the
/// counter, which it does where the counter, the number of states and the
/// number of states that the part adds fit it together. Nothing that was in
/// `nfae` is removed or changed. The operands that wait are kept on a stack,
/// so that the depth of the expression costs no call depth.
pub fn regex_to_nfae_inner(
    regex: &RegularExpression,
    nfae: &mut NFAe,
    initial: &State,
    end: &State,
)
    requires
        old(nfae).wf(),
        built(*regex, old(nfae)@, old(nfae).counter(), initial@, end@).1 <= u32::MAX,
    ensures
        final(nfae).wf(),
        final(nfae)@ == built(*regex, old(nfae)@, old(nfae).counter(), initial@, end@).0,
        final(nfae).counter() == built(*regex, old(nfae)@, old(nfae).counter(), initial@, end@).1,
        old(nfae)@.states.subset_of(final(nfae)@.states),
        old(nfae)@.edges.subset_of(final(nfae)@.edges),
        final(nfae)@.finals == old(nfae)@.finals,
        final(nfae)@.initial == old(nfae)@.initial,
        old(nfae)@.states.contains(initial@) && old(nfae)@.states.contains(end@) ==> added_between(
            old(nfae)@,
            final(nfae)@,
        ),
        old(nfae)@.closed() && old(nfae)@.states.contains(initial@) && old(nfae)@.states.contains(
            end@,
        ) ==> final(nfae)@.closed(),
{
    let ghost goal = built(*regex, nfae@, nfae.counter(), initial@, end@);
    let mut stack: Vec<Task> = Vec::new();
    proof {
        nfae.lemma_finite();
        lemma_built(*regex, nfae@, nfae.counter(), initial@, end@);
        lemma_order_push(
            orders(stack@),
            Order { regex: *regex, initial: initial@, end: end@ },
            nfae@,
            nfae.counter(),
        );
    }
    push_task(&mut stack, regex, initial.clone(), end.clone());
    while stack.len() > 0
        invariant
            nfae.wf(),
            goal.1 <= u32::MAX,
            built_all(orders(stack@), nfae@, nfae.counter()) == goal,
        decreases nodes_waiting(orders(stack@)),
    {
        let ghost waiting = orders(stack@);
        let ghost a = nfae@;
        let ghost counter = nfae.counter();
        let task = stack.pop().unwrap();
        let ghost rest = orders(stack@);
        proof {
            nfae.lemma_finite();
            assert(rest =~= waiting.drop_last());
            assert(waiting.last() == Order {
                regex: *task.regex,
                initial: task.initial@,
                end: task.end@,
            });
            let after = built(*task.regex, a, counter, task.initial@, task.end@);
            lemma_built(*task.regex, a, counter, task.initial@, task.end@);
            lemma_built_all(rest, after.0, after.1);
        }
        match task.regex {
            RegularExpression::Epsilon => {
                nfae.add_transition(&task.initial, &task.end, Symbol::Epsilon);
            },
            RegularExpression::Symbol(symbol) => {
                nfae.add_transition(&task.initial, &task.end, Symbol::Symbol(*symbol));
            },
            RegularExpression::Group(inner) => {
                proof {
                    lemma_order_push(
                        rest,
                        Order { regex: **inner, initial: task.initial@, end: task.end@ },
                        a,
                        counter,
                    );
                }
                push_task(&mut stack, inner, task.initial, task.end);
            },
            RegularExpression::Union(x, y) => {
                proof {
                    lemma_union_counters(**x, **y, a, counter, task.initial@, task.end@);
                }
                let x_start = add_fresh(nfae, false);
                let x_end = add_fresh(nfae, false);
                let y_start = add_fresh(nfae, false);
                let y_end = add_fresh(nfae, false);
                nfae.add_transition(&task.initial, &x_start, Symbol::Epsilon);
                nfae.add_transition(&task.initial, &y_start, Symbol::Epsilon);
                nfae.add_transition(&x_end, &task.end, Symbol::Epsilon);
                nfae.add_transition(&y_end, &task.end, Symbol::Epsilon);
                proof {
                    let second = Order { regex: **y, initial: y_start@, end: y_end@ };
                    let first = Order { regex: **x, initial: x_start@, end: x_end@ };
                    lemma_order_push(rest.push(second), first, nfae@, nfae.counter());
                    let left = built(**x, nfae@, nfae.counter(), x_start@, x_end@);
                    lemma_order_push(rest, second, left.0, left.1);
                }
                push_task(&mut stack, y, y_start, y_end);
                push_task(&mut stack, x, x_start, x_end);
            },
            RegularExpression::Concat(x, y) => {
                proof {
                    lemma_concat_counters(**x, **y, a, counter, task.initial@, task.end@);
                }
                let middle = add_fresh(nfae, false);
                proof {
                    let second = Order { regex: **y, initial: middle@, end: task.end@ };
                    let first = Order { regex: **x, initial: task.initial@, end: middle@ };
                    lemma_order_push(rest.push(second), first, nfae@, nfae.counter());
                    let left = built(**x, nfae@, nfae.counter(), task.initial@, middle@);
                    lemma_order_push(rest, second, left.0, left.1);
                }
                push_task(&mut stack, y, middle.clone(), task.end);
                push_task(&mut stack, x, task.initial, middle);
            },
            RegularExpression::Closure(inner) => {
                proof {
                    lemma_closure_counters(**inner, a, counter, task.initial@, task.end@);
                }
                let m_start = add_fresh(nfae, false);
                let m_end = add_fresh(nfae, false);
                nfae.add_transition(&task.initial, &m_start, Symbol::Epsilon);
                nfae.add_transition(&m_end, &task.end, Symbol::Epsilon);
                nfae.add_transition(&task.initial, &task.end, Symbol::Epsilon);
                nfae.add_transition(&m_end, &m_start, Symbol::Epsilon);
                proof {
                    lemma_order_push(
                        rest,
                        Order { regex: **inner, initial: m_start@, end: m_end@ },
                        nfae@,
                        nfae.counter(),
                    );
                }
                push_task(&mut stack, inner, m_start, m_end);
            },
        }
    }
    proof {
        assert(orders(stack@) =~= Seq::<Order>::empty());
        nfae.lemma_finite();
    }
}

/// The numbers given while the part for a union is built are none above
/// the counter after it.
proof fn lemma_union_counters(
    x: RegularExpression,
    y: RegularExpression,
    a: Automaton,
    counter: nat,
    initial: Seq<char>,
    end: Seq<char>,
)
    requires
        a.states.finite(),
    ensures
        ({
            let a1 = with_fresh(a, counter);
            let a2 = with_fresh(a1.0, a1.1);
            let a3 = with_fresh(a2.0, a2.1);
            let a4 = with_fresh(a3.0, a3.1);
            let frame = a4.0.with_edge(eps(initial, state_name(a1.1))).with_edge(
                eps(initial, state_name(a3.1)),
            ).with_edge(eps(state_name(a2.1), end)).with_edge(eps(state_name(a4.1), end));
            let left = built(x, frame, a4.1, state_name(a1.1), state_name(a2.1));
            let all = built(
                RegularExpression::Union(Box::new(x), Box::new(y)),
                a,
                counter,
                initial,
                end,
            );
            &&& all == built(y, left.0, left.1, state_name(a3.1), state_name(a4.1))
            &&& a1.1 <= a2.1 <= a3.1 <= a4.1 <= left.1 <= all.1
        }),
{
    let a1 = with_fresh(a, counter);
    lemma_with_fresh(a, counter);
    let a2 = with_fresh(a1.0, a1.1);
    lemma_with_fresh(a1.0, a1.1);
    let a3 = with_fresh(a2.0, a2.1);
    lemma_with_fresh(a2.0, a2.1);
    let a4 = with_fresh(a3.0, a3.1);
    lemma_with_fresh(a3.0, a3.1);
    let frame = a4.0.with_edge(eps(initial, state_name(a1.1))).with_edge(
        eps(initial, state_name(a3.1)),
    ).with_edge(eps(state_name(a2.1), end)).with_edge(eps(state_name(a4.1), end));
    lemma_built(x, frame, a4.1, state_name(a1.1), state_name(a2.1));
    let left = built(x, frame, a4.1, state_name(a1.1), state_name(a2.1));
    lemma_built(y, left.0, left.1, state_name(a3.1), state_name(a4.1));
}

/// The numbers given while the part for a concatenation is built are none
/// above the counter after it.
proof fn lemma_concat_counters(
    x: RegularExpression,
    y: RegularExpression,
    a: Automaton,
    counter: nat,
    initial: Seq<char>,
    end: Seq<char>,
)
    requires
        a.states.finite(),
    ensures
        ({
            let a1 = with_fresh(a, counter);
            let left = built(x, a1.0, a1.1, initial, state_name(a1.1));
            let all = built(
                RegularExpression::Concat(Box::new(x), Box::new(y)),
                a,
                counter,
                initial,
                end,
            );
            &&& all == built(y, left.0, left.1, state_name(a1.1), end)
            &&& a1.1 <= left.1 <= all.1
        }),
{
    let a1 = with_fresh(a, counter);
    lemma_with_fresh(a, counter);
    lemma_built(x, a1.0, a1.1, initial, state_name(a1.1));
    let left = built(x, a1.0, a1.1, initial, state_name(a1.1));
    lemma_built(y, left.0, left.1, state_name(a1.1), end);
}

/// The numbers given while the part for a closure is built are none above
/// the counter after it.
proof fn lemma_closure_counters(
    inner: RegularExpression,
    a: Automaton,
    counter: nat,
    initial: Seq<char>,
    end: Seq<char>,
)
    requires
        a.states.finite(),
    ensures
        ({
            let a1 = with_fresh(a, counter);
            let a2 = with_fresh(a1.0, a1.1);
            let frame = a2.0.with_edge(eps(initial, state_name(a1.1))).with_edge(
                eps(state_name(a2.1), end),
            ).with_edge(eps(initial, end)).with_edge(eps(state_name(a2.1), state_name(a1.1)));
            let all = built(RegularExpression::Closure(Box::new(inner)), a, counter, initial, end);
            &&& all == built(inner, frame, a2.1, state_name(a1.1), state_name(a2.1))
            &&& a1.1 <= a2.1 <= all.1
        }),
{
    let a1 = with_fresh(a, counter);
    lemma_with_fresh(a, counter);
    let a2 = with_fresh(a1.0, a1.1);
    lemma_with_fresh(a1.0, a1.1);
    let frame = a2.0.with_edge(eps(initial, state_name(a1.1))).with_edge(
        eps(state_name(a2.1), end),
    ).with_edge(eps(initial, end)).with_edge(eps(state_name(a2.1), state_name(a1.1)));
    lemma_built(inner, frame, a2.1, state_name(a1.1), state_name(a2.1));
}

/// Builds the automaton for `regex` by Thompson's construction. The states
/// are named `q0`, `q1`, ... in the order in which they are made; `q0` is the
/// initial state and `q1` the one accepting state. The automaton accepts
/// exactly the words that `regex` denotes: those that a walk from `q0` to
/// `q1` reads. The number of its last state must
/// fit the counter of states.
pub fn regex_to_nfae(regex: &RegularExpression) -> (nfae: NFAe)
    requires
        fresh_states(*regex) + 1 <= u32::MAX,
    ensures
        nfae.wf(),
        nfae@ == thompson(*regex),
        nfae.counter() == fresh_states(*regex) + 1,
        nfae@.closed(),
        unambiguous(nfae@),
        forall|word: Seq<char>| #[trigger] nfae@.accepts(word) <==> denotes(*regex, word),
        forall|word: Seq<char>| #[trigger] walks_to_accept(nfae@, word) <==> denotes(*regex, word),
{
    proof {
        lemma_thompson_shape(*regex);
        lemma_thompson_unambiguous(*regex);
        assert forall|word: Seq<char>| #[trigger]
            thompson(*regex).accepts(word) <==> denotes(*regex, word) by {
            lemma_thompson_language(*regex, word);
        }
        assert forall|word: Seq<char>| #[trigger]
            walks_to_accept(thompson(*regex), word) <==> denotes(*regex, word) by {
            lemma_thompson_language(*regex, word);
            lemma_accepts_is_walk(thompson(*regex), word);
        }
    }
    let mut nfae = NFAe::new();
    proof {
        assert(first_free(nfae@.states, 0, 0));
        lemma_first_free_unique(nfae@.states, 0, 0);
    }
    let initial = add_fresh(&mut nfae, false);
    proof {
        assert forall|s: Seq<char>| nfae@.states.contains(s) <==> exists|j: nat|
            j < 1 && s == #[trigger] state_name(j) by {
            if nfae@.states.contains(s) {
                assert(0 < 1 && s == state_name(0));
            }
        }
        lemma_numbered_next(nfae@.states, 1);
        lemma_first_free_unique(nfae@.states, 0, 1);
    }
    let end = add_fresh(&mut nfae, true);
    proof {
        lemma_built_numbered(*regex, nfae@, 2, initial@, end@);
    }
    regex_to_nfae_inner(regex, &mut nfae, &initial, &end);
    nfae.set_initial(initial);
    nfae
}

/// The part for `regex` keeps the automaton closed and its states numbered,
/// and leaves its initial and accepting states as they were.
pub proof fn lemma_thompson_inner_shape(
    regex: RegularExpression,
    a: Automaton,
    next: nat,
    initial: Seq<char>,
    end: Seq<char>,
)
    requires
        a.closed(),
        next >= 1,
        numbered(a.states, next),
        a.states.contains(initial),
        a.states.contains(end),
    ensures
        ({
            let built = thompson_inner(regex, a, next, initial, end);
            &&& built.closed()
            &&& numbered(built.states, next + fresh_states(regex))
            &&& a.states.subset_of(built.states)
            &&& built.initial == a.initial
            &&& built.finals == a.finals
        }),
    decreases regex,
{
    match regex {
        RegularExpression::Epsilon => {},
        RegularExpression::Symbol(c) => {},
        RegularExpression::Group(inner) => {
            lemma_thompson_inner_shape(*inner, a, next, initial, end);
        },
        RegularExpression::Union(x, y) => {
            let x_start = state_name(next);
            let x_end = state_name(next + 1);
            let y_start = state_name(next + 2);
            let y_end = state_name(next + 3);
            let a1 = a.with_state(x_start, false);
            lemma_numbered_next(a.states, next);
            let a2 = a1.with_state(x_end, false);
            lemma_numbered_next(a1.states, next + 1);
            let a3 = a2.with_state(y_start, false);
            lemma_numbered_next(a2.states, next + 2);
            let a4 = a3.with_state(y_end, false);
            lemma_numbered_next(a3.states, next + 3);
            let frame = a4.with_edge(eps(initial, x_start)).with_edge(eps(initial, y_start)).with_edge(
                eps(x_end, end),
            ).with_edge(eps(y_end, end));
            assert(frame.closed());
            lemma_thompson_inner_shape(*x, frame, next + 4, x_start, x_end);
            let left = thompson_inner(*x, frame, next + 4, x_start, x_end);
            lemma_thompson_inner_shape(*y, left, next + 4 + fresh_states(*x), y_start, y_end);
        },
        RegularExpression::Concat(x, y) => {
            let middle = state_name(next);
            let frame = a.with_state(middle, false);
            lemma_numbered_next(a.states, next);
            assert(frame.closed());
            lemma_thompson_inner_shape(*x, frame, next + 1, initial, middle);
            let left = thompson_inner(*x, frame, next + 1, initial, middle);
            lemma_thompson_inner_shape(*y, left, next + 1 + fresh_states(*x), middle, end);
        },
        RegularExpression::Closure(inner) => {
            let m_start = state_name(next);
            let m_end = state_name(next + 1);
            let a1 = a.with_state(m_start, false);
            lemma_numbered_next(a.states, next);
            let a2 = a1.with_state(m_end, false);
            lemma_numbered_next(a1.states, next + 1);
            let frame = a2.with_edge(eps(initial, m_start)).with_edge(eps(m_end, end)).with_edge(
                eps(initial, end),
            ).with_edge(eps(m_end, m_start));
            assert(frame.closed());
            lemma_thompson_inner_shape(*inner, frame, next + 2, m_start, m_end);
        },
    }
}

/// The automaton for `regex` is closed; its states are `q0` up to the last
/// one made, it starts in `q0`, and `q1` is its one accepting state.
pub proof fn lemma_thompson_shape(regex: RegularExpression)
    ensures
        thompson(regex).closed(),
        numbered(thompson(regex).states, 2 + fresh_states(regex)),
        thompson(regex).initial == Some(state_name(0)),
        thompson(regex).finals == set![state_name(1)],
{
    let none = Automaton::empty();
    let first = none.with_state(state_name(0), false);
    assert forall|s: Seq<char>| first.states.contains(s) <==> exists|j: nat|
        j < 1 && s == #[trigger] state_name(j) by {
        if first.states.contains(s) {
            assert(0 < 1 && s == state_name(0));
        }
    }
    lemma_numbered_next(first.states, 1);
    let frame = first.with_state(state_name(1), true);
    assert(frame.closed());
    assert(frame.finals =~= set![state_name(1)]);
    lemma_thompson_inner_shape(regex, frame, 2, state_name(0), state_name(1));
}

/// In the automaton for a regular expression, different sets of states have
/// different names.
pub proof fn lemma_thompson_unambiguous(regex: RegularExpression)
    ensures
        unambiguous(thompson(regex)),
{
    let a = thompson(regex);
    lemma_thompson_shape(regex);
    assert forall|n: Seq<char>| #[trigger] a.base().contains(n) implies plain(n) by {
        if !a.states.contains(n) {
            let e = choose|e: Edge| a.edges.contains(e) && e.to == n;
            assert(a.states.contains(e.to));
        }
        let j = choose|j: nat| j < 2 + fresh_states(regex) && n == #[trigger] state_name(j);
        lemma_state_name_plain(j);
    }
    lemma_plain_names_unambiguous(a);
}

/// The deterministic automaton made from the automaton for a regular
/// expression accepts exactly the words that the latter accepts.
pub proof fn lemma_regex_determinized_language(regex: RegularExpression, word: Seq<char>)
    ensures
        determinized(thompson(regex)).accepts(word) == thompson(regex).accepts(word),
{
    lemma_thompson_unambiguous(regex);
    lemma_determinized_language(thompson(regex), word);
}

} // verus!
