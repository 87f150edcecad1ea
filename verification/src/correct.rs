//! Thompson's construction is correct: the automaton for a regular
//! expression accepts exactly the words that the expression denotes.

use vstd::prelude::*;
use crate::language::lemma_determinized_language;
use crate::matching::{denotes, lemma_closure_more, lemma_closure_once, lemma_concat_both};
use crate::parts::{
    part, zone, lemma_part_shape, lemma_thompson_edges, lemma_zone, lemma_zone_apart,
    lemma_zone_within,
};
use crate::regex::RegularExpression;
use crate::state::{state_name, lemma_state_name_injective};
use crate::subset::determinized;
use crate::symbol::Symbol;
use crate::thompson::{eps, fresh_states, thompson, lemma_thompson_shape, lemma_thompson_unambiguous};
use crate::transition::Edge;
use crate::walk::{
    label_text, leads, reads, walk, lemma_reads_one, lemma_run_is_walk, lemma_walk_concat,
    lemma_walk_more, lemma_walk_one, lemma_walk_split,
};

verus! {

/// The two states are different, and neither has one of the `count` names
/// from `next` on.
pub open spec fn apart(initial: Seq<char>, end: Seq<char>, next: nat, count: nat) -> bool {
    &&& initial != end
    &&& !zone(next, count).contains(initial)
    &&& !zone(next, count).contains(end)
}

/// Every transition of `all` that starts in `sources` is one of `inner` and
/// ends in `stop` or in `sources`.
pub open spec fn stays(
    all: Set<Edge>,
    inner: Set<Edge>,
    sources: Set<Seq<char>>,
    stop: Seq<char>,
) -> bool {
    forall|e: Edge| #[trigger]
        all.contains(e) && sources.contains(e.from) ==> inner.contains(e) && (e.to == stop
            || sources.contains(e.to))
}

/// No transition of `all` starts in `state`.
pub open spec fn no_exit(all: Set<Edge>, state: Seq<char>) -> bool {
    forall|e: Edge| #[trigger] all.contains(e) ==> e.from != state
}

/// A walk from a state that no transition leaves goes nowhere.
proof fn lemma_no_exit(all: Set<Edge>, s: Seq<char>, path: Seq<Edge>, t: Seq<char>)
    requires
        walk(all, s, path, t),
        no_exit(all, s),
    ensures
        path.len() == 0,
        s == t,
{
    if path.len() > 0 {
        assert(all.contains(path[0]));
    }
}

/// The first transition of a walk that goes somewhere starts where the
/// walk starts, and the rest of the walk goes on from its end.
proof fn lemma_first(all: Set<Edge>, s: Seq<char>, path: Seq<Edge>, t: Seq<char>)
    requires
        walk(all, s, path, t),
        s != t,
    ensures
        path.len() > 0,
        all.contains(path[0]),
        path[0].from == s,
        walk(all, path[0].to, path.skip(1), t),
        reads(path) == label_text(path[0].when) + reads(path.skip(1)),
{
    lemma_walk_split(all, s, path, t, 1);
    assert(path.take(1) =~= seq![path[0]]);
    lemma_reads_one(path[0]);
}

/// A walk that starts among the sources of an inner part and ends outside
/// them goes through the inner part to the state where that part stops,
/// and on from there. The result is the number of transitions up to that
/// state.
proof fn lemma_through(
    all: Set<Edge>,
    inner: Set<Edge>,
    sources: Set<Seq<char>>,
    stop: Seq<char>,
    s: Seq<char>,
    path: Seq<Edge>,
    target: Seq<char>,
) -> (j: int)
    requires
        walk(all, s, path, target),
        stays(all, inner, sources, stop),
        sources.contains(s),
        !sources.contains(target),
        !sources.contains(stop),
    ensures
        1 <= j <= path.len(),
        walk(inner, s, path.take(j), stop),
        walk(all, stop, path.skip(j), target),
        reads(path) == reads(path.take(j)) + reads(path.skip(j)),
    decreases path.len(),
{
    lemma_first(all, s, path, target);
    let f = path[0];
    let rest = path.skip(1);
    lemma_walk_one(inner, f);
    if f.to == stop {
        assert(path.take(1) =~= seq![f]);
        lemma_walk_split(all, s, path, target, 1);
        1
    } else {
        let k = lemma_through(all, inner, sources, stop, f.to, rest, target);
        let j = k + 1;
        lemma_walk_concat(inner, s, seq![f], f.to, rest.take(k), stop);
        assert(path.take(j) =~= seq![f] + rest.take(k));
        assert(path.skip(j) =~= rest.skip(k));
        lemma_walk_split(all, s, path, target, j);
        j
    }
}

/// A transition leads from its start to its end and reads its label.
proof fn lemma_leads_edge(edges: Set<Edge>, e: Edge)
    requires
        edges.contains(e),
    ensures
        leads(edges, e.from, label_text(e.when), e.to),
{
    lemma_walk_one(edges, e);
    assert(walk(edges, e.from, seq![e], e.to) && reads(seq![e]) == label_text(e.when));
}

/// Where a walk reads a word to a state and another reads a word on from
/// it, a walk reads the one word and then the other.
proof fn lemma_leads_concat(
    edges: Set<Edge>,
    a: Seq<char>,
    first: Seq<char>,
    b: Seq<char>,
    second: Seq<char>,
    c: Seq<char>,
)
    requires
        leads(edges, a, first, b),
        leads(edges, b, second, c),
    ensures
        leads(edges, a, first + second, c),
{
    let p = choose|path: Seq<Edge>| #[trigger] walk(edges, a, path, b) && reads(path) == first;
    let q = choose|path: Seq<Edge>| #[trigger] walk(edges, b, path, c) && reads(path) == second;
    lemma_walk_concat(edges, a, p, b, q, c);
    assert(walk(edges, a, p + q, c) && reads(p + q) == first + second);
}

/// What leads along some transitions leads along more.
proof fn lemma_leads_more(
    edges: Set<Edge>,
    more: Set<Edge>,
    a: Seq<char>,
    word: Seq<char>,
    c: Seq<char>,
)
    requires
        leads(edges, a, word, c),
        edges.subset_of(more),
    ensures
        leads(more, a, word, c),
{
    let p = choose|path: Seq<Edge>| #[trigger] walk(edges, a, path, c) && reads(path) == word;
    lemma_walk_more(edges, more, a, p, c);
    assert(walk(more, a, p, c) && reads(p) == word);
}

/// Every word of the closure of an expression leads from the end of the
/// inner part to the end of the part for the closure.
proof fn lemma_complete_star(
    regex: RegularExpression,
    next: nat,
    initial: Seq<char>,
    end: Seq<char>,
    word: Seq<char>,
)
    requires
        regex is Closure,
        denotes(regex, word),
    ensures
        leads(part(regex, next, initial, end), state_name(next + 1), word, end),
    decreases regex, word.len(), 0nat,
{
    let all = part(regex, next, initial, end);
    let inner = regex->Closure_0;
    let m_start = state_name(next);
    let m_end = state_name(next + 1);
    if word.len() == 0 {
        assert(all.contains(eps(m_end, end)));
        lemma_leads_edge(all, eps(m_end, end));
        assert(word =~= Seq::<char>::empty());
    } else {
        let k = choose|k: int|
            #![trigger word.take(k)]
            1 <= k <= word.len() && denotes(*inner, word.take(k)) && denotes(regex, word.skip(k));
        lemma_complete(*inner, next + 2, m_start, m_end, word.take(k));
        lemma_leads_more(part(*inner, next + 2, m_start, m_end), all, m_start, word.take(k), m_end);
        lemma_complete_star(regex, next, initial, end, word.skip(k));
        assert(all.contains(eps(m_end, m_start)));
        lemma_leads_edge(all, eps(m_end, m_start));
        lemma_leads_concat(all, m_end, Seq::empty(), m_start, word.take(k), m_end);
        lemma_leads_concat(
            all,
            m_end,
            Seq::<char>::empty() + word.take(k),
            m_end,
            word.skip(k),
            end,
        );
        assert(Seq::<char>::empty() + word.take(k) + word.skip(k) =~= word);
    }
}

/// Every word of an expression leads through the part for the expression,
/// from its initial state to its end.
pub proof fn lemma_complete(
    regex: RegularExpression,
    next: nat,
    initial: Seq<char>,
    end: Seq<char>,
    word: Seq<char>,
)
    requires
        denotes(regex, word),
    ensures
        leads(part(regex, next, initial, end), initial, word, end),
    decreases regex, word.len(), 1nat,
{
    let all = part(regex, next, initial, end);
    match regex {
        RegularExpression::Epsilon => {
            lemma_leads_edge(all, eps(initial, end));
            assert(word =~= Seq::<char>::empty());
        },
        RegularExpression::Symbol(c) => {
            lemma_leads_edge(all, Edge { from: initial, when: Symbol::Symbol(c), to: end });
        },
        RegularExpression::Group(inner) => {
            lemma_complete(*inner, next, initial, end, word);
        },
        RegularExpression::Union(x, y) => {
            let x_start = state_name(next);
            let x_end = state_name(next + 1);
            let y_start = state_name(next + 2);
            let y_end = state_name(next + 3);
            if denotes(*x, word) {
                lemma_complete(*x, next + 4, x_start, x_end, word);
                lemma_leads_more(part(*x, next + 4, x_start, x_end), all, x_start, word, x_end);
                assert(all.contains(eps(initial, x_start)));
                assert(all.contains(eps(x_end, end)));
                lemma_leads_edge(all, eps(initial, x_start));
                lemma_leads_edge(all, eps(x_end, end));
                lemma_leads_concat(all, initial, Seq::empty(), x_start, word, x_end);
                lemma_leads_concat(
                    all,
                    initial,
                    Seq::<char>::empty() + word,
                    x_end,
                    Seq::empty(),
                    end,
                );
                assert(Seq::<char>::empty() + word + Seq::<char>::empty() =~= word);
            } else {
                let at = next + 4 + fresh_states(*x);
                lemma_complete(*y, at, y_start, y_end, word);
                lemma_leads_more(part(*y, at, y_start, y_end), all, y_start, word, y_end);
                assert(all.contains(eps(initial, y_start)));
                assert(all.contains(eps(y_end, end)));
                lemma_leads_edge(all, eps(initial, y_start));
                lemma_leads_edge(all, eps(y_end, end));
                lemma_leads_concat(all, initial, Seq::empty(), y_start, word, y_end);
                lemma_leads_concat(
                    all,
                    initial,
                    Seq::<char>::empty() + word,
                    y_end,
                    Seq::empty(),
                    end,
                );
                assert(Seq::<char>::empty() + word + Seq::<char>::empty() =~= word);
            }
        },
        RegularExpression::Concat(x, y) => {
            let middle = state_name(next);
            let at = next + 1 + fresh_states(*x);
            let k = choose|k: int|
                #![trigger word.take(k)]
                0 <= k <= word.len() && denotes(*x, word.take(k)) && denotes(*y, word.skip(k));
            lemma_complete(*x, next + 1, initial, middle, word.take(k));
            lemma_complete(*y, at, middle, end, word.skip(k));
            lemma_leads_more(part(*x, next + 1, initial, middle), all, initial, word.take(k), middle);
            lemma_leads_more(part(*y, at, middle, end), all, middle, word.skip(k), end);
            lemma_leads_concat(all, initial, word.take(k), middle, word.skip(k), end);
            assert(word.take(k) + word.skip(k) =~= word);
        },
        RegularExpression::Closure(inner) => {
            let m_start = state_name(next);
            let m_end = state_name(next + 1);
            if word.len() == 0 {
                assert(all.contains(eps(initial, end)));
                lemma_leads_edge(all, eps(initial, end));
                assert(word =~= Seq::<char>::empty());
            } else {
                let k = choose|k: int|
                    #![trigger word.take(k)]
                    1 <= k <= word.len() && denotes(*inner, word.take(k)) && denotes(
                        regex,
                        word.skip(k),
                    );
                lemma_complete(*inner, next + 2, m_start, m_end, word.take(k));
                lemma_leads_more(
                    part(*inner, next + 2, m_start, m_end),
                    all,
                    m_start,
                    word.take(k),
                    m_end,
                );
                lemma_complete_star(regex, next, initial, end, word.skip(k));
                assert(all.contains(eps(initial, m_start)));
                lemma_leads_edge(all, eps(initial, m_start));
                lemma_leads_concat(all, initial, Seq::empty(), m_start, word.take(k), m_end);
                lemma_leads_concat(
                    all,
                    initial,
                    Seq::<char>::empty() + word.take(k),
                    m_end,
                    word.skip(k),
                    end,
                );
                assert(Seq::<char>::empty() + word.take(k) + word.skip(k) =~= word);
            }
        },
    }
}

/// What the soundness of a concatenation rests on: the walk stays in the
/// first part up to the middle state and in the second part from there on.
proof fn lemma_concat_facts(
    x: RegularExpression,
    y: RegularExpression,
    next: nat,
    initial: Seq<char>,
    end: Seq<char>,
)
    requires
        apart(initial, end, next, 1 + fresh_states(x) + fresh_states(y)),
    ensures
        ({
            let fx = fresh_states(x);
            let fy = fresh_states(y);
            let middle = state_name(next);
            let first = part(x, next + 1, initial, middle);
            let second = part(y, next + 1 + fx, middle, end);
            let all = first.union(second);
            let first_sources = zone(next + 1, fx).insert(initial);
            let second_sources = zone(next + 1 + fx, fy).insert(middle);
            &&& stays(all, first, first_sources, middle)
            &&& stays(all, second, second_sources, end)
            &&& !first_sources.contains(middle)
            &&& !first_sources.contains(end)
            &&& !second_sources.contains(end)
            &&& no_exit(all, end)
            &&& apart(initial, middle, next + 1, fx)
            &&& apart(middle, end, next + 1 + fx, fy)
        }),
{
    let fx = fresh_states(x);
    let fy = fresh_states(y);
    let count = 1 + fx + fy;
    let middle = state_name(next);
    let first = part(x, next + 1, initial, middle);
    let second = part(y, next + 1 + fx, middle, end);
    let all = first.union(second);
    let zx = zone(next + 1, fx);
    let zy = zone(next + 1 + fx, fy);
    lemma_part_shape(x, next + 1, initial, middle);
    lemma_part_shape(y, next + 1 + fx, middle, end);
    lemma_zone(next, next, count);
    lemma_zone(next, next + 1, fx);
    lemma_zone(next, next + 1 + fx, fy);
    lemma_zone_within(next + 1, fx, next, count);
    lemma_zone_within(next + 1 + fx, fy, next, count);
    lemma_zone_apart(next + 1, fx, next + 1 + fx, fy);
    assert forall|e: Edge| #[trigger] all.contains(e) && zx.insert(initial).contains(e.from) implies first.contains(
        e,
    ) && (e.to == middle || zx.insert(initial).contains(e.to)) by {
        if second.contains(e) {
            assert(e.from == middle || zy.contains(e.from));
        }
    }
    assert forall|e: Edge| #[trigger] all.contains(e) && zy.insert(middle).contains(e.from) implies second.contains(
        e,
    ) && (e.to == end || zy.insert(middle).contains(e.to)) by {
        if first.contains(e) {
            assert(e.from == initial || zx.contains(e.from));
        }
    }
    assert forall|e: Edge| #[trigger] all.contains(e) implies e.from != end by {
        if first.contains(e) {
            assert(e.from == initial || zx.contains(e.from));
        } else {
            assert(e.from == middle || zy.contains(e.from));
        }
    }
}

/// A walk through the part for a concatenation falls into a walk through
/// the first part and a walk through the second. The result is the number
/// of transitions of the first.
proof fn lemma_concat_split(
    x: RegularExpression,
    y: RegularExpression,
    next: nat,
    initial: Seq<char>,
    end: Seq<char>,
    path: Seq<Edge>,
) -> (j: int)
    requires
        apart(initial, end, next, 1 + fresh_states(x) + fresh_states(y)),
        walk(
            part(x, next + 1, initial, state_name(next)).union(
                part(y, next + 1 + fresh_states(x), state_name(next), end),
            ),
            initial,
            path,
            end,
        ),
    ensures
        0 <= j <= path.len(),
        walk(part(x, next + 1, initial, state_name(next)), initial, path.take(j), state_name(next)),
        walk(
            part(y, next + 1 + fresh_states(x), state_name(next), end),
            state_name(next),
            path.skip(j),
            end,
        ),
        reads(path) == reads(path.take(j)) + reads(path.skip(j)),
{
    let fx = fresh_states(x);
    let fy = fresh_states(y);
    let middle = state_name(next);
    let first = part(x, next + 1, initial, middle);
    let second = part(y, next + 1 + fx, middle, end);
    let all = first.union(second);
    let first_sources = zone(next + 1, fx).insert(initial);
    let second_sources = zone(next + 1 + fx, fy).insert(middle);
    lemma_concat_facts(x, y, next, initial, end);
    let j = lemma_through(all, first, first_sources, middle, initial, path, end);
    let rest = path.skip(j);
    let k = lemma_through(all, second, second_sources, end, middle, rest, end);
    lemma_no_exit(all, end, rest.skip(k), end);
    assert(rest.take(k) =~= rest);
    j
}

/// What the soundness of a union rests on: after the first transition the
/// walk stays in one operand's part up to that part's end, from which one
/// transition leads to the end.
proof fn lemma_union_facts(
    x: RegularExpression,
    y: RegularExpression,
    next: nat,
    initial: Seq<char>,
    end: Seq<char>,
)
    requires
        apart(initial, end, next, 4 + fresh_states(x) + fresh_states(y)),
    ensures
        ({
            let fx = fresh_states(x);
            let fy = fresh_states(y);
            let x_start = state_name(next);
            let x_end = state_name(next + 1);
            let y_start = state_name(next + 2);
            let y_end = state_name(next + 3);
            let left = part(x, next + 4, x_start, x_end);
            let right = part(y, next + 4 + fx, y_start, y_end);
            let all = part(
                RegularExpression::Union(Box::new(x), Box::new(y)),
                next,
                initial,
                end,
            );
            let left_sources = zone(next + 4, fx).insert(x_start);
            let right_sources = zone(next + 4 + fx, fy).insert(y_start);
            &&& stays(all, left, left_sources, x_end)
            &&& stays(all, right, right_sources, y_end)
            &&& !left_sources.contains(x_end)
            &&& !left_sources.contains(end)
            &&& !right_sources.contains(y_end)
            &&& !right_sources.contains(end)
            &&& no_exit(all, end)
            &&& apart(x_start, x_end, next + 4, fx)
            &&& apart(y_start, y_end, next + 4 + fx, fy)
            &&& x_end != end
            &&& y_end != end
            &&& forall|e: Edge| #[trigger]
                all.contains(e) && e.from == initial ==> e == eps(initial, x_start) || e == eps(
                    initial,
                    y_start,
                )
            &&& forall|e: Edge| #[trigger] all.contains(e) && e.from == x_end ==> e == eps(x_end, end)
            &&& forall|e: Edge| #[trigger] all.contains(e) && e.from == y_end ==> e == eps(y_end, end)
        }),
{
    let fx = fresh_states(x);
    let fy = fresh_states(y);
    let count = 4 + fx + fy;
    let x_start = state_name(next);
    let x_end = state_name(next + 1);
    let y_start = state_name(next + 2);
    let y_end = state_name(next + 3);
    let left = part(x, next + 4, x_start, x_end);
    let right = part(y, next + 4 + fx, y_start, y_end);
    let frame = set![eps(initial, x_start), eps(initial, y_start), eps(x_end, end), eps(y_end, end)];
    let all = part(RegularExpression::Union(Box::new(x), Box::new(y)), next, initial, end);
    assert(all == frame.union(left).union(right));
    let zx = zone(next + 4, fx);
    let zy = zone(next + 4 + fx, fy);
    lemma_part_shape(x, next + 4, x_start, x_end);
    lemma_part_shape(y, next + 4 + fx, y_start, y_end);
    lemma_zone(next, next, count);
    lemma_zone(next + 1, next, count);
    lemma_zone(next + 2, next, count);
    lemma_zone(next + 3, next, count);
    lemma_zone(next, next + 4, fx);
    lemma_zone(next + 1, next + 4, fx);
    lemma_zone(next + 2, next + 4, fx);
    lemma_zone(next + 3, next + 4, fx);
    lemma_zone(next, next + 4 + fx, fy);
    lemma_zone(next + 1, next + 4 + fx, fy);
    lemma_zone(next + 2, next + 4 + fx, fy);
    lemma_zone(next + 3, next + 4 + fx, fy);
    lemma_zone_within(next + 4, fx, next, count);
    lemma_zone_within(next + 4 + fx, fy, next, count);
    lemma_zone_apart(next + 4, fx, next + 4 + fx, fy);
    lemma_names_differ(next, next + 1);
    lemma_names_differ(next, next + 2);
    lemma_names_differ(next, next + 3);
    lemma_names_differ(next + 1, next + 2);
    lemma_names_differ(next + 1, next + 3);
    lemma_names_differ(next + 2, next + 3);
    assert forall|e: Edge| #[trigger] all.contains(e) implies (frame.contains(e) && (e.from == initial
        || e.from == x_end || e.from == y_end)) || (left.contains(e) && (e.from == x_start
        || zx.contains(e.from)) && (e.to == x_end || zx.contains(e.to))) || (right.contains(e) && (
    e.from == y_start || zy.contains(e.from)) && (e.to == y_end || zy.contains(e.to))) by {}
    assert forall|e: Edge| #[trigger] all.contains(e) && zx.insert(x_start).contains(e.from) implies left.contains(
        e,
    ) && (e.to == x_end || zx.insert(x_start).contains(e.to)) by {}
    assert forall|e: Edge| #[trigger] all.contains(e) && zy.insert(y_start).contains(e.from) implies right.contains(
        e,
    ) && (e.to == y_end || zy.insert(y_start).contains(e.to)) by {}
    assert forall|e: Edge| #[trigger] all.contains(e) implies e.from != end by {}
    assert forall|e: Edge| #[trigger] all.contains(e) && e.from == initial implies e == eps(
        initial,
        x_start,
    ) || e == eps(initial, y_start) by {}
    assert forall|e: Edge| #[trigger] all.contains(e) && e.from == x_end implies e == eps(
        x_end,
        end,
    ) by {}
    assert forall|e: Edge| #[trigger] all.contains(e) && e.from == y_end implies e == eps(
        y_end,
        end,
    ) by {}
}

/// Names with different numbers are different.
proof fn lemma_names_differ(a: nat, b: nat)
    requires
        a != b,
    ensures
        state_name(a) != state_name(b),
{
    if state_name(a) == state_name(b) {
        lemma_state_name_injective(a, b);
    }
}

/// A walk that arrives at the end of an operand's part goes on with the one
/// transition that leads from there to the end, and then stops.
proof fn lemma_last_step(all: Set<Edge>, from: Seq<char>, path: Seq<Edge>, end: Seq<char>)
    requires
        walk(all, from, path, end),
        from != end,
        no_exit(all, end),
        forall|e: Edge| #[trigger] all.contains(e) && e.from == from ==> e == eps(from, end),
    ensures
        path == seq![eps(from, end)],
        reads(path) == Seq::<char>::empty(),
{
    lemma_first(all, from, path, end);
    lemma_no_exit(all, end, path.skip(1), end);
    assert(path =~= seq![eps(from, end)]);
    lemma_reads_one(eps(from, end));
}

/// A walk through the part for a union goes through the part of one of the
/// operands; the result tells whether it is the first, and gives the walk
/// through that part, which reads what the whole walk reads.
proof fn lemma_union_split(
    x: RegularExpression,
    y: RegularExpression,
    next: nat,
    initial: Seq<char>,
    end: Seq<char>,
    path: Seq<Edge>,
) -> (found: (bool, Seq<Edge>))
    requires
        apart(initial, end, next, 4 + fresh_states(x) + fresh_states(y)),
        walk(
            part(RegularExpression::Union(Box::new(x), Box::new(y)), next, initial, end),
            initial,
            path,
            end,
        ),
    ensures
        reads(found.1) == reads(path),
        found.0 ==> walk(
            part(x, next + 4, state_name(next), state_name(next + 1)),
            state_name(next),
            found.1,
            state_name(next + 1),
        ),
        !found.0 ==> walk(
            part(y, next + 4 + fresh_states(x), state_name(next + 2), state_name(next + 3)),
            state_name(next + 2),
            found.1,
            state_name(next + 3),
        ),
{
    let fx = fresh_states(x);
    let fy = fresh_states(y);
    let x_start = state_name(next);
    let x_end = state_name(next + 1);
    let y_start = state_name(next + 2);
    let y_end = state_name(next + 3);
    let left = part(x, next + 4, x_start, x_end);
    let right = part(y, next + 4 + fx, y_start, y_end);
    let all = part(RegularExpression::Union(Box::new(x), Box::new(y)), next, initial, end);
    lemma_union_facts(x, y, next, initial, end);
    lemma_first(all, initial, path, end);
    let rest = path.skip(1);
    if path[0] == eps(initial, x_start) {
        let sources = zone(next + 4, fx).insert(x_start);
        let j = lemma_through(all, left, sources, x_end, x_start, rest, end);
        lemma_last_step(all, x_end, rest.skip(j), end);
        assert(reads(path) =~= reads(rest.take(j)));
        (true, rest.take(j))
    } else {
        let sources = zone(next + 4 + fx, fy).insert(y_start);
        let j = lemma_through(all, right, sources, y_end, y_start, rest, end);
        lemma_last_step(all, y_end, rest.skip(j), end);
        assert(reads(path) =~= reads(rest.take(j)));
        (false, rest.take(j))
    }
}

/// What the soundness of a closure rests on: from the start of the inner
/// part the walk stays in that part up to its end, from which it goes to
/// the end or back to the start.
proof fn lemma_closure_facts(
    inner: RegularExpression,
    next: nat,
    initial: Seq<char>,
    end: Seq<char>,
)
    requires
        apart(initial, end, next, 2 + fresh_states(inner)),
    ensures
        ({
            let f = fresh_states(inner);
            let m_start = state_name(next);
            let m_end = state_name(next + 1);
            let body = part(inner, next + 2, m_start, m_end);
            let all = part(RegularExpression::Closure(Box::new(inner)), next, initial, end);
            let sources = zone(next + 2, f).insert(m_start);
            &&& stays(all, body, sources, m_end)
            &&& !sources.contains(m_end)
            &&& !sources.contains(end)
            &&& no_exit(all, end)
            &&& apart(m_start, m_end, next + 2, f)
            &&& m_end != end
            &&& m_start != end
            &&& forall|e: Edge| #[trigger]
                all.contains(e) && e.from == initial ==> e == eps(initial, m_start) || e == eps(
                    initial,
                    end,
                )
            &&& forall|e: Edge| #[trigger]
                all.contains(e) && e.from == m_end ==> e == eps(m_end, end) || e == eps(
                    m_end,
                    m_start,
                )
        }),
{
    let f = fresh_states(inner);
    let count = 2 + f;
    let m_start = state_name(next);
    let m_end = state_name(next + 1);
    let body = part(inner, next + 2, m_start, m_end);
    let frame = set![eps(initial, m_start), eps(m_end, end), eps(initial, end), eps(m_end, m_start)];
    let all = part(RegularExpression::Closure(Box::new(inner)), next, initial, end);
    assert(all == frame.union(body));
    let z = zone(next + 2, f);
    lemma_part_shape(inner, next + 2, m_start, m_end);
    lemma_zone(next, next, count);
    lemma_zone(next + 1, next, count);
    lemma_zone(next, next + 2, f);
    lemma_zone(next + 1, next + 2, f);
    lemma_zone_within(next + 2, f, next, count);
    lemma_names_differ(next, next + 1);
    assert forall|e: Edge| #[trigger] all.contains(e) implies (frame.contains(e) && (e.from == initial
        || e.from == m_end)) || (body.contains(e) && (e.from == m_start || z.contains(e.from)) && (
    e.to == m_end || z.contains(e.to))) by {}
    assert forall|e: Edge| #[trigger] all.contains(e) && z.insert(m_start).contains(e.from) implies body.contains(
        e,
    ) && (e.to == m_end || z.insert(m_start).contains(e.to)) by {}
    assert forall|e: Edge| #[trigger] all.contains(e) implies e.from != end by {}
    assert forall|e: Edge| #[trigger] all.contains(e) && e.from == initial implies e == eps(
        initial,
        m_start,
    ) || e == eps(initial, end) by {}
    assert forall|e: Edge| #[trigger] all.contains(e) && e.from == m_end implies e == eps(m_end, end)
        || e == eps(m_end, m_start) by {}
}

/// A walk from the start of the inner part of a closure to the end reads a
/// word of the closure.
proof fn lemma_sound_star(
    regex: RegularExpression,
    next: nat,
    initial: Seq<char>,
    end: Seq<char>,
    path: Seq<Edge>,
)
    requires
        regex is Closure,
        apart(initial, end, next, fresh_states(regex)),
        walk(part(regex, next, initial, end), state_name(next), path, end),
    ensures
        denotes(regex, reads(path)),
    decreases regex, path.len(), 0nat,
{
    let inner = *regex->Closure_0;
    assert(regex == RegularExpression::Closure(Box::new(inner)));
    let f = fresh_states(inner);
    let m_start = state_name(next);
    let m_end = state_name(next + 1);
    let body = part(inner, next + 2, m_start, m_end);
    let all = part(regex, next, initial, end);
    let sources = zone(next + 2, f).insert(m_start);
    lemma_closure_facts(inner, next, initial, end);
    let j = lemma_through(all, body, sources, m_end, m_start, path, end);
    let round = path.take(j);
    let tail = path.skip(j);
    lemma_sound(inner, next + 2, m_start, m_end, round);
    lemma_first(all, m_end, tail, end);
    let rest = tail.skip(1);
    if tail[0] == eps(m_end, end) {
        lemma_no_exit(all, end, rest, end);
        assert(reads(rest) =~= Seq::<char>::empty());
        assert(reads(path) =~= reads(round));
        lemma_closure_once(inner, reads(round));
    } else {
        lemma_sound_star(regex, next, initial, end, rest);
        assert(reads(path) =~= reads(round) + reads(rest));
        lemma_closure_more(inner, reads(round), reads(rest));
    }
}

/// A walk through the part for an expression, from its initial state to
/// its end, reads a word of the expression.
pub proof fn lemma_sound(
    regex: RegularExpression,
    next: nat,
    initial: Seq<char>,
    end: Seq<char>,
    path: Seq<Edge>,
)
    requires
        apart(initial, end, next, fresh_states(regex)),
        walk(part(regex, next, initial, end), initial, path, end),
    ensures
        denotes(regex, reads(path)),
    decreases regex, path.len(), 1nat,
{
    let all = part(regex, next, initial, end);
    match regex {
        RegularExpression::Epsilon => {
            lemma_first(all, initial, path, end);
            lemma_no_exit(all, end, path.skip(1), end);
            assert(reads(path) =~= Seq::<char>::empty());
        },
        RegularExpression::Symbol(c) => {
            lemma_first(all, initial, path, end);
            lemma_no_exit(all, end, path.skip(1), end);
            assert(reads(path) =~= seq![c]);
        },
        RegularExpression::Group(inner) => {
            lemma_sound(*inner, next, initial, end, path);
        },
        RegularExpression::Union(x, y) => {
            let (first, found) = lemma_union_split(*x, *y, next, initial, end, path);
            lemma_union_facts(*x, *y, next, initial, end);
            if first {
                lemma_sound(*x, next + 4, state_name(next), state_name(next + 1), found);
            } else {
                lemma_sound(
                    *y,
                    next + 4 + fresh_states(*x),
                    state_name(next + 2),
                    state_name(next + 3),
                    found,
                );
            }
        },
        RegularExpression::Concat(x, y) => {
            let j = lemma_concat_split(*x, *y, next, initial, end, path);
            lemma_concat_facts(*x, *y, next, initial, end);
            let middle = state_name(next);
            lemma_sound(*x, next + 1, initial, middle, path.take(j));
            lemma_sound(*y, next + 1 + fresh_states(*x), middle, end, path.skip(j));
            lemma_concat_both(*x, *y, reads(path.take(j)), reads(path.skip(j)));
        },
        RegularExpression::Closure(inner) => {
            lemma_closure_facts(*inner, next, initial, end);
            lemma_first(all, initial, path, end);
            let rest = path.skip(1);
            if path[0] == eps(initial, end) {
                lemma_no_exit(all, end, rest, end);
                assert(reads(path) =~= Seq::<char>::empty());
            } else {
                assert(reads(path) =~= reads(rest));
                lemma_sound_star(regex, next, initial, end, rest);
            }
        },
    }
}

/// The automaton for a regular expression accepts exactly the words that
/// the expression denotes.
pub proof fn lemma_thompson_language(regex: RegularExpression, word: Seq<char>)
    ensures
        thompson(regex).accepts(word) <==> denotes(regex, word),
{
    let a = thompson(regex);
    let q0 = state_name(0);
    let q1 = state_name(1);
    lemma_thompson_shape(regex);
    lemma_thompson_edges(regex);
    lemma_run_is_walk(a, q0, word, q1);
    lemma_names_differ(0, 1);
    assert(a.states.contains(q0)) by {
        assert(0 < 2 + fresh_states(regex) && q0 == state_name(0));
    }
    let at = a.run(a.start(), word);
    assert(a.accepts(word) <==> at.contains(q1)) by {
        if a.accepts(word) {
            let n = choose|n: Seq<char>| at.contains(n) && a.finals.contains(n);
        }
    }
    assert(apart(q0, q1, 2, fresh_states(regex))) by {
        lemma_zone(0, 2, fresh_states(regex));
        lemma_zone(1, 2, fresh_states(regex));
    }
    if denotes(regex, word) {
        lemma_complete(regex, 2, q0, q1, word);
    }
    if leads(a.edges, q0, word, q1) {
        let path = choose|path: Seq<Edge>| #[trigger]
            walk(a.edges, q0, path, q1) && reads(path) == word;
        lemma_sound(regex, 2, q0, q1, path);
    }
}

/// The deterministic automaton made from the automaton for a regular
/// expression accepts exactly the words that the expression denotes.
pub proof fn lemma_determinized_thompson_language(regex: RegularExpression, word: Seq<char>)
    ensures
        determinized(thompson(regex)).accepts(word) <==> denotes(regex, word),
{
    lemma_thompson_unambiguous(regex);
    lemma_determinized_language(thompson(regex), word);
    lemma_thompson_language(regex, word);
}

} // verus!
