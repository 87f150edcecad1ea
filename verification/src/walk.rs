//! Walks along the transitions of an automaton, and the words they read.
//!
//! An automaton may be in a state after a word exactly if a walk from its
//! initial state to that state reads the word.

use vstd::prelude::*;
use crate::language::lemma_run_from_nothing;
use crate::model::Automaton;
use crate::symbol::Symbol;
use crate::transition::Edge;

verus! {

/// Each transition of `path` ends where the next one starts.
pub open spec fn chained(path: Seq<Edge>) -> bool {
    forall|i: int| 0 <= i < path.len() - 1 ==> (#[trigger] path[i]).to == path[i + 1].from
}

/// `path` is a walk from `from` to `to` along transitions of `edges`.
pub open spec fn walk(edges: Set<Edge>, from: Seq<char>, path: Seq<Edge>, to: Seq<char>) -> bool {
    &&& forall|i: int| 0 <= i < path.len() ==> edges.contains(#[trigger] path[i])
    &&& chained(path)
    &&& if path.len() == 0 {
        from == to
    } else {
        path.first().from == from && path.last().to == to
    }
}

/// What a transition with the label `when` reads.
pub open spec fn label_text(when: Symbol) -> Seq<char> {
    match when {
        Symbol::Epsilon => Seq::empty(),
        Symbol::Symbol(c) => seq![c],
    }
}

/// The word that a walk reads: the characters on its transitions, in order.
pub open spec fn reads(path: Seq<Edge>) -> Seq<char>
    decreases path.len(),
{
    if path.len() == 0 {
        Seq::empty()
    } else {
        reads(path.drop_last()) + label_text(path.last().when)
    }
}

/// Some walk from `from` to `to` along transitions of `edges` reads `word`.
pub open spec fn leads(edges: Set<Edge>, from: Seq<char>, word: Seq<char>, to: Seq<char>) -> bool {
    exists|path: Seq<Edge>| #[trigger] walk(edges, from, path, to) && reads(path) == word
}

/// A walk of one transition reads what the transition reads.
pub proof fn lemma_reads_one(e: Edge)
    ensures
        reads(seq![e]) == label_text(e.when),
{
    let path = seq![e];
    assert(path.drop_last() =~= Seq::<Edge>::empty());
    assert(reads(path.drop_last()) =~= Seq::<char>::empty());
    assert(reads(path) =~= label_text(e.when));
}

/// Two walks, one after the other, read the word of the first and then the
/// word of the second.
pub proof fn lemma_reads_concat(p: Seq<Edge>, q: Seq<Edge>)
    ensures
        reads(p + q) == reads(p) + reads(q),
    decreases q.len(),
{
    if q.len() == 0 {
        assert(p + q =~= p);
        assert(reads(p) + reads(q) =~= reads(p));
    } else {
        lemma_reads_concat(p, q.drop_last());
        assert((p + q).drop_last() =~= p + q.drop_last());
        assert(reads(p + q) =~= reads(p) + reads(q));
    }
}

/// A walk to a state and a walk on from it make one walk.
pub proof fn lemma_walk_concat(
    edges: Set<Edge>,
    a: Seq<char>,
    p: Seq<Edge>,
    b: Seq<char>,
    q: Seq<Edge>,
    c: Seq<char>,
)
    requires
        walk(edges, a, p, b),
        walk(edges, b, q, c),
    ensures
        walk(edges, a, p + q, c),
        reads(p + q) == reads(p) + reads(q),
{
    lemma_reads_concat(p, q);
    let whole = p + q;
    assert forall|i: int| 0 <= i < whole.len() implies edges.contains(#[trigger] whole[i]) by {
        if i < p.len() {
            assert(whole[i] == p[i]);
        } else {
            assert(whole[i] == q[i - p.len()]);
        }
    }
    assert forall|i: int| 0 <= i < whole.len() - 1 implies (#[trigger] whole[i]).to == whole[i
        + 1].from by {
        if i < p.len() - 1 {
            assert(whole[i] == p[i] && whole[i + 1] == p[i + 1]);
        } else if i == p.len() - 1 {
            assert(whole[i] == p[i] && whole[i + 1] == q[0]);
        } else {
            assert(whole[i] == q[i - p.len()] && whole[i + 1] == q[i - p.len() + 1]);
        }
    }
    if p.len() == 0 {
        assert(whole =~= q);
    } else if q.len() == 0 {
        assert(whole =~= p);
    } else {
        assert(whole.first() == p.first());
        assert(whole.last() == q.last());
    }
}

/// The state that a walk from `from` is in after `k` of its transitions.
pub open spec fn state_at(from: Seq<char>, path: Seq<Edge>, k: int) -> Seq<char> {
    if k <= 0 {
        from
    } else {
        path[k - 1].to
    }
}

/// A walk falls into the walk of its first `k` transitions and the walk of
/// the rest.
pub proof fn lemma_walk_split(
    edges: Set<Edge>,
    a: Seq<char>,
    path: Seq<Edge>,
    c: Seq<char>,
    k: int,
)
    requires
        walk(edges, a, path, c),
        0 <= k <= path.len(),
    ensures
        walk(edges, a, path.take(k), state_at(a, path, k)),
        walk(edges, state_at(a, path, k), path.skip(k), c),
        reads(path) == reads(path.take(k)) + reads(path.skip(k)),
{
    let p = path.take(k);
    let q = path.skip(k);
    assert(path =~= p + q);
    lemma_reads_concat(p, q);
    assert forall|i: int| 0 <= i < p.len() implies edges.contains(#[trigger] p[i]) by {
        assert(p[i] == path[i]);
    }
    assert forall|i: int| 0 <= i < q.len() implies edges.contains(#[trigger] q[i]) by {
        assert(q[i] == path[i + k]);
    }
    assert forall|i: int| 0 <= i < p.len() - 1 implies (#[trigger] p[i]).to == p[i + 1].from by {
        assert(p[i] == path[i] && p[i + 1] == path[i + 1]);
    }
    assert forall|i: int| 0 <= i < q.len() - 1 implies (#[trigger] q[i]).to == q[i + 1].from by {
        assert(q[i] == path[i + k] && q[i + 1] == path[i + k + 1]);
    }
    if 0 < k < path.len() {
        assert(path[k - 1].to == path[k - 1 + 1].from);
    }
}

/// A walk along some transitions is a walk along more.
pub proof fn lemma_walk_more(
    edges: Set<Edge>,
    more: Set<Edge>,
    a: Seq<char>,
    path: Seq<Edge>,
    c: Seq<char>,
)
    requires
        walk(edges, a, path, c),
        edges.subset_of(more),
    ensures
        walk(more, a, path, c),
{
}

/// A walk reads nothing exactly if all its transitions are epsilon
/// transitions.
pub proof fn lemma_reads_nothing(path: Seq<Edge>)
    ensures
        reads(path).len() == 0 <==> forall|i: int|
            0 <= i < path.len() ==> (#[trigger] path[i]).when == Symbol::Epsilon,
    decreases path.len(),
{
    if path.len() > 0 {
        let rest = path.drop_last();
        lemma_reads_nothing(rest);
        if reads(path).len() == 0 {
            assert forall|i: int| 0 <= i < path.len() implies (#[trigger] path[i]).when
                == Symbol::Epsilon by {
                if i < rest.len() {
                    assert(rest[i] == path[i]);
                }
            }
        }
        if forall|i: int| 0 <= i < path.len() ==> (#[trigger] path[i]).when == Symbol::Epsilon {
            assert(path[path.len() - 1].when == Symbol::Epsilon);
            assert forall|i: int| 0 <= i < rest.len() implies (#[trigger] rest[i]).when
                == Symbol::Epsilon by {
                assert(rest[i] == path[i]);
            }
        }
    }
}

/// One state reaches another by epsilon transitions exactly if a walk from
/// the one to the other reads nothing.
pub proof fn lemma_eps_reaches_is_walk(a: Automaton, s: Seq<char>, t: Seq<char>)
    ensures
        a.eps_reaches(s, t) <==> leads(a.edges, s, Seq::empty(), t),
{
    if a.eps_reaches(s, t) {
        let states = choose|path: Seq<Seq<char>>| #[trigger]
            a.eps_path(path) && path.first() == s && path.last() == t;
        let path = Seq::new(
            (states.len() - 1) as nat,
            |i: int| Edge { from: states[i], when: Symbol::Epsilon, to: states[i + 1] },
        );
        assert forall|i: int| 0 <= i < path.len() implies a.edges.contains(#[trigger] path[i]) by {
            assert(a.eps_edge(states[i], states[i + 1]));
        }
        lemma_reads_nothing(path);
        assert(reads(path) =~= Seq::<char>::empty());
        assert(walk(a.edges, s, path, t));
    }
    if leads(a.edges, s, Seq::empty(), t) {
        let path = choose|path: Seq<Edge>| #[trigger]
            walk(a.edges, s, path, t) && reads(path) == Seq::<char>::empty();
        lemma_reads_nothing(path);
        let states = Seq::new(path.len() + 1, |i: int| state_at(s, path, i));
        assert forall|i: int| 0 <= i < states.len() - 1 implies a.eps_edge(
            #[trigger] states[i],
            states[i + 1],
        ) by {
            let e = path[i];
            assert(a.edges.contains(e));
            assert(e.when == Symbol::Epsilon);
            if i > 0 {
                assert(path[i - 1].to == path[i - 1 + 1].from);
            }
            assert(e == Edge { from: states[i], when: Symbol::Epsilon, to: states[i + 1] });
        }
        assert(a.eps_path(states) && states.first() == s && states.last() == t);
    }
}

/// A walk that reads a word with a last character has a transition that
/// reads that character, before which it reads the rest of the word and
/// after which it reads nothing.
pub proof fn lemma_last_read(path: Seq<Edge>, word: Seq<char>, c: char) -> (j: int)
    requires
        reads(path) == word.push(c),
    ensures
        0 <= j < path.len(),
        path[j].when == Symbol::Symbol(c),
        reads(path.take(j)) == word,
        reads(path.skip(j + 1)) == Seq::<char>::empty(),
    decreases path.len(),
{
    if path.len() == 0 {
        assert(word.push(c).len() > 0);
        0
    } else {
        let rest = path.drop_last();
        let last = path.last();
        match last.when {
            Symbol::Symbol(x) => {
                let j = path.len() - 1;
                assert(reads(path) == reads(rest) + seq![x]);
                assert(reads(path)[reads(path).len() - 1] == x);
                assert(word.push(c)[word.len() as int] == c);
                assert(reads(rest) =~= reads(path).drop_last());
                assert(word =~= word.push(c).drop_last());
                assert(path.take(j) =~= rest);
                assert(path.skip(j + 1) =~= Seq::<Edge>::empty());
                j
            },
            Symbol::Epsilon => {
                assert(reads(path) =~= reads(rest));
                let j = lemma_last_read(rest, word, c);
                assert(path.take(j) =~= rest.take(j));
                assert(path.skip(j + 1) =~= rest.skip(j + 1).push(last));
                assert(path.skip(j + 1).drop_last() =~= rest.skip(j + 1));
                assert(reads(path.skip(j + 1)) =~= Seq::<char>::empty());
                j
            },
        }
    }
}

/// A transition is a walk from its start to its end that reads its label.
pub proof fn lemma_walk_one(edges: Set<Edge>, e: Edge)
    requires
        edges.contains(e),
    ensures
        walk(edges, e.from, seq![e], e.to),
        reads(seq![e]) == label_text(e.when),
{
    lemma_reads_one(e);
    let path = seq![e];
    assert(path[0] == e);
}

/// A walk that reads a word, a transition on a character and a walk that
/// reads nothing make a walk that reads the word and then the character.
pub proof fn lemma_leads_on(
    edges: Set<Edge>,
    s: Seq<char>,
    word: Seq<char>,
    u: Seq<char>,
    c: char,
    m: Seq<char>,
    t: Seq<char>,
)
    requires
        leads(edges, s, word, u),
        edges.contains(Edge { from: u, when: Symbol::Symbol(c), to: m }),
        leads(edges, m, Seq::empty(), t),
    ensures
        leads(edges, s, word.push(c), t),
{
    let e = Edge { from: u, when: Symbol::Symbol(c), to: m };
    let p1 = choose|path: Seq<Edge>| #[trigger] walk(edges, s, path, u) && reads(path) == word;
    let p3 = choose|path: Seq<Edge>| #[trigger]
        walk(edges, m, path, t) && reads(path) == Seq::<char>::empty();
    lemma_walk_one(edges, e);
    lemma_walk_concat(edges, s, p1, u, seq![e], m);
    lemma_walk_concat(edges, s, p1 + seq![e], m, p3, t);
    assert(reads(p1 + seq![e] + p3) =~= word.push(c));
    assert(walk(edges, s, p1 + seq![e] + p3, t));
}

/// A walk that reads a word and then a character falls into a walk that
/// reads the word, a transition on the character, and a walk that reads
/// nothing. The result is the start and the end of that transition.
pub proof fn lemma_leads_back(
    edges: Set<Edge>,
    s: Seq<char>,
    word: Seq<char>,
    c: char,
    t: Seq<char>,
) -> (ends: (Seq<char>, Seq<char>))
    requires
        leads(edges, s, word.push(c), t),
    ensures
        leads(edges, s, word, ends.0),
        edges.contains(Edge { from: ends.0, when: Symbol::Symbol(c), to: ends.1 }),
        leads(edges, ends.1, Seq::empty(), t),
{
    let path = choose|path: Seq<Edge>| #[trigger]
        walk(edges, s, path, t) && reads(path) == word.push(c);
    let j = lemma_last_read(path, word, c);
    lemma_walk_split(edges, s, path, t, j);
    let u = state_at(s, path, j);
    lemma_walk_split(edges, s, path, t, j + 1);
    let m = state_at(s, path, j + 1);
    let e = path[j];
    assert(edges.contains(e));
    assert(e.to == m);
    assert(e.from == u) by {
        if j > 0 {
            assert(path[j - 1].to == path[j - 1 + 1].from);
        }
    }
    assert(e == Edge { from: u, when: Symbol::Symbol(c), to: m });
    assert(walk(edges, s, path.take(j), u));
    assert(walk(edges, m, path.skip(j + 1), t));
    (u, m)
}

/// A closed automaton that starts in a state `s` may be in `t` after `word`
/// exactly if a walk from `s` to `t` reads `word`.
pub proof fn lemma_run_is_walk(a: Automaton, s: Seq<char>, word: Seq<char>, t: Seq<char>)
    requires
        a.closed(),
    ensures
        a.run(a.closure(s), word).contains(t) <==> a.states.contains(s) && leads(
            a.edges,
            s,
            word,
            t,
        ),
    decreases word.len(),
{
    if !a.states.contains(s) {
        lemma_run_from_nothing(a, word);
    } else if word.len() == 0 {
        lemma_eps_reaches_is_walk(a, s, t);
        assert(word =~= Seq::<char>::empty());
        if a.closure(s).contains(t) {
            let seed = choose|seed: Seq<char>|
                set![s].contains(seed) && #[trigger] a.eps_reaches(seed, t);
            assert(seed == s);
        }
        if a.eps_reaches(s, t) {
            assert(set![s].contains(s));
        }
    } else {
        let shorter = word.drop_last();
        let c = word.last();
        assert(word =~= shorter.push(c));
        let before = a.run(a.closure(s), shorter);
        let entered = a.move_on(before, c).intersect(a.states);
        if a.run(a.closure(s), word).contains(t) {
            let m = choose|m: Seq<char>| entered.contains(m) && #[trigger] a.eps_reaches(m, t);
            let u = choose|u: Seq<char>|
                before.contains(u) && #[trigger] a.edges.contains(
                    Edge { from: u, when: Symbol::Symbol(c), to: m },
                );
            lemma_run_is_walk(a, s, shorter, u);
            lemma_eps_reaches_is_walk(a, m, t);
            lemma_leads_on(a.edges, s, shorter, u, c, m, t);
        }
        if leads(a.edges, s, word, t) {
            let (u, m) = lemma_leads_back(a.edges, s, shorter, c, t);
            lemma_run_is_walk(a, s, shorter, u);
            let e = Edge { from: u, when: Symbol::Symbol(c), to: m };
            assert(a.edges.contains(e));
            assert(a.move_on(before, c).contains(m));
            assert(entered.contains(m));
            lemma_eps_reaches_is_walk(a, m, t);
        }
    }
}

} // verus!
