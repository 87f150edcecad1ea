//! The mathematical model of an automaton: what its states and transitions
//! are, which states a set of states reaches, and which words it accepts.

use vstd::prelude::*;
use crate::symbol::Symbol;
use crate::transition::Edge;

verus! {

/// An automaton with epsilon transitions, over state names.
pub struct Automaton {
    pub states: Set<Seq<char>>,
    pub initial: Option<Seq<char>>,
    pub finals: Set<Seq<char>>,
    pub edges: Set<Edge>,
}

impl Automaton {
    /// The automaton without states.
    pub open spec fn empty() -> Automaton {
        Automaton { states: Set::empty(), initial: None, finals: Set::empty(), edges: Set::empty() }
    }

    /// This automaton with the state `name` added, accepting if `end`.
    pub open spec fn with_state(self, name: Seq<char>, end: bool) -> Automaton {
        Automaton {
            states: self.states.insert(name),
            finals: if end {
                self.finals.insert(name)
            } else {
                self.finals
            },
            ..self
        }
    }

    /// This automaton with the transition `edge` added.
    pub open spec fn with_edge(self, edge: Edge) -> Automaton {
        Automaton { edges: self.edges.insert(edge), ..self }
    }

    /// This automaton started in `name`.
    pub open spec fn with_initial(self, name: Seq<char>) -> Automaton {
        Automaton { initial: Some(name), ..self }
    }

    /// The sets are finite, and every state that is initial, accepting or an
    /// end of a transition is a state of the automaton.
    pub open spec fn closed(self) -> bool {
        &&& self.states.finite()
        &&& self.edges.finite()
        &&& self.finals.subset_of(self.states)
        &&& (self.initial matches Some(i) ==> self.states.contains(i))
        &&& forall|e: Edge| #[trigger]
            self.edges.contains(e) ==> self.states.contains(e.from) && self.states.contains(e.to)
    }

    /// The literal characters that label some transition.
    pub open spec fn alphabet(self) -> Set<char> {
        Set::new(|c: char| exists|e: Edge| #[trigger] self.edges.contains(e) && e.when == Symbol::Symbol(c))
    }

    /// There is an epsilon transition from `a` to `b`.
    pub open spec fn eps_edge(self, a: Seq<char>, b: Seq<char>) -> bool {
        self.edges.contains(Edge { from: a, when: Symbol::Epsilon, to: b })
    }

    /// `path` is a walk along epsilon transitions: a state, or several with an
    /// epsilon transition from each to the next.
    pub open spec fn eps_path(self, path: Seq<Seq<char>>) -> bool {
        &&& path.len() >= 1
        &&& forall|i: int| 0 <= i < path.len() - 1 ==> self.eps_edge(#[trigger] path[i], path[i + 1])
    }

    /// `b` is reached from `a` by zero or more epsilon transitions.
    pub open spec fn eps_reaches(self, a: Seq<char>, b: Seq<char>) -> bool {
        exists|path: Seq<Seq<char>>| #[trigger]
            self.eps_path(path) && path.first() == a && path.last() == b
    }

    /// Everything reached from a member of `seeds` by zero or more epsilon
    /// transitions.
    pub open spec fn reach_from(self, seeds: Set<Seq<char>>) -> Set<Seq<char>> {
        Set::new(
            |t: Seq<char>| exists|s: Seq<char>| seeds.contains(s) && #[trigger] self.eps_reaches(s, t),
        )
    }

    /// The epsilon closure of one state; empty if it is no state of the
    /// automaton.
    pub open spec fn closure(self, state: Seq<char>) -> Set<Seq<char>> {
        if self.states.contains(state) {
            self.reach_from(set![state])
        } else {
            Set::empty()
        }
    }

    /// The epsilon closure of a set of states: the union of the closures of
    /// its members.
    pub open spec fn closure_of(self, seeds: Set<Seq<char>>) -> Set<Seq<char>> {
        self.reach_from(seeds.intersect(self.states))
    }

    /// The states that a transition labelled `c` enters from a member of
    /// `from`.
    pub open spec fn move_on(self, from: Set<Seq<char>>, c: char) -> Set<Seq<char>> {
        Set::new(
            |t: Seq<char>|
                exists|s: Seq<char>|
                    from.contains(s) && #[trigger] self.edges.contains(
                        Edge { from: s, when: Symbol::Symbol(c), to: t },
                    ),
        )
    }

    /// Where the automaton may be after reading `c` in some state of `from`.
    pub open spec fn step(self, from: Set<Seq<char>>, c: char) -> Set<Seq<char>> {
        self.closure_of(self.move_on(from, c))
    }

    /// Where the automaton may be after reading `word` in some state of
    /// `from`.
    pub open spec fn run(self, from: Set<Seq<char>>, word: Seq<char>) -> Set<Seq<char>>
        decreases word.len(),
    {
        if word.len() == 0 {
            from
        } else {
            self.step(self.run(from, word.drop_last()), word.last())
        }
    }

    /// Where the automaton may be before it has read anything.
    pub open spec fn start(self) -> Set<Seq<char>> {
        match self.initial {
            Some(i) => self.closure(i),
            None => Set::empty(),
        }
    }

    /// Reading `word` from the start may end in an accepting state.
    pub open spec fn accepts(self, word: Seq<char>) -> bool {
        !self.run(self.start(), word).disjoint(self.finals)
    }

    /// `set` contains the end of every epsilon transition that leaves one of
    /// its members.
    pub open spec fn eps_closed(self, set: Set<Seq<char>>) -> bool {
        forall|a: Seq<char>, b: Seq<char>| set.contains(a) && #[trigger] self.eps_edge(a, b) ==> set.contains(b)
    }

    /// No transition is an epsilon transition, and no state has two
    /// transitions on one character.
    pub open spec fn deterministic(self) -> bool {
        &&& forall|e: Edge| #[trigger] self.edges.contains(e) ==> e.when != Symbol::Epsilon
        &&& forall|e1: Edge, e2: Edge|
            #![trigger self.edges.contains(e1), self.edges.contains(e2)]
            self.edges.contains(e1) && self.edges.contains(e2) && e1.from == e2.from && e1.when
                == e2.when ==> e1.to == e2.to
    }

    /// Some transition leads from `state` on `c` to a state.
    pub open spec fn has_transition(self, state: Seq<char>, c: char) -> bool {
        exists|to: Seq<char>|
            self.states.contains(to) && #[trigger] self.edges.contains(
                Edge { from: state, when: Symbol::Symbol(c), to: to },
            )
    }

    /// Every state has a transition to a state on every character of
    /// `alphabet`.
    pub open spec fn complete(self, alphabet: Set<char>) -> bool {
        forall|s: Seq<char>, c: char|
            self.states.contains(s) && alphabet.contains(c) ==> #[trigger] self.has_transition(s, c)
    }

    /// In a deterministic and complete automaton, every state has exactly
    /// one transition on every character of the alphabet. The result is the
    /// state to which it leads.
    pub proof fn lemma_exactly_one(self, alphabet: Set<char>, s: Seq<char>, c: char) -> (t: Seq<
        char,
    >)
        requires
            self.deterministic(),
            self.complete(alphabet),
            self.states.contains(s),
            alphabet.contains(c),
        ensures
            self.states.contains(t),
            self.edges.contains(Edge { from: s, when: Symbol::Symbol(c), to: t }),
            forall|e: Edge| #[trigger]
                self.edges.contains(e) && e.from == s && e.when == Symbol::Symbol(c) ==> e.to == t,
    {
        assert(self.has_transition(s, c));
        let t = choose|t: Seq<char>|
            self.states.contains(t) && #[trigger] self.edges.contains(
                Edge { from: s, when: Symbol::Symbol(c), to: t },
            );
        let only = Edge { from: s, when: Symbol::Symbol(c), to: t };
        assert forall|e: Edge| #[trigger]
            self.edges.contains(e) && e.from == s && e.when == Symbol::Symbol(c) implies e.to
            == t by {
            assert(self.edges.contains(e) && self.edges.contains(only));
        }
        t
    }

    /// The states and the ends of the transitions: no set of states that the
    /// automaton may be in holds anything else.
    pub open spec fn base(self) -> Set<Seq<char>> {
        self.states.union(self.edges.map(|e: Edge| e.to))
    }

    /// What the seeds reach lies among the seeds and the ends of the
    /// transitions.
    pub proof fn lemma_reach_within(self, seeds: Set<Seq<char>>)
        ensures
            self.reach_from(seeds).subset_of(seeds.union(self.edges.map(|e: Edge| e.to))),
    {
        let ends = self.edges.map(|e: Edge| e.to);
        assert forall|t: Seq<char>| self.reach_from(seeds).contains(t) implies seeds.union(
            ends,
        ).contains(t) by {
            let s = choose|s: Seq<char>| seeds.contains(s) && #[trigger] self.eps_reaches(s, t);
            let p = choose|path: Seq<Seq<char>>| #[trigger]
                self.eps_path(path) && path.first() == s && path.last() == t;
            if p.len() > 1 {
                let i = p.len() - 2;
                assert(self.eps_edge(p[i], p[i + 1]));
                let e = Edge { from: p[i], when: Symbol::Epsilon, to: t };
                assert(self.edges.contains(e) && e.to == t);
                assert(ends.contains(t));
            }
        }
    }

    /// Whatever is read, the automaton is in states of its base.
    pub proof fn lemma_run_within(self, word: Seq<char>)
        ensures
            self.run(self.start(), word).subset_of(self.base()),
        decreases word.len(),
    {
        if word.len() == 0 {
            match self.initial {
                Some(i) => {
                    self.lemma_reach_within(set![i]);
                },
                None => {},
            }
        } else {
            let before = self.run(self.start(), word.drop_last());
            self.lemma_reach_within(self.move_on(before, word.last()).intersect(self.states));
        }
    }

    /// A state reaches itself.
    pub proof fn lemma_reaches_self(self, a: Seq<char>)
        ensures
            self.eps_reaches(a, a),
    {
        let path = seq![a];
        assert(self.eps_path(path) && path.first() == a && path.last() == a);
    }

    /// What is reached can be left by one more epsilon transition.
    pub proof fn lemma_reaches_extend(self, a: Seq<char>, b: Seq<char>, c: Seq<char>)
        requires
            self.eps_reaches(a, b),
            self.eps_edge(b, c),
        ensures
            self.eps_reaches(a, c),
    {
        let p = choose|path: Seq<Seq<char>>| #[trigger]
            self.eps_path(path) && path.first() == a && path.last() == b;
        let q = p.push(c);
        assert forall|i: int| 0 <= i < q.len() - 1 implies self.eps_edge(#[trigger] q[i], q[i + 1]) by {
            if i < p.len() - 1 {
                assert(self.eps_edge(p[i], p[i + 1]));
            }
        }
        assert(self.eps_path(q) && q.first() == a && q.last() == c);
    }

    /// A walk that starts inside a set closed under epsilon transitions stays
    /// inside it.
    pub proof fn lemma_path_stays(self, set: Set<Seq<char>>, path: Seq<Seq<char>>, i: int)
        requires
            self.eps_closed(set),
            self.eps_path(path),
            set.contains(path.first()),
            0 <= i < path.len(),
        ensures
            set.contains(path[i]),
        decreases i,
    {
        if i > 0 {
            self.lemma_path_stays(set, path, i - 1);
            assert(self.eps_edge(path[i - 1], path[i - 1 + 1]));
        }
    }

    /// A set that holds the seeds and is closed under epsilon transitions
    /// holds all that the seeds reach.
    pub proof fn lemma_closed_set_holds_reach(self, seeds: Set<Seq<char>>, set: Set<Seq<char>>)
        requires
            seeds.subset_of(set),
            self.eps_closed(set),
        ensures
            self.reach_from(seeds).subset_of(set),
    {
        assert forall|t: Seq<char>| self.reach_from(seeds).contains(t) implies set.contains(t) by {
            let s = choose|s: Seq<char>| seeds.contains(s) && #[trigger] self.eps_reaches(s, t);
            let p = choose|path: Seq<Seq<char>>| #[trigger]
                self.eps_path(path) && path.first() == s && path.last() == t;
            self.lemma_path_stays(set, p, p.len() - 1);
        }
    }

    /// What the seeds reach holds the seeds and is closed under epsilon
    /// transitions.
    pub proof fn lemma_reach_is_closed(self, seeds: Set<Seq<char>>)
        ensures
            seeds.subset_of(self.reach_from(seeds)),
            self.eps_closed(self.reach_from(seeds)),
    {
        let r = self.reach_from(seeds);
        assert forall|s: Seq<char>| seeds.contains(s) implies r.contains(s) by {
            self.lemma_reaches_self(s);
        }
        assert forall|a: Seq<char>, b: Seq<char>| r.contains(a) && #[trigger] self.eps_edge(a, b) implies r.contains(b) by {
            let s = choose|s: Seq<char>| seeds.contains(s) && #[trigger] self.eps_reaches(s, a);
            self.lemma_reaches_extend(s, a, b);
        }
    }

    /// Taking the epsilon closure of the epsilon closure of a state gives the
    /// epsilon closure of that state.
    pub proof fn lemma_closure_idempotent(self, state: Seq<char>)
        ensures
            self.closure_of(self.closure(state)) == self.closure(state),
    {
        if self.states.contains(state) {
            assert(set![state].intersect(self.states) =~= set![state]);
            self.lemma_closure_of_idempotent(set![state]);
        } else {
            assert(Set::<Seq<char>>::empty().intersect(self.states) =~= Set::<Seq<char>>::empty());
            assert(self.reach_from(Set::<Seq<char>>::empty()) =~= Set::<Seq<char>>::empty());
        }
    }

    /// The epsilon closure of a set of states is its own epsilon closure.
    pub proof fn lemma_closure_of_idempotent(self, seeds: Set<Seq<char>>)
        ensures
            self.closure_of(self.closure_of(seeds)) == self.closure_of(seeds),
    {
        let base = seeds.intersect(self.states);
        let once = self.closure_of(seeds);
        let twice = self.closure_of(once);
        self.lemma_reach_is_closed(base);
        self.lemma_closed_set_holds_reach(once.intersect(self.states), once);
        assert forall|t: Seq<char>| once.contains(t) implies twice.contains(t) by {
            let s = choose|s: Seq<char>| base.contains(s) && #[trigger] self.eps_reaches(s, t);
            assert(once.intersect(self.states).contains(s));
        }
        assert(twice =~= once);
    }
}

} // verus!
