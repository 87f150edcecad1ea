//! The automaton under construction: states, accepting states, an initial
//! state and transitions, with the queries that read them.

use vstd::prelude::*;
use vstd::set_lib::{lemma_len_subset, lemma_len_union};
use crate::model::Automaton;
use crate::state::{State, state_name, lemma_state_name_injective};
use crate::state_set::StateSet;
use crate::symbol::Symbol;
use crate::text::chars_of;
use crate::transition::{Edge, Transition};

verus! {

/// An automaton with epsilon transitions. A deterministic automaton is one of
/// these whose transitions happen to be deterministic.
pub struct NFAe {
    increment: u32,
    states: StateSet,
    finals: StateSet,
    initial: Option<State>,
    transitions: Vec<Transition>,
}

/// The transitions of a listing, as mathematical triples.
pub open spec fn edges_of(listing: Seq<Transition>) -> Seq<Edge> {
    listing.map_values(|t: Transition| t@)
}

/// `k` is the first number from `from` on whose name no state of `states`
/// bears.
pub open spec fn first_free(states: Set<Seq<char>>, from: nat, k: nat) -> bool {
    &&& from <= k
    &&& !states.contains(state_name(k))
    &&& forall|j: nat| from <= j < k ==> states.contains(#[trigger] state_name(j))
}

/// Where the names of the numbers from `lo` up to `hi` are all in a finite
/// set, the set has at least `hi - lo` members.
pub proof fn lemma_taken_names_bound(states: Set<Seq<char>>, lo: nat, hi: nat)
    requires
        states.finite(),
        lo <= hi,
        forall|j: nat| lo <= j < hi ==> states.contains(#[trigger] state_name(j)),
    ensures
        hi - lo <= states.len(),
    decreases hi - lo,
{
    if lo < hi {
        let last = state_name((hi - 1) as nat);
        let rest = states.remove(last);
        assert forall|j: nat| lo <= j < hi - 1 implies rest.contains(#[trigger] state_name(j)) by {
            if state_name(j) == last {
                lemma_state_name_injective(j, (hi - 1) as nat);
            }
        }
        lemma_taken_names_bound(rest, lo, (hi - 1) as nat);
    }
}

/// Each character of `letters` is less than every later one.
pub open spec fn increasing(letters: Seq<char>) -> bool {
    forall|i: int, j: int| 0 <= i < j < letters.len() ==> letters[i] < letters[j]
}

/// Puts `c` at its place in the increasing listing `letters`, unless it is
/// there already.
fn insert_letter(letters: &mut Vec<char>, c: char)
    requires
        increasing(old(letters)@),
    ensures
        increasing(final(letters)@),
        final(letters)@.to_set() == old(letters)@.to_set().insert(c),
{
    let mut i: usize = 0;
    while i < letters.len() && letters[i] < c
        invariant
            *letters == *old(letters),
            i <= letters@.len(),
            forall|k: int| 0 <= k < i ==> letters@[k] < c,
        decreases letters@.len() - i,
    {
        i += 1;
    }
    let ghost before = letters@;
    if i < letters.len() && letters[i] == c {
        proof {
            assert(before.to_set().contains(before[i as int]));
            assert(before.to_set() =~= before.to_set().insert(c));
        }
        return ;
    }
    letters.insert(i, c);
    proof {
        let after = letters@;
        assert(after =~= before.insert(i as int, c));
        assert forall|a: int, b: int| 0 <= a < b < after.len() implies after[a] < after[b] by {
            let pa = if a < i { a } else { a - 1 };
            let pb = if b < i { b } else { b - 1 };
            if a != i && b != i {
                assert(before[pa] < before[pb]);
            } else if a == i {
                assert(before[i as int] <= before[pb]);
            }
        }
        assert forall|d: char| after.to_set().contains(d) <==> before.to_set().insert(c).contains(d) by {
            if after.contains(d) {
                let k = choose|k: int| 0 <= k < after.len() && after[k] == d;
                if k < i {
                    assert(before[k] == d);
                } else if k > i {
                    assert(before[k - 1] == d);
                }
            }
            if before.contains(d) {
                let k = choose|k: int| 0 <= k < before.len() && before[k] == d;
                if k < i {
                    assert(after[k] == d);
                } else {
                    assert(after[k + 1] == d);
                }
            }
            if d == c {
                assert(after[i as int] == d);
            }
        }
        assert(after.to_set() =~= before.to_set().insert(c));
    }
}

/// Below a number whose name is free, there is a first free one.
pub proof fn lemma_first_free_below(states: Set<Seq<char>>, from: nat, hi: nat)
    requires
        from <= hi,
        !states.contains(state_name(hi)),
    ensures
        exists|k: nat| k <= hi && first_free(states, from, k),
    decreases hi - from,
{
    if forall|j: nat| from <= j < hi ==> states.contains(#[trigger] state_name(j)) {
        assert(first_free(states, from, hi));
    } else {
        let j = choose|j: nat| from <= j < hi && !states.contains(#[trigger] state_name(j));
        lemma_first_free_below(states, from, j);
    }
}

/// A finite set leaves a name free among the first that could be taken: the
/// first free number from `from` on is at most `from` plus the size of the
/// set.
pub proof fn lemma_first_free_exists(states: Set<Seq<char>>, from: nat)
    requires
        states.finite(),
    ensures
        exists|k: nat| k <= from + states.len() && first_free(states, from, k),
{
    let hi = from + states.len();
    if forall|j: nat| from <= j < hi + 1 ==> states.contains(#[trigger] state_name(j)) {
        lemma_taken_names_bound(states, from, hi + 1);
    } else {
        let j = choose|j: nat| from <= j < hi + 1 && !states.contains(#[trigger] state_name(j));
        lemma_first_free_below(states, from, j);
    }
}

impl View for NFAe {
    type V = Automaton;

    closed spec fn view(&self) -> Automaton {
        Automaton {
            states: self.states@,
            initial: match self.initial {
                Some(s) => Some(s@),
                None => None,
            },
            finals: self.finals@,
            edges: edges_of(self.transitions@).to_set(),
        }
    }
}

impl NFAe {
    /// The number from which the next automatic name is sought.
    pub closed spec fn counter(&self) -> nat {
        self.increment as nat
    }

    /// The transitions in the order in which they were added, each once.
    pub closed spec fn listing(&self) -> Seq<Edge> {
        edges_of(self.transitions@)
    }

    /// The representation is sound: the sets of states are sorted listings,
    /// and no transition is kept twice.
    pub closed spec fn wf(&self) -> bool {
        &&& self.states.wf()
        &&& self.finals.wf()
        &&& edges_of(self.transitions@).no_duplicates()
    }

    /// The sets of a sound automaton are finite, and its transitions are
    /// those of its listing.
    pub proof fn lemma_finite(&self)
        ensures
            self@.states.finite(),
            self@.finals.finite(),
            self@.edges.finite(),
            self@.edges == self.listing().to_set(),
            self.wf() ==> self.listing().no_duplicates(),
    {
        self.states.lemma_listing();
        self.finals.lemma_listing();
        vstd::seq_lib::seq_to_set_is_finite(edges_of(self.transitions@));
    }

    /// The automaton without states or transitions.
    pub fn new() -> (nfae: NFAe)
        ensures
            nfae.wf(),
            nfae@ == Automaton::empty(),
            nfae.counter() == 0,
            nfae.listing() == Seq::<Edge>::empty(),
    {
        let nfae = NFAe {
            increment: 0,
            states: StateSet::new(),
            finals: StateSet::new(),
            initial: None,
            transitions: Vec::new(),
        };
        proof {
            assert(edges_of(nfae.transitions@) =~= Seq::<Edge>::empty());
            assert(edges_of(nfae.transitions@).to_set() =~= Set::<Edge>::empty());
        }
        nfae
    }

    /// Adds the state `id`, accepting if `end`, and returns it. A state that
    /// is added again stays; it becomes accepting if `end`.
    pub fn add_state(&mut self, id: State, end: bool) -> (added: State)
        requires
            old(self).wf(),
        ensures
            final(self).wf(),
            final(self)@ == old(self)@.with_state(id@, end),
            final(self).counter() == old(self).counter(),
            final(self).listing() == old(self).listing(),
            added@ == id@,
    {
        self.states.insert(id.clone());
        if end {
            self.finals.insert(id.clone());
        }
        id
    }

    /// Adds a state under the first free automatic name, accepting if `end`,
    /// and returns it. The names are `q0`, `q1`, ...; the search starts at
    /// the number of the last name given and skips the names that are taken.
    /// The number of the name must fit the counter.
    pub fn add_state_auto(&mut self, end: bool) -> (added: State)
        requires
            old(self).wf(),
            exists|k: nat| k <= u32::MAX && first_free(old(self)@.states, old(self).counter(), k),
        ensures
            final(self).wf(),
            first_free(old(self)@.states, old(self).counter(), final(self).counter()),
            added@ == state_name(final(self).counter()),
            final(self)@ == old(self)@.with_state(added@, end),
            final(self).listing() == old(self).listing(),
    {
        let ghost target = choose|k: nat|
            k <= u32::MAX && first_free(old(self)@.states, old(self).counter(), k);
        let mut candidate = State::numbered(self.increment);
        while self.states.contains(&candidate)
            invariant
                self.wf(),
                self@ == old(self)@,
                self.listing() == old(self).listing(),
                old(self).counter() <= self.counter() <= target,
                target <= u32::MAX,
                first_free(old(self)@.states, old(self).counter(), target),
                candidate@ == state_name(self.counter()),
                forall|j: nat|
                    old(self).counter() <= j < self.counter() ==> self@.states.contains(
                        #[trigger] state_name(j),
                    ),
            decreases target - self.counter(),
        {
            self.increment += 1;
            candidate = State::numbered(self.increment);
        }
        self.add_state(candidate, end)
    }

    /// Adds a transition from `from` to `to` on `when`. A transition that is
    /// there already is not added again.
    pub fn add_transition(&mut self, from: &State, to: &State, when: Symbol)
        requires
            old(self).wf(),
        ensures
            final(self).wf(),
            final(self)@ == old(self)@.with_edge(Edge { from: from@, when, to: to@ }),
            final(self).counter() == old(self).counter(),
            final(self).listing() == (if old(self)@.edges.contains(
                Edge { from: from@, when, to: to@ },
            ) {
                old(self).listing()
            } else {
                old(self).listing().push(Edge { from: from@, when, to: to@ })
            }),
    {
        let t = Transition { from: from.clone(), to: to.clone(), when };
        let ghost before = edges_of(self.transitions@);
        let mut i: usize = 0;
        while i < self.transitions.len()
            invariant
                *self == *old(self),
                self.wf(),
                before == edges_of(self.transitions@),
                t@ == (Edge { from: from@, when, to: to@ }),
                i <= self.transitions@.len(),
                forall|k: int| 0 <= k < i ==> before[k] != t@,
            decreases self.transitions@.len() - i,
        {
            if self.transitions[i].same(&t) {
                proof {
                    assert(before[i as int] == t@);
                    assert(before.to_set() =~= before.to_set().insert(t@));
                }
                return ;
            }
            i += 1;
        }
        self.transitions.push(t);
        proof {
            let after = edges_of(self.transitions@);
            assert(after =~= before.push(t@));
            before.lemma_push_to_set_commute(t@);
        }
    }

    /// Makes `state` the initial state.
    pub fn set_initial(&mut self, state: State)
        requires
            old(self).wf(),
        ensures
            final(self).wf(),
            final(self)@ == old(self)@.with_initial(state@),
            final(self).counter() == old(self).counter(),
            final(self).listing() == old(self).listing(),
    {
        self.initial = Some(state);
    }

    /// Grows `hs` by everything that its members reach over epsilon
    /// transitions.
    pub fn closure_inner(&self, hs: &mut StateSet)
        requires
            self.wf(),
            old(hs).wf(),
        ensures
            final(hs).wf(),
            final(hs)@ == self@.reach_from(old(hs)@),
    {
        let ghost seeds = hs@;
        let ghost ends = self.listing().map_values(|e: Edge| e.to).to_set();
        let ghost bound = seeds.len() + self.listing().len();
        let mut work: Vec<State> = hs.to_vec();
        proof {
            self.lemma_finite();
            hs.lemma_listing();
            vstd::seq_lib::seq_to_set_is_finite(self.listing().map_values(|e: Edge| e.to));
            self.listing().map_values(|e: Edge| e.to).lemma_cardinality_of_set();
            lemma_len_union(seeds, ends);
            self@.lemma_reach_is_closed(seeds);
            assert forall|a: Seq<char>| hs@.contains(a) implies exists|i: int|
                0 <= i < work@.len() && #[trigger] work@[i]@ == a by {
                let k = choose|k: int| 0 <= k < hs.names().len() && hs.names()[k] == a;
                assert(work@[k]@ == a);
            }
            assert forall|i: int| 0 <= i < work@.len() implies hs@.contains(#[trigger] work@[i]@) by {
                assert(hs.names()[i] == work@[i]@);
            }
        }
        while work.len() > 0
            invariant
                self.wf(),
                hs.wf(),
                seeds.finite(),
                ends.finite(),
                ends == self.listing().map_values(|e: Edge| e.to).to_set(),
                seeds.union(ends).len() <= bound,
                seeds.subset_of(hs@),
                hs@.subset_of(self@.reach_from(seeds)),
                hs@.subset_of(seeds.union(ends)),
                forall|i: int| 0 <= i < work@.len() ==> hs@.contains(#[trigger] work@[i]@),
                forall|a: Seq<char>, b: Seq<char>|
                    hs@.contains(a) && #[trigger] self@.eps_edge(a, b) ==> hs@.contains(b) || exists|
                        i: int,
                    | 0 <= i < work@.len() && #[trigger] work@[i]@ == a,
            decreases bound - hs@.len(), work@.len(),
        {
            proof {
                hs.lemma_listing();
                lemma_len_subset(hs@, seeds.union(ends));
            }
            let ghost size_before = hs@.len();
            let ghost work_before = work@;
            assert(size_before <= bound);
            let s = work.pop().unwrap();
            proof {
                assert forall|a: Seq<char>, b: Seq<char>|
                    hs@.contains(a) && #[trigger] self@.eps_edge(a, b) implies hs@.contains(b) || a
                    == s@ || exists|i: int| 0 <= i < work@.len() && #[trigger] work@[i]@ == a by {
                    if !hs@.contains(b) {
                        let i = choose|i: int|
                            0 <= i < work_before.len() && #[trigger] work_before[i]@ == a;
                        if i < work_before.len() - 1 {
                            assert(work@[i]@ == a);
                        }
                    }
                }
                assert(work@ =~= work_before.drop_last());
            }
            let mut j: usize = 0;
            while j < self.transitions.len()
                invariant
                    self.wf(),
                    hs.wf(),
                    j <= self.transitions@.len(),
                    seeds.finite(),
                    ends.finite(),
                    ends == self.listing().map_values(|e: Edge| e.to).to_set(),
                    seeds.union(ends).len() <= bound,
                    seeds.subset_of(hs@),
                    hs@.subset_of(self@.reach_from(seeds)),
                    hs@.subset_of(seeds.union(ends)),
                    hs@.contains(s@),
                    size_before <= bound,
                    work_before.len() >= 1,
                    s == work_before.last(),
                    work@.len() >= work_before.len() - 1,
                    work@.subrange(0, work_before.len() - 1) == work_before.drop_last(),
                    work@.len() - (work_before.len() - 1) == hs@.len() - size_before,
                    hs@.finite(),
                    forall|i: int| 0 <= i < work@.len() ==> hs@.contains(#[trigger] work@[i]@),
                    forall|a: Seq<char>, b: Seq<char>|
                        hs@.contains(a) && #[trigger] self@.eps_edge(a, b) ==> hs@.contains(b) || a
                            == s@ || exists|i: int|
                            0 <= i < work@.len() && #[trigger] work@[i]@ == a,
                    forall|k: int|
                        0 <= k < j && (#[trigger] self.listing()[k]).from == s@ && self.listing()[k].when
                            == Symbol::Epsilon ==> hs@.contains(self.listing()[k].to),
                decreases self.transitions@.len() - j,
            {
                let t = &self.transitions[j];
                proof {
                    assert(self.listing()[j as int] == t@);
                }
                if t.from.same(&s) && t.when == Symbol::Epsilon && !hs.contains(&t.to) {
                    proof {
                        let reached = self@.reach_from(seeds);
                        assert(self@.edges.contains(t@));
                        assert(self@.eps_edge(s@, t.to@));
                        assert(reached.contains(s@));
                        let seed = choose|seed: Seq<char>|
                            seeds.contains(seed) && #[trigger] self@.eps_reaches(seed, s@);
                        self@.lemma_reaches_extend(seed, s@, t.to@);
                        assert(reached.contains(t.to@));
                        assert(self.listing().map_values(|e: Edge| e.to)[j as int] == t.to@);
                        assert(ends.contains(t.to@));
                    }
                    let ghost work_mid = work@;
                    hs.insert(t.to.clone());
                    work.push(t.to.clone());
                    proof {
                        hs.lemma_listing();
                        assert(work@.subrange(0, work_before.len() - 1) =~= work_mid.subrange(
                            0,
                            work_before.len() - 1,
                        ));
                        assert forall|a: Seq<char>, b: Seq<char>|
                            hs@.contains(a) && #[trigger] self@.eps_edge(a, b) implies hs@.contains(b)
                            || a == s@ || exists|i: int|
                            0 <= i < work@.len() && #[trigger] work@[i]@ == a by {
                            if a == t.to@ {
                                assert(work@[work@.len() - 1]@ == a);
                            } else if !hs@.contains(b) && a != s@ {
                                let i = choose|i: int|
                                    0 <= i < work_mid.len() && #[trigger] work_mid[i]@ == a;
                                assert(work@[i]@ == a);
                            }
                        }
                    }
                }
                j += 1;
            }
            proof {
                hs.lemma_listing();
                lemma_len_subset(hs@, seeds.union(ends));
                assert forall|a: Seq<char>, b: Seq<char>|
                    hs@.contains(a) && #[trigger] self@.eps_edge(a, b) implies hs@.contains(b) || exists|
                    i: int,
                | 0 <= i < work@.len() && #[trigger] work@[i]@ == a by {
                    if a == s@ && !hs@.contains(b) {
                        let e = Edge { from: a, when: Symbol::Epsilon, to: b };
                        assert(self.listing().contains(e));
                        let k = choose|k: int| 0 <= k < self.listing().len() && self.listing()[k] == e;
                        assert(self.listing()[k].from == s@);
                    }
                }
            }
        }
        proof {
            assert(self@.eps_closed(hs@));
            self@.lemma_closed_set_holds_reach(seeds, hs@);
            assert(hs@ =~= self@.reach_from(seeds));
        }
    }

    /// The epsilon closure of `state`: all that it reaches by zero or more
    /// epsilon transitions, itself included. Empty if `state` is no state of
    /// the automaton.
    pub fn closure(&self, state: State) -> (reached: StateSet)
        requires
            self.wf(),
        ensures
            reached.wf(),
            reached@ == self@.closure(state@),
    {
        let mut hs = StateSet::new();
        if !self.states.contains(&state) {
            return hs;
        }
        hs.insert(state);
        proof {
            assert(hs@ =~= set![state@]);
        }
        self.closure_inner(&mut hs);
        hs
    }

    /// The epsilon closure of a set of states: the union of the epsilon
    /// closures of its members.
    pub fn closure_of(&self, set: &StateSet) -> (reached: StateSet)
        requires
            self.wf(),
        ensures
            reached.wf(),
            reached@ == self@.closure_of(set@),
    {
        let mut hs = StateSet::new();
        let mut i: usize = 0;
        proof {
            set.lemma_listing();
        }
        while i < set.len()
            invariant
                hs.wf(),
                i <= set.names().len(),
                set@ == set.names().to_set(),
                forall|n: Seq<char>|
                    hs@.contains(n) <==> self@.states.contains(n) && exists|k: int|
                        0 <= k < i && #[trigger] set.names()[k] == n,
            decreases set.names().len() - i,
        {
            let member = set.get(i);
            if self.states.contains(member) {
                hs.insert(member.clone());
            }
            i += 1;
        }
        proof {
            assert(hs@ =~= set@.intersect(self@.states));
        }
        self.closure_inner(&mut hs);
        hs
    }

    /// The states that a transition labelled `c` enters from a member of
    /// `from`.
    pub fn move_on(&self, from: &StateSet, c: char) -> (entered: StateSet)
        requires
            self.wf(),
        ensures
            entered.wf(),
            entered@ == self@.move_on(from@, c),
    {
        let mut entered = StateSet::new();
        let mut i: usize = 0;
        while i < self.transitions.len()
            invariant
                i <= self.transitions@.len(),
                entered.wf(),
                forall|t: Seq<char>|
                    entered@.contains(t) <==> exists|k: int|
                        0 <= k < i && from@.contains((#[trigger] self.listing()[k]).from)
                            && self.listing()[k].when == Symbol::Symbol(c) && self.listing()[k].to
                            == t,
            decreases self.transitions@.len() - i,
        {
            let t = &self.transitions[i];
            proof {
                assert(self.listing()[i as int] == t@);
            }
            if t.when == Symbol::Symbol(c) && from.contains(&t.from) {
                entered.insert(t.to.clone());
            }
            i += 1;
        }
        proof {
            self.lemma_finite();
            assert forall|t: Seq<char>| entered@.contains(t) <==> self@.move_on(from@, c).contains(
                t,
            ) by {
                if entered@.contains(t) {
                    let k = choose|k: int|
                        0 <= k < i && from@.contains((#[trigger] self.listing()[k]).from)
                            && self.listing()[k].when == Symbol::Symbol(c) && self.listing()[k].to
                            == t;
                    let e = self.listing()[k];
                    assert(self.listing().contains(e));
                    assert(self@.edges.contains(Edge { from: e.from, when: Symbol::Symbol(c), to: t }));
                }
                if self@.move_on(from@, c).contains(t) {
                    let s = choose|s: Seq<char>|
                        from@.contains(s) && #[trigger] self@.edges.contains(
                            Edge { from: s, when: Symbol::Symbol(c), to: t },
                        );
                    let e = Edge { from: s, when: Symbol::Symbol(c), to: t };
                    assert(self.listing().contains(e));
                    let k = choose|k: int| 0 <= k < self.listing().len() && self.listing()[k] == e;
                    assert(from@.contains(self.listing()[k].from));
                }
            }
            assert(entered@ =~= self@.move_on(from@, c));
        }
        entered
    }

    /// Where the automaton may be after reading `c` in some state of `from`:
    /// the epsilon closure of what the transitions labelled `c` enter.
    pub fn step(&self, from: &StateSet, c: char) -> (next: StateSet)
        requires
            self.wf(),
        ensures
            next.wf(),
            next@ == self@.step(from@, c),
    {
        let entered = self.move_on(from, c);
        self.closure_of(&entered)
    }

    /// Whether `state` is a state of the automaton.
    pub fn has_state(&self, state: &State) -> (r: bool)
        ensures
            r == self@.states.contains(state@),
    {
        self.states.contains(state)
    }

    /// Whether some member of `set` is an accepting state.
    pub fn accepts_in(&self, set: &StateSet) -> (r: bool)
        ensures
            r == !set@.disjoint(self@.finals),
    {
        set.intersects(&self.finals)
    }

    /// Whether the automaton accepts `word`: whether reading it from the
    /// initial state may end in an accepting state.
    pub fn accepts(&self, word: &str) -> (r: bool)
        requires
            self.wf(),
        ensures
            r == self@.accepts(word@),
    {
        let letters = chars_of(word);
        let mut current = match &self.initial {
            Some(state) => self.closure(state.clone()),
            None => StateSet::new(),
        };
        let mut i: usize = 0;
        proof {
            assert(letters@.take(0) =~= Seq::<char>::empty());
        }
        while i < letters.len()
            invariant
                self.wf(),
                current.wf(),
                i <= letters@.len(),
                current@ == self@.run(self@.start(), letters@.take(i as int)),
            decreases letters@.len() - i,
        {
            proof {
                assert(letters@.take(i + 1).drop_last() =~= letters@.take(i as int));
            }
            current = self.step(&current, letters[i]);
            i += 1;
        }
        proof {
            assert(letters@.take(letters@.len() as int) =~= letters@);
        }
        self.accepts_in(&current)
    }

    /// The alphabet: the literal characters that label some transition, in
    /// increasing order, each once.
    pub fn alphabet(&self) -> (letters: Vec<char>)
        requires
            self.wf(),
        ensures
            letters@.to_set() == self@.alphabet(),
            increasing(letters@),
    {
        let mut letters: Vec<char> = Vec::new();
        let mut i: usize = 0;
        while i < self.transitions.len()
            invariant
                i <= self.transitions@.len(),
                increasing(letters@),
                forall|c: char|
                    letters@.contains(c) <==> exists|k: int|
                        0 <= k < i && (#[trigger] self.listing()[k]).when == Symbol::Symbol(c),
            decreases self.transitions@.len() - i,
        {
            let ghost sofar = letters@;
            proof {
                assert(self.listing()[i as int] == self.transitions@[i as int]@);
            }
            if let Symbol::Symbol(c) = self.transitions[i].when {
                insert_letter(&mut letters, c);
                proof {
                    assert forall|d: char| letters@.contains(d) implies exists|k: int|
                        0 <= k < i + 1 && (#[trigger] self.listing()[k]).when == Symbol::Symbol(d) by {
                        assert(letters@.to_set().contains(d));
                        if d != c {
                            assert(sofar.to_set().contains(d));
                            assert(sofar.contains(d));
                        }
                    }
                    assert forall|d: char|
                        (exists|k: int|
                            0 <= k < i + 1 && (#[trigger] self.listing()[k]).when == Symbol::Symbol(d))
                        implies letters@.contains(d) by {
                        let k = choose|k: int|
                            0 <= k < i + 1 && (#[trigger] self.listing()[k]).when == Symbol::Symbol(d);
                        if k < i {
                            assert(sofar.contains(d));
                            assert(sofar.to_set().contains(d));
                        }
                        assert(letters@.to_set().contains(d));
                    }
                }
            }
            i += 1;
        }
        proof {
            self.lemma_finite();
            assert forall|c: char| letters@.to_set().contains(c) <==> self@.alphabet().contains(c) by {
                if letters@.contains(c) {
                    let k = choose|k: int|
                        0 <= k < i && (#[trigger] self.listing()[k]).when == Symbol::Symbol(c);
                    assert(self.listing().contains(self.listing()[k]));
                    assert(self@.edges.contains(self.listing()[k]));
                }
                if self@.alphabet().contains(c) {
                    let e = choose|e: Edge| #[trigger]
                        self@.edges.contains(e) && e.when == Symbol::Symbol(c);
                    assert(self.listing().contains(e));
                    let k = choose|k: int| 0 <= k < self.listing().len() && self.listing()[k] == e;
                    assert(self.listing()[k].when == Symbol::Symbol(c));
                }
            }
            assert(letters@.to_set() =~= self@.alphabet());
        }
        letters
    }

    /// The states.
    pub fn get_states(&self) -> (states: StateSet)
        requires
            self.wf(),
        ensures
            states.wf(),
            states@ == self@.states,
    {
        self.states.clone()
    }

    /// The transitions, each once.
    pub fn get_transitions(&self) -> (transitions: Vec<Transition>)
        requires
            self.wf(),
        ensures
            edges_of(transitions@) == self.listing(),
            edges_of(transitions@).no_duplicates(),
            edges_of(transitions@).to_set() == self@.edges,
    {
        let mut out: Vec<Transition> = Vec::new();
        let mut i: usize = 0;
        while i < self.transitions.len()
            invariant
                i <= self.transitions@.len(),
                out@.len() == i,
                forall|k: int| 0 <= k < i ==> out@[k]@ == self.transitions@[k]@,
            decreases self.transitions@.len() - i,
        {
            out.push(self.transitions[i].clone());
            i += 1;
        }
        proof {
            assert(edges_of(out@) =~= edges_of(self.transitions@));
        }
        out
    }

    /// Whether `x` is the initial state.
    pub fn is_initial(&self, x: &State) -> (r: bool)
        ensures
            r == (self@.initial == Some(x@)),
    {
        match &self.initial {
            Some(st) => x.same(st),
            None => false,
        }
    }

    /// Whether `x` is an accepting state.
    pub fn is_final(&self, x: &State) -> (r: bool)
        ensures
            r == self@.finals.contains(x@),
    {
        self.finals.contains(x)
    }

    /// The accepting states.
    pub fn get_finals(&self) -> (finals: StateSet)
        requires
            self.wf(),
        ensures
            finals.wf(),
            finals@ == self@.finals,
    {
        self.finals.clone()
    }

    /// The initial state, if one is set.
    pub fn get_initial(&self) -> (initial: Option<State>)
        ensures
            initial is Some == self@.initial is Some,
            initial matches Some(s) ==> self@.initial == Some(s@),
    {
        match &self.initial {
            Some(st) => Some(st.clone()),
            None => None,
        }
    }
}

} // verus!
