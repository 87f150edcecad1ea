//! An ordered set of state identifiers, kept as a strictly sorted listing.

use vstd::prelude::*;
use crate::state::{
    State, name_lt, strictly_sorted, lemma_name_lt_irreflexive, lemma_name_lt_total,
    lemma_name_lt_transitive, lemma_strictly_sorted_no_duplicates,
};

verus! {

/// A finite set of states. Its members are listed in the order of their
/// names, each once.
#[derive(Debug, PartialEq, Eq)]
pub struct StateSet {
    items: Vec<State>,
}

impl View for StateSet {
    type V = Set<Seq<char>>;

    /// The names of the members.
    closed spec fn view(&self) -> Set<Seq<char>> {
        self.names().to_set()
    }
}

impl StateSet {
    /// The names of the members, in the order in which they are listed.
    pub closed spec fn names(&self) -> Seq<Seq<char>> {
        Seq::new(self.items@.len(), |i: int| self.items@[i]@)
    }

    /// The listing is strictly sorted, so that it names no state twice.
    pub closed spec fn wf(&self) -> bool {
        strictly_sorted(self.names())
    }

    /// What `wf` and the view mean for the listing.
    pub proof fn lemma_listing(&self)
        ensures
            self@ == self.names().to_set(),
            self@.finite(),
            self.wf() == strictly_sorted(self.names()),
            self.wf() ==> self.names().no_duplicates() && self@.len() == self.names().len(),
    {
        vstd::seq_lib::seq_to_set_is_finite(self.names());
        if self.wf() {
            lemma_strictly_sorted_no_duplicates(self.names());
            self.names().unique_seq_to_set();
        }
    }

    /// The empty set.
    pub fn new() -> (s: StateSet)
        ensures
            s.wf(),
            s@ == Set::<Seq<char>>::empty(),
            s.names() == Seq::<Seq<char>>::empty(),
    {
        let s = StateSet { items: Vec::new() };
        proof {
            assert(s.names() =~= Seq::<Seq<char>>::empty());
            assert(s@ =~= Set::<Seq<char>>::empty());
        }
        s
    }

    /// The number of members.
    pub fn len(&self) -> (n: usize)
        ensures
            n == self.names().len(),
            self.wf() ==> n == self@.len(),
    {
        proof {
            self.lemma_listing();
        }
        self.items.len()
    }

    /// Whether the set has no member.
    pub fn is_empty(&self) -> (r: bool)
        ensures
            r == (self.names().len() == 0),
            r == (self@ == Set::<Seq<char>>::empty()),
    {
        proof {
            if self.items@.len() > 0 {
                assert(self.names()[0] == self.items@[0]@);
                assert(self@.contains(self.names()[0]));
            } else {
                assert(self@ =~= Set::<Seq<char>>::empty());
            }
        }
        self.items.len() == 0
    }

    /// The member at place `i` of the listing.
    pub fn get(&self, i: usize) -> (s: &State)
        requires
            i < self.names().len(),
        ensures
            s@ == self.names()[i as int],
    {
        &self.items[i]
    }

    /// Whether `state` is a member.
    pub fn contains(&self, state: &State) -> (r: bool)
        ensures
            r == self@.contains(state@),
    {
        let mut i: usize = 0;
        while i < self.items.len()
            invariant
                i <= self.items@.len(),
                forall|k: int| 0 <= k < i ==> self.names()[k] != state@,
            decreases self.items@.len() - i,
        {
            if self.items[i].same(state) {
                proof {
                    assert(self.names()[i as int] == state@);
                }
                return true;
            }
            i += 1;
        }
        false
    }

    /// The place of `state` in the listing, if it is a member.
    pub fn position(&self, state: &State) -> (place: Option<usize>)
        ensures
            match place {
                Some(i) => i < self.names().len() && self.names()[i as int] == state@,
                None => !self@.contains(state@),
            },
    {
        let mut i: usize = 0;
        while i < self.items.len()
            invariant
                i <= self.items@.len(),
                forall|k: int| 0 <= k < i ==> self.names()[k] != state@,
            decreases self.items@.len() - i,
        {
            if self.items[i].same(state) {
                return Some(i);
            }
            i += 1;
        }
        None
    }

    /// Adds `state` to the set. Returns whether it was new.
    pub fn insert(&mut self, state: State) -> (added: bool)
        requires
            old(self).wf(),
        ensures
            final(self).wf(),
            final(self)@ == old(self)@.insert(state@),
            added == !old(self)@.contains(state@),
    {
        let mut i: usize = 0;
        while i < self.items.len() && self.items[i].precedes(&state)
            invariant
                *self == *old(self),
                i <= self.items@.len(),
                forall|k: int| 0 <= k < i ==> name_lt(self.names()[k], state@),
            decreases self.items@.len() - i,
        {
            i += 1;
        }
        let ghost before = self.names();
        if i < self.items.len() && self.items[i].same(&state) {
            proof {
                assert(before[i as int] == state@);
                assert(self@ =~= self@.insert(state@));
            }
            return false;
        }
        proof {
            // Nothing listed from place `i` on is `state`, and all of it
            // comes after `state`.
            assert forall|k: int| i <= k < before.len() implies name_lt(state@, #[trigger] before[k]) by {
                lemma_name_lt_total(before[i as int], state@);
                if k > i {
                    assert(name_lt(before[i as int], before[k]));
                    lemma_name_lt_transitive(state@, before[i as int], before[k]);
                }
            }
            assert forall|k: int| 0 <= k < before.len() implies before[k] != state@ by {
                lemma_name_lt_irreflexive(state@);
            }
        }
        self.items.insert(i, state);
        proof {
            let after = self.names();
            assert(after =~= before.insert(i as int, state@));
            assert forall|a: int, b: int| 0 <= a < b < after.len() implies name_lt(after[a], after[b]) by {
                let pa = if a < i { a } else { a - 1 };
                let pb = if b < i { b } else { b - 1 };
                if a != i && b != i {
                    assert(name_lt(before[pa], before[pb]));
                }
            }
            assert forall|n: Seq<char>| after.to_set().contains(n) <==> before.to_set().insert(state@).contains(n) by {
                if after.contains(n) {
                    let k = choose|k: int| 0 <= k < after.len() && after[k] == n;
                    if k < i {
                        assert(before[k] == n);
                    } else if k > i {
                        assert(before[k - 1] == n);
                    }
                }
                if before.contains(n) {
                    let k = choose|k: int| 0 <= k < before.len() && before[k] == n;
                    if k < i {
                        assert(after[k] == n);
                    } else {
                        assert(after[k + 1] == n);
                    }
                }
                if n == state@ {
                    assert(after[i as int] == n);
                }
            }
            assert(after.to_set() =~= before.to_set().insert(state@));
        }
        true
    }

    /// Whether the two sets have a member in common.
    pub fn intersects(&self, other: &StateSet) -> (r: bool)
        ensures
            r == !self@.disjoint(other@),
    {
        let mut i: usize = 0;
        while i < self.items.len()
            invariant
                i <= self.items@.len(),
                forall|k: int| 0 <= k < i ==> !other@.contains(self.names()[k]),
            decreases self.items@.len() - i,
        {
            if other.contains(&self.items[i]) {
                proof {
                    assert(self@.contains(self.names()[i as int]));
                }
                return true;
            }
            i += 1;
        }
        proof {
            assert forall|n: Seq<char>| self@.contains(n) implies !other@.contains(n) by {
                let k = choose|k: int| 0 <= k < self.names().len() && self.names()[k] == n;
            }
        }
        false
    }

    /// The members, in the order of their names.
    pub fn to_vec(&self) -> (v: Vec<State>)
        ensures
            v@.len() == self.names().len(),
            forall|i: int| 0 <= i < v@.len() ==> v@[i]@ == self.names()[i],
    {
        let mut v: Vec<State> = Vec::new();
        let mut i: usize = 0;
        while i < self.items.len()
            invariant
                i <= self.items@.len(),
                v@.len() == i,
                forall|k: int| 0 <= k < i ==> v@[k]@ == self.names()[k],
            decreases self.items@.len() - i,
        {
            v.push(self.items[i].clone());
            i += 1;
        }
        v
    }
}

impl Clone for StateSet {
    fn clone(&self) -> (copy: StateSet)
        ensures
            copy.names() == self.names(),
            copy@ == self@,
            copy.wf() == self.wf(),
    {
        let copy = StateSet { items: self.to_vec() };
        proof {
            assert(copy.names() =~= self.names());
        }
        copy
    }
}

} // verus!
