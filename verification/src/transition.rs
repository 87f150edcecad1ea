//! Transitions of an automaton.

use vstd::prelude::*;
use crate::state::State;
use crate::symbol::Symbol;

verus! {

/// A transition as a mathematical triple: from a state, on a label, to a
/// state, each state given by its name.
pub struct Edge {
    pub from: Seq<char>,
    pub when: Symbol,
    pub to: Seq<char>,
}

/// A transition: in state `from`, consuming `when`, the automaton may go to
/// state `to`.
#[derive(Debug, PartialEq, Eq, Hash)]
pub struct Transition {
    pub from: State,
    pub to: State,
    pub when: Symbol,
}

impl View for Transition {
    type V = Edge;

    open spec fn view(&self) -> Edge {
        Edge { from: self.from@, when: self.when, to: self.to@ }
    }
}

impl Clone for Transition {
    fn clone(&self) -> (copy: Transition)
        ensures
            copy@ == self@,
    {
        Transition { from: self.from.clone(), to: self.to.clone(), when: self.when }
    }
}

impl Transition {
    /// Whether the two transitions have the same ends and the same label.
    pub fn same(&self, other: &Transition) -> (r: bool)
        ensures
            r == (self@ == other@),
    {
        self.from.same(&other.from) && self.to.same(&other.to) && self.when == other.when
    }
}

} // verus!
