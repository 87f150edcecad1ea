//! Transition labels.

use vstd::prelude::*;

verus! {

/// What a transition consumes: nothing, or one literal character.
#[derive(Clone, Copy, Debug, PartialEq, Eq, Hash, Structural)]
pub enum Symbol {
    Epsilon,
    Symbol(char),
}

impl Symbol {
    /// The character that stands for this label in printed output.
    pub open spec fn glyph(self) -> char {
        match self {
            Symbol::Epsilon => 'ε',
            Symbol::Symbol(c) => c,
        }
    }

    /// The character that stands for this label in printed output: `ε` for
    /// the empty label, the literal itself otherwise.
    pub fn to_char(self) -> (c: char)
        ensures
            c == self.glyph(),
    {
        match self {
            Symbol::Epsilon => 'ε',
            Symbol::Symbol(c) => c,
        }
    }
}

impl From<Symbol> for char {
    fn from(value: Symbol) -> (c: char) {
        value.to_char()
    }
}

impl vstd::std_specs::convert::FromSpecImpl<Symbol> for char {
    open spec fn obeys_from_spec() -> bool {
        true
    }

    open spec fn from_spec(value: Symbol) -> char {
        value.glyph()
    }
}

} // verus!
