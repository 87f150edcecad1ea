//! Regular expressions compiled to finite automata: a parser for a small
//! regular-expression language, Thompson's construction of an automaton with
//! epsilon transitions, and the subset construction that determinizes it.
//!
//! A text is parsed by [`regex::parse`], compiled by
//! [`thompson::regex_to_nfae`] and determinized by [`subset::nfae_to_dfae`].
//! What each of them returns is stated over the mathematical model of
//! [`model`]: an automaton is a set of state names, a set of transitions, an
//! initial state and a set of accepting states, and it accepts the words
//! that lead it from the initial state to an accepting one.
//!
//! Beyond the contracts of the functions, the library proves that the
//! automaton for an expression accepts exactly the words that the
//! expression denotes ([`correct`]), and that the deterministic automaton
//! accepts the same words ([`language`]); [`steps`] tells acceptance by
//! walks and by following single transitions.
//!
//! The parser and the builders keep what waits on stacks of their own, so
//! that the depth of an expression costs no call depth.

pub mod symbol;
pub mod text;
pub mod state;
pub mod state_set;
pub mod transition;
pub mod model;
pub mod encoding;
pub mod finite;
pub mod nfae;
pub mod regex;
pub mod thompson;
pub mod limits;
pub mod subset;
pub mod language;
pub mod names;
pub mod literal;
pub mod walk;
pub mod matching;
pub mod parts;
pub mod correct;
pub mod steps;
pub mod render;
pub mod export;
pub mod ids;
