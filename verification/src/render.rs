//! How states, labels, transitions, regular expressions and automata are
//! written out for a reader.

use vstd::prelude::*;
use vstd::string::StringExecFns;
use crate::encoding::{encode, encode_set};
use crate::nfae::NFAe;
use crate::regex::{RegularExpression, Tok, Token, TokenGroup};
use crate::state::State;
use crate::symbol::Symbol;
use crate::transition::{Edge, Transition};

verus! {

/// A state name between angle brackets.
pub open spec fn state_text(name: Seq<char>) -> Seq<char> {
    seq!['<'] + name + seq!['>']
}

/// A transition, as `δ(<from>,a) ⊇ {<to>}`.
pub open spec fn edge_text(e: Edge) -> Seq<char> {
    seq!['δ', '('] + state_text(e.from) + seq![',', e.when.glyph(), ')', ' ', '⊇', ' ', '{']
        + state_text(e.to) + seq!['}']
}

/// A regular expression with every operator made visible: `ε` for the
/// empty word, `(E)` for a group, `[A]+[B]` for a union, `[A].[B]` for a
/// concatenation and `<A>` for a closure.
pub open spec fn regex_text(regex: RegularExpression) -> Seq<char>
    decreases regex,
{
    match regex {
        RegularExpression::Epsilon => seq!['ε'],
        RegularExpression::Symbol(c) => seq![c],
        RegularExpression::Group(a) => seq!['('] + regex_text(*a) + seq![')'],
        RegularExpression::Union(a, b) => seq!['['] + regex_text(*a) + seq![']', '+', '[']
            + regex_text(*b) + seq![']'],
        RegularExpression::Concat(a, b) => seq!['['] + regex_text(*a) + seq![']', '.', '[']
            + regex_text(*b) + seq![']'],
        RegularExpression::Closure(a) => seq!['<'] + regex_text(*a) + seq!['>'],
    }
}

/// A token: the character, or the group.
pub open spec fn token_text(token: Tok) -> Seq<char>
    decreases token,
{
    match token {
        Tok::Symbol(c) => seq![c],
        Tok::Group(g) => group_text(g),
    }
}

/// The first `n` tokens of a group, with a comma between one and the next.
pub open spec fn tokens_text(tokens: Seq<Tok>, n: nat) -> Seq<char>
    decreases tokens, n,
{
    if n == 0 || n > tokens.len() {
        Seq::empty()
    } else if n == 1 {
        token_text(tokens[0])
    } else {
        tokens_text(tokens, (n - 1) as nat) + seq![','] + token_text(tokens[n - 1])
    }
}

/// A group of tokens between parentheses, with a comma between one token
/// and the next.
pub open spec fn group_text(tokens: Seq<Tok>) -> Seq<char>
    decreases tokens, tokens.len() + 1,
{
    seq!['('] + tokens_text(tokens, tokens.len()) + seq![')']
}

/// The line for a transition, as `d(from, a) = to` after a line break.
pub open spec fn edge_line(e: Edge) -> Seq<char> {
    "\nd("@ + e.from + ", "@ + seq![e.when.glyph()] + ") = "@ + e.to
}

/// The lines for the first `n` transitions of a listing.
pub open spec fn edge_lines(listing: Seq<Edge>, n: nat) -> Seq<char>
    decreases n,
{
    if n == 0 || n > listing.len() {
        Seq::empty()
    } else {
        edge_lines(listing, (n - 1) as nat) + edge_line(listing[n - 1])
    }
}

/// The initial state as it is described: its name, or `None`.
pub open spec fn initial_text(initial: Option<Seq<char>>) -> Seq<char> {
    match initial {
        Some(name) => name,
        None => "None"@,
    }
}

/// The description of an automaton: a headline, the states, the initial
/// state, the accepting states, and one line for each transition.
pub open spec fn automaton_text(
    states: Set<Seq<char>>,
    initial: Option<Seq<char>>,
    finals: Set<Seq<char>>,
    listing: Seq<Edge>,
) -> Seq<char> {
    "[epsilon-NFA]\nq = "@ + encode(states) + "\nq0 = "@ + initial_text(initial) + "\nF = "@
        + encode(finals) + edge_lines(listing, listing.len())
}

impl State {
    /// The state written out: its name between angle brackets.
    pub fn display(&self) -> (text: String)
        ensures
            text@ == state_text(self@),
    {
        let mut text = String::new();
        text.push('<');
        text.append(self.0.as_str());
        text.push('>');
        proof {
            assert(text@ =~= state_text(self@));
        }
        text
    }
}

impl Symbol {
    /// The label written out: its character, `ε` for the empty label.
    pub fn display(&self) -> (text: String)
        ensures
            text@ == seq![self.glyph()],
    {
        let mut text = String::new();
        text.push(self.to_char());
        proof {
            assert(text@ =~= seq![self.glyph()]);
        }
        text
    }
}

impl Transition {
    /// The transition written out.
    pub fn display(&self) -> (text: String)
        ensures
            text@ == edge_text(self@),
    {
        let mut text = String::new();
        text.push('δ');
        text.push('(');
        text.append(self.from.display().as_str());
        text.push(',');
        text.push(self.when.to_char());
        text.push(')');
        text.push(' ');
        text.push('⊇');
        text.push(' ');
        text.push('{');
        text.append(self.to.display().as_str());
        text.push('}');
        proof {
            assert(text@ =~= edge_text(self@));
        }
        text
    }
}

impl RegularExpression {
    /// Appends the expression, written out, to `text`.
    fn write(&self, text: &mut String)
        ensures
            final(text)@ == old(text)@ + regex_text(*self),
        decreases *self,
    {
        match self {
            RegularExpression::Epsilon => {
                text.push('ε');
            },
            RegularExpression::Symbol(c) => {
                text.push(*c);
            },
            RegularExpression::Group(a) => {
                text.push('(');
                a.write(text);
                text.push(')');
            },
            RegularExpression::Union(a, b) => {
                text.push('[');
                a.write(text);
                text.push(']');
                text.push('+');
                text.push('[');
                b.write(text);
                text.push(']');
            },
            RegularExpression::Concat(a, b) => {
                text.push('[');
                a.write(text);
                text.push(']');
                text.push('.');
                text.push('[');
                b.write(text);
                text.push(']');
            },
            RegularExpression::Closure(a) => {
                text.push('<');
                a.write(text);
                text.push('>');
            },
        }
        proof {
            assert(final(text)@ =~= old(text)@ + regex_text(*self));
        }
    }

    /// The expression written out, with every operator made visible.
    pub fn display(&self) -> (text: String)
        ensures
            text@ == regex_text(*self),
    {
        let mut text = String::new();
        self.write(&mut text);
        proof {
            assert(text@ =~= regex_text(*self));
        }
        text
    }
}

impl Token {
    /// Appends the token, written out, to `text`.
    fn write(&self, text: &mut String)
        ensures
            final(text)@ == old(text)@ + token_text(self@),
        decreases *self,
    {
        match self {
            Token::Symbol(c) => {
                text.push(*c);
            },
            Token::Group(g) => {
                g.write(text);
            },
        }
        proof {
            assert(final(text)@ =~= old(text)@ + token_text(self@));
        }
    }

    /// The token written out.
    pub fn display(&self) -> (text: String)
        ensures
            text@ == token_text(self@),
    {
        let mut text = String::new();
        self.write(&mut text);
        proof {
            assert(text@ =~= token_text(self@));
        }
        text
    }
}

impl TokenGroup {
    /// Appends the group, written out, to `text`.
    fn write(&self, text: &mut String)
        ensures
            final(text)@ == old(text)@ + group_text(self@),
        decreases *self,
    {
        text.push('(');
        let mut i: usize = 0;
        while i < self.0.len()
            invariant
                i <= self.0@.len(),
                self@.len() == self.0@.len(),
                text@ == old(text)@ + seq!['('] + tokens_text(self@, i as nat),
            decreases self.0@.len() - i,
        {
            if i > 0 {
                text.push(',');
            }
            proof {
                assert(self@[i as int] == self.0@[i as int]@);
            }
            self.0[i].write(text);
            proof {
                assert(text@ =~= old(text)@ + seq!['('] + tokens_text(self@, (i + 1) as nat));
            }
            i += 1;
        }
        text.push(')');
        proof {
            assert(final(text)@ =~= old(text)@ + group_text(self@));
        }
    }

    /// The group written out.
    pub fn display(&self) -> (text: String)
        ensures
            text@ == group_text(self@),
    {
        let mut text = String::new();
        self.write(&mut text);
        proof {
            assert(text@ =~= group_text(self@));
        }
        text
    }
}

impl NFAe {
    /// The automaton written out: its states, its initial state, its
    /// accepting states, and its transitions in the order in which they
    /// were added.
    pub fn display(&self) -> (text: String)
        requires
            self.wf(),
        ensures
            text@ == automaton_text(self@.states, self@.initial, self@.finals, self.listing()),
    {
        let mut text = String::new();
        text.append("[epsilon-NFA]\nq = ");
        text.append(encode_set(&self.get_states()).0.as_str());
        text.append("\nq0 = ");
        match self.get_initial() {
            Some(state) => {
                text.append(state.0.as_str());
            },
            None => {
                text.append("None");
            },
        }
        text.append("\nF = ");
        text.append(encode_set(&self.get_finals()).0.as_str());
        let ghost head = text@;
        proof {
            assert(head =~= "[epsilon-NFA]\nq = "@ + encode(self@.states) + "\nq0 = "@ + initial_text(
                self@.initial,
            ) + "\nF = "@ + encode(self@.finals));
        }
        let transitions = self.get_transitions();
        let mut i: usize = 0;
        while i < transitions.len()
            invariant
                i <= transitions@.len(),
                self.listing().len() == transitions@.len(),
                forall|k: int| 0 <= k < transitions@.len() ==> transitions@[k]@ == self.listing()[k],
                text@ == head + edge_lines(self.listing(), i as nat),
            decreases transitions@.len() - i,
        {
            let t = &transitions[i];
            let ghost before = text@;
            text.append("\nd(");
            text.append(t.from.0.as_str());
            text.append(", ");
            text.push(t.when.to_char());
            text.append(") = ");
            text.append(t.to.0.as_str());
            proof {
                assert(transitions@[i as int]@ == self.listing()[i as int]);
                assert(text@ =~= before + edge_line(self.listing()[i as int]));
                assert(text@ =~= head + edge_lines(self.listing(), (i + 1) as nat));
            }
            i += 1;
        }
        text
    }
}

} // verus!
