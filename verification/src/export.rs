//! The automaton as a graph description in the DOT language.

use vstd::prelude::*;
use vstd::string::StringExecFns;
use crate::encoding::{sorted_listing, lemma_sorted_listing};
use crate::model::Automaton;
use crate::nfae::NFAe;
use crate::state::State;
use crate::symbol::Symbol;
use crate::text::{chars_of, decimal, push_decimal};
use crate::transition::Edge;

verus! {

/// The attributes that mark a node as initial, as accepting, or as both.
pub open spec fn style_text(init: bool, fin: bool) -> Seq<char> {
    if init && fin {
        "[color=blue][peripheries=2]"@
    } else if init {
        "[color=blue]"@
    } else if fin {
        "[peripheries=2]"@
    } else {
        ""@
    }
}

/// The attributes that mark a node as initial, as accepting, or as both.
pub fn style(init: bool, fin: bool) -> (attributes: &'static str)
    ensures
        attributes@ == style_text(init, fin),
{
    match (init, fin) {
        (true, true) => "[color=blue][peripheries=2]",
        (true, false) => "[color=blue]",
        (false, true) => "[peripheries=2]",
        (false, false) => "",
    }
}

/// The hexadecimal digit for a number below sixteen.
pub open spec fn hex_digit(d: nat) -> char {
    if d == 0 {
        '0'
    } else if d == 1 {
        '1'
    } else if d == 2 {
        '2'
    } else if d == 3 {
        '3'
    } else if d == 4 {
        '4'
    } else if d == 5 {
        '5'
    } else if d == 6 {
        '6'
    } else if d == 7 {
        '7'
    } else if d == 8 {
        '8'
    } else if d == 9 {
        '9'
    } else if d == 10 {
        'a'
    } else if d == 11 {
        'b'
    } else if d == 12 {
        'c'
    } else if d == 13 {
        'd'
    } else if d == 14 {
        'e'
    } else {
        'f'
    }
}

/// A number written in hexadecimal, without leading zeros.
pub open spec fn hexadecimal(n: nat) -> Seq<char>
    decreases n,
{
    if n < 16 {
        seq![hex_digit(n)]
    } else {
        hexadecimal(n / 16).push(hex_digit(n % 16))
    }
}

/// A character as it stands in a quoted label: a tab, a carriage return, a
/// line feed, a quote and a backslash are written with a backslash; the
/// printable ASCII characters stand for themselves; any other character is
/// written as `\u{..}` with its code in hexadecimal.
pub open spec fn escape_char(c: char) -> Seq<char> {
    if c == '\t' {
        seq!['\\', 't']
    } else if c == '\r' {
        seq!['\\', 'r']
    } else if c == '\n' {
        seq!['\\', 'n']
    } else if c == '\'' {
        seq!['\\', '\'']
    } else if c == '"' {
        seq!['\\', '"']
    } else if c == '\\' {
        seq!['\\', '\\']
    } else if ' ' <= c <= '~' {
        seq![c]
    } else {
        seq!['\\', 'u', '{'] + hexadecimal(c as nat) + seq!['}']
    }
}

/// A text with each of its characters as it stands in a quoted label.
pub open spec fn escape_text(text: Seq<char>) -> Seq<char>
    decreases text.len(),
{
    if text.len() == 0 {
        Seq::empty()
    } else {
        escape_text(text.drop_last()) + escape_char(text.last())
    }
}

/// The hexadecimal digit for `d`.
fn hex_digit_char(d: u32) -> (c: char)
    requires
        d < 16,
    ensures
        c == hex_digit(d as nat),
{
    if d == 0 {
        '0'
    } else if d == 1 {
        '1'
    } else if d == 2 {
        '2'
    } else if d == 3 {
        '3'
    } else if d == 4 {
        '4'
    } else if d == 5 {
        '5'
    } else if d == 6 {
        '6'
    } else if d == 7 {
        '7'
    } else if d == 8 {
        '8'
    } else if d == 9 {
        '9'
    } else if d == 10 {
        'a'
    } else if d == 11 {
        'b'
    } else if d == 12 {
        'c'
    } else if d == 13 {
        'd'
    } else if d == 14 {
        'e'
    } else {
        'f'
    }
}

/// Appends `n`, written in hexadecimal, to `text`.
fn push_hexadecimal(text: &mut String, n: u32)
    ensures
        final(text)@ == old(text)@ + hexadecimal(n as nat),
    decreases n,
{
    if n >= 16 {
        push_hexadecimal(text, n / 16);
    }
    text.push(hex_digit_char(n % 16));
    proof {
        assert(final(text)@ =~= old(text)@ + hexadecimal(n as nat));
    }
}

/// Appends `c` to `text` as it stands in a quoted label.
fn push_escaped(text: &mut String, c: char)
    ensures
        final(text)@ == old(text)@ + escape_char(c),
{
    if c == '\t' {
        text.push('\\');
        text.push('t');
    } else if c == '\r' {
        text.push('\\');
        text.push('r');
    } else if c == '\n' {
        text.push('\\');
        text.push('n');
    } else if c == '\'' {
        text.push('\\');
        text.push('\'');
    } else if c == '"' {
        text.push('\\');
        text.push('"');
    } else if c == '\\' {
        text.push('\\');
        text.push('\\');
    } else if ' ' <= c && c <= '~' {
        text.push(c);
    } else {
        text.push('\\');
        text.push('u');
        text.push('{');
        push_hexadecimal(text, c as u32);
        text.push('}');
    }
    proof {
        assert(final(text)@ =~= old(text)@ + escape_char(c));
    }
}

/// The text with each of its characters as it stands in a quoted label.
pub fn escape_default(s: &str) -> (escaped: String)
    ensures
        escaped@ == escape_text(s@),
{
    let letters = chars_of(s);
    let mut escaped = String::new();
    let mut i: usize = 0;
    proof {
        assert(letters@.take(0) =~= Seq::<char>::empty());
    }
    while i < letters.len()
        invariant
            i <= letters@.len(),
            letters@ == s@,
            escaped@ == escape_text(letters@.take(i as int)),
        decreases letters@.len() - i,
    {
        proof {
            assert(letters@.take(i + 1).drop_last() =~= letters@.take(i as int));
        }
        push_escaped(&mut escaped, letters[i]);
        i += 1;
    }
    proof {
        assert(letters@.take(letters@.len() as int) =~= letters@);
    }
    escaped
}

/// The line for the node with the number `id`: its label, unless labels are
/// hidden, and the attributes that mark it.
pub open spec fn node_line(id: nat, name: Seq<char>, init: bool, fin: bool, hide: bool) -> Seq<char> {
    "    q"@ + decimal(id) + (if hide {
        Seq::empty()
    } else {
        "[label=\""@ + escape_text(name) + "\"]"@
    }) + style_text(init, fin) + "\n"@
}

/// The lines for the first `n` states of the listing, numbered by their
/// places in it.
pub open spec fn node_lines(a: Automaton, names: Seq<Seq<char>>, hide: bool, n: nat) -> Seq<char>
    decreases n,
{
    if n == 0 || n > names.len() {
        Seq::empty()
    } else {
        let name = names[n - 1];
        node_lines(a, names, hide, (n - 1) as nat) + node_line(
            (n - 1) as nat,
            name,
            a.initial == Some(name),
            a.finals.contains(name),
            hide,
        )
    }
}

/// The place of `name` in the listing.
pub open spec fn place(names: Seq<Seq<char>>, name: Seq<char>) -> nat {
    choose|i: nat| i < names.len() && names[i as int] == name
}

/// The line for a transition between the nodes with the numbers `from` and
/// `to`.
pub open spec fn link_line(from: nat, to: nat, when: Symbol) -> Seq<char> {
    "    q"@ + decimal(from) + " -> q"@ + decimal(to) + "[label=\""@ + seq![when.glyph()] + "\"]\n"@
}

/// The lines for the first `n` transitions of the listing.
pub open spec fn link_lines(listing: Seq<Edge>, names: Seq<Seq<char>>, n: nat) -> Seq<char>
    decreases n,
{
    if n == 0 || n > listing.len() {
        Seq::empty()
    } else {
        let e = listing[n - 1];
        link_lines(listing, names, (n - 1) as nat) + link_line(
            place(names, e.from),
            place(names, e.to),
            e.when,
        )
    }
}

/// The graph of an automaton in the DOT language: one node for each state,
/// numbered in the order of the names, and one edge for each transition of
/// the listing.
pub open spec fn dot_text(a: Automaton, listing: Seq<Edge>, hide: bool) -> Seq<char> {
    let names = sorted_listing(a.states);
    "digraph nfae {\n"@ + node_lines(a, names, hide, names.len()) + link_lines(
        listing,
        names,
        listing.len(),
    ) + "}\n"@
}

/// The place of a state of the listing is the one place where it stands.
proof fn lemma_place(names: Seq<Seq<char>>, i: nat)
    requires
        names.no_duplicates(),
        i < names.len(),
    ensures
        place(names, names[i as int]) == i,
{
    let chosen = place(names, names[i as int]);
    assert(i < names.len() && names[i as int] == names[i as int]);
}

/// Appends the line for the node with the number `id`.
fn push_node_line(text: &mut String, id: usize, name: &str, init: bool, fin: bool, hide: bool)
    ensures
        final(text)@ == old(text)@ + node_line(id as nat, name@, init, fin, hide),
{
    text.append("    q");
    push_decimal(text, id as u64);
    if !hide {
        text.append("[label=\"");
        text.append(escape_default(name).as_str());
        text.append("\"]");
    }
    text.append(style(init, fin));
    text.append("\n");
    proof {
        assert(final(text)@ =~= old(text)@ + node_line(id as nat, name@, init, fin, hide));
    }
}

/// Appends the line for a transition between the nodes with the numbers
/// `from` and `to`.
fn push_link_line(text: &mut String, from: usize, to: usize, when: Symbol)
    ensures
        final(text)@ == old(text)@ + link_line(from as nat, to as nat, when),
{
    text.append("    q");
    push_decimal(text, from as u64);
    text.append(" -> q");
    push_decimal(text, to as u64);
    text.append("[label=\"");
    text.push(when.to_char());
    text.append("\"]\n");
    proof {
        assert(final(text)@ =~= old(text)@ + link_line(from as nat, to as nat, when));
    }
}

/// The graph of the automaton in the DOT language. The nodes stand in the
/// order of the state names and are numbered from 0; a node carries its
/// state's name as a label unless `hide_labels` is set; the initial state is
/// blue and an accepting state has a double border. Every transition must
/// lead from a state to a state.
pub fn nfae_dot(nfae: &NFAe, hide_labels: bool) -> (text: String)
    requires
        nfae.wf(),
        forall|e: Edge| #[trigger]
            nfae@.edges.contains(e) ==> nfae@.states.contains(e.from) && nfae@.states.contains(e.to),
    ensures
        text@ == dot_text(nfae@, nfae.listing(), hide_labels),
{
    let states = nfae.get_states();
    let ghost names = states.names();
    proof {
        states.lemma_listing();
        lemma_sorted_listing(names);
    }
    let mut text = String::new();
    text.append("digraph nfae {\n");
    let ghost head = text@;
    let mut i: usize = 0;
    while i < states.len()
        invariant
            i <= names.len(),
            names == states.names(),
            text@ == head + node_lines(nfae@, names, hide_labels, i as nat),
        decreases names.len() - i,
    {
        let state = states.get(i);
        push_node_line(
            &mut text,
            i,
            state.0.as_str(),
            nfae.is_initial(state),
            nfae.is_final(state),
            hide_labels,
        );
        proof {
            assert(text@ =~= head + node_lines(nfae@, names, hide_labels, (i + 1) as nat));
        }
        i += 1;
    }
    let ghost nodes = text@;
    let transitions = nfae.get_transitions();
    let mut k: usize = 0;
    proof {
        nfae.lemma_finite();
    }
    while k < transitions.len()
        invariant
            k <= transitions@.len(),
            names == states.names(),
            names.no_duplicates(),
            states@ == nfae@.states,
            nfae.listing().len() == transitions@.len(),
            nfae@.edges == nfae.listing().to_set(),
            forall|j: int| 0 <= j < transitions@.len() ==> transitions@[j]@ == nfae.listing()[j],
            forall|e: Edge| #[trigger]
                nfae@.edges.contains(e) ==> nfae@.states.contains(e.from) && nfae@.states.contains(
                    e.to,
                ),
            text@ == nodes + link_lines(nfae.listing(), names, k as nat),
        decreases transitions@.len() - k,
    {
        let t = &transitions[k];
        proof {
            assert(t@ == nfae.listing()[k as int]);
            assert(nfae.listing().contains(t@));
            assert(nfae@.edges.contains(t@));
        }
        let from = match states.position(&t.from) {
            Some(place) => place,
            None => 0,
        };
        let to = match states.position(&t.to) {
            Some(place) => place,
            None => 0,
        };
        proof {
            lemma_place(names, from as nat);
            lemma_place(names, to as nat);
        }
        push_link_line(&mut text, from, to, t.when);
        proof {
            assert(text@ =~= nodes + link_lines(nfae.listing(), names, (k + 1) as nat));
        }
        k += 1;
    }
    text.append("}\n");
    proof {
        assert(text@ =~= dot_text(nfae@, nfae.listing(), hide_labels));
    }
    text
}

/// The text from `at` on with every pair of braces that holds nothing
/// replaced by the word `empty`.
pub open spec fn braces_named(text: Seq<char>, at: nat) -> Seq<char>
    decreases text.len() - at,
{
    if at >= text.len() {
        Seq::empty()
    } else if text[at as int] == '{' && at + 1 < text.len() && text[at as int + 1] == '}' {
        seq!['e', 'm', 'p', 't', 'y'] + braces_named(text, at + 2)
    } else {
        seq![text[at as int]] + braces_named(text, at + 1)
    }
}

/// What is left of a character in an identifier: nothing of a brace or a
/// space, an underscore of a comma, and any other character itself.
pub open spec fn id_char(c: char) -> Seq<char> {
    if c == '{' || c == '}' || c == ' ' {
        Seq::empty()
    } else if c == ',' {
        seq!['_']
    } else {
        seq![c]
    }
}

/// What is left of a text in an identifier.
pub open spec fn id_chars(text: Seq<char>) -> Seq<char>
    decreases text.len(),
{
    if text.len() == 0 {
        Seq::empty()
    } else {
        id_chars(text.drop_last()) + id_char(text.last())
    }
}

/// The identifier of the node for the state `name`: `{q0, q1}` gives
/// `q0_q1`, and `{}` gives `empty`.
pub open spec fn node_id_text(name: Seq<char>) -> Seq<char> {
    id_chars(braces_named(name, 0))
}

/// Whether `c` may begin an identifier: an ASCII letter or an underscore.
pub open spec fn id_start(c: char) -> bool {
    ('a' <= c <= 'z') || ('A' <= c <= 'Z') || c == '_'
}

/// Whether `c` may stand in an identifier: an ASCII letter, an underscore
/// or an ASCII digit.
pub open spec fn id_part(c: char) -> bool {
    id_start(c) || ('0' <= c <= '9')
}

/// Whether `text` is an identifier of the graph language: not empty, made
/// of ASCII letters, digits and underscores, and not begun by a digit.
pub open spec fn is_identifier(text: Seq<char>) -> bool {
    &&& text.len() > 0
    &&& id_start(text[0])
    &&& forall|i: int| 0 <= i < text.len() ==> id_part(#[trigger] text[i])
}

#[verifier::external_type_specification]
#[verifier::external_body]
pub struct ExId<'a>(dot::Id<'a>);

/// What `dot::Id::new` makes of a name.
pub uninterp spec fn made_id(name: Seq<char>) -> Option<dot::Id<'static>>;

/// `dot::Id::new` makes an identifier of a name, and refuses the name
/// unless it begins with an ASCII letter or an underscore and goes on with
/// ASCII letters, digits and underscores. What it makes depends on the name
/// alone.
#[verifier::external_body]
fn new_id(name: String) -> (id: Option<dot::Id<'static>>)
    ensures
        id == made_id(name@),
        id is Some <==> is_identifier(name@),
{
    dot::Id::new(name).ok()
}

/// The identifier of the node for the state `name`, if what is left of the
/// name is an identifier.
pub fn node_id(name: &str) -> (id: Option<dot::Id<'static>>)
    ensures
        id == made_id(node_id_text(name@)),
        id is Some <==> is_identifier(node_id_text(name@)),
{
    new_id(node_name(name))
}

/// What is left of the name of a state in the identifier of its node.
pub fn node_name(name: &str) -> (id: String)
    ensures
        id@ == node_id_text(name@),
{
    let letters = chars_of(name);
    let mut named: Vec<char> = Vec::new();
    let mut i: usize = 0;
    while i < letters.len()
        invariant
            i <= letters@.len(),
            letters@ == name@,
            braces_named(name@, 0) == named@ + braces_named(name@, i as nat),
        decreases letters@.len() - i,
    {
        let ghost before = named@;
        if letters[i] == '{' && i + 1 < letters.len() && letters[i + 1] == '}' {
            named.push('e');
            named.push('m');
            named.push('p');
            named.push('t');
            named.push('y');
            proof {
                assert(named@ =~= before + seq!['e', 'm', 'p', 't', 'y']);
                assert(named@ + braces_named(name@, (i + 2) as nat) =~= before + braces_named(
                    name@,
                    i as nat,
                ));
            }
            i += 2;
        } else {
            named.push(letters[i]);
            proof {
                assert(named@ + braces_named(name@, (i + 1) as nat) =~= before + braces_named(
                    name@,
                    i as nat,
                ));
            }
            i += 1;
        }
    }
    proof {
        assert(named@ =~= braces_named(name@, 0));
        assert(named@.take(0) =~= Seq::<char>::empty());
    }
    let mut id = String::new();
    let mut k: usize = 0;
    while k < named.len()
        invariant
            k <= named@.len(),
            id@ == id_chars(named@.take(k as int)),
        decreases named@.len() - k,
    {
        let c = named[k];
        proof {
            assert(named@.take(k + 1).drop_last() =~= named@.take(k as int));
        }
        if c == '{' || c == '}' || c == ' ' {
        } else if c == ',' {
            id.push('_');
        } else {
            id.push(c);
        }
        proof {
            assert(id@ =~= id_chars(named@.take(k as int)) + id_char(c));
        }
        k += 1;
    }
    proof {
        assert(named@.take(named@.len() as int) =~= named@);
    }
    id
}

/// The label of a node: the name of its state, after `>>` if the state is
/// initial, and between parentheses if it is accepting.
pub open spec fn node_label_text(name: Seq<char>, init: bool, fin: bool) -> Seq<char> {
    (if init {
        seq!['>', '>']
    } else {
        Seq::empty()
    }) + (if fin {
        seq!['('] + name + seq![')']
    } else {
        name
    })
}

/// The label of the node for `state`.
pub fn node_label(nfae: &NFAe, state: &State) -> (label: String)
    ensures
        label@ == node_label_text(
            state@,
            nfae@.initial == Some(state@),
            nfae@.finals.contains(state@),
        ),
{
    let mut label = String::new();
    if nfae.is_initial(state) {
        label.push('>');
        label.push('>');
    }
    if nfae.is_final(state) {
        label.push('(');
        label.append(state.0.as_str());
        label.push(')');
    } else {
        label.append(state.0.as_str());
    }
    proof {
        assert(label@ =~= node_label_text(
            state@,
            nfae@.initial == Some(state@),
            nfae@.finals.contains(state@),
        ));
    }
    label
}

/// The label of an edge: `eps` for an epsilon transition, else the
/// character.
pub open spec fn edge_label_text(when: Symbol) -> Seq<char> {
    match when {
        Symbol::Epsilon => seq!['e', 'p', 's'],
        Symbol::Symbol(c) => seq![c],
    }
}

/// The label of an edge for a transition on `when`.
pub fn edge_label(when: Symbol) -> (label: String)
    ensures
        label@ == edge_label_text(when),
{
    let mut label = String::new();
    match when {
        Symbol::Epsilon => {
            label.push('e');
            label.push('p');
            label.push('s');
        },
        Symbol::Symbol(c) => {
            label.push(c);
        },
    }
    proof {
        assert(label@ =~= edge_label_text(when));
    }
    label
}

/// The transition table of the automaton; it has no rows yet, so the text
/// is empty.
pub fn nfae_table(nfae: &NFAe) -> (text: String)
    ensures
        text@ == Seq::<char>::empty(),
{
    String::new()
}

} // verus!
