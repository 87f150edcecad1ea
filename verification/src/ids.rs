//! The states of the automata made from regular expressions have node
//! identifiers.

use vstd::prelude::*;
use vstd::set_lib::lemma_set_subset_finite;
use crate::encoding::{encode, join_names, sorted_listing};
use crate::export::{braces_named, id_char, id_chars, id_part, is_identifier, node_id_text};
use crate::names::lemma_sorted_listing_exists;
use crate::regex::RegularExpression;
use crate::state::state_name;
use crate::subset::{determinized, over, subset_state};
use crate::text::{decimal, lemma_decimal};
use crate::thompson::{fresh_states, thompson, lemma_thompson_shape};
use crate::transition::Edge;

verus! {

/// A character of an automatic name or of the name of a set of automatic
/// names: `q`, a digit, a brace, a comma or a space.
pub open spec fn name_char(c: char) -> bool {
    c == 'q' || ('0' <= c <= '9') || c == '{' || c == '}' || c == ',' || c == ' '
}

/// Every character of `text` is a character of such names.
pub open spec fn name_text(text: Seq<char>) -> bool {
    forall|i: int| 0 <= i < text.len() ==> name_char(#[trigger] text[i])
}

/// Where no opening brace is followed by a closing one, no pair of braces
/// is replaced.
proof fn lemma_braces_kept(text: Seq<char>, at: nat)
    requires
        at <= text.len(),
        forall|i: int| 0 <= i < text.len() - 1 && (#[trigger] text[i]) == '{' ==> text[i + 1] != '}',
    ensures
        braces_named(text, at) == text.skip(at as int),
    decreases text.len() - at,
{
    if at < text.len() {
        lemma_braces_kept(text, at + 1);
        assert(text.skip(at as int) =~= seq![text[at as int]] + text.skip(at as int + 1));
    } else {
        assert(text.skip(at as int) =~= Seq::<char>::empty());
    }
}

/// What is left of two texts, one after the other, is what is left of the
/// first and then what is left of the second.
proof fn lemma_id_chars_concat(a: Seq<char>, b: Seq<char>)
    ensures
        id_chars(a + b) == id_chars(a) + id_chars(b),
    decreases b.len(),
{
    if b.len() == 0 {
        assert(a + b =~= a);
        assert(id_chars(a) + id_chars(b) =~= id_chars(a));
    } else {
        lemma_id_chars_concat(a, b.drop_last());
        assert((a + b).drop_last() =~= a + b.drop_last());
        assert(id_chars(a + b) =~= id_chars(a) + id_chars(b));
    }
}

/// What is left of a text of name characters is made of characters that
/// may stand in an identifier.
proof fn lemma_id_chars_parts(text: Seq<char>)
    requires
        name_text(text),
    ensures
        forall|i: int| 0 <= i < id_chars(text).len() ==> id_part(#[trigger] id_chars(text)[i]),
    decreases text.len(),
{
    if text.len() > 0 {
        let rest = text.drop_last();
        assert forall|i: int| 0 <= i < rest.len() implies name_char(#[trigger] rest[i]) by {
            assert(rest[i] == text[i]);
        }
        lemma_id_chars_parts(rest);
        assert(name_char(text[text.len() - 1]));
        let out = id_chars(text);
        assert forall|i: int| 0 <= i < out.len() implies id_part(#[trigger] out[i]) by {
            if i < id_chars(rest).len() {
                assert(out[i] == id_chars(rest)[i]);
            } else {
                assert(out[i] == id_char(text.last())[i - id_chars(rest).len()]);
            }
        }
    }
}

/// An automatic name is made of name characters, begins with `q` and holds
/// no brace.
proof fn lemma_state_name_chars(k: nat)
    ensures
        name_text(state_name(k)),
        state_name(k).len() >= 2,
        state_name(k)[0] == 'q',
        forall|i: int|
            0 <= i < state_name(k).len() ==> (#[trigger] state_name(k)[i]) != '{' && state_name(
                k,
            )[i] != '}',
{
    lemma_decimal(k);
    assert forall|i: int| 0 <= i < state_name(k).len() implies name_char(#[trigger] state_name(k)[i])
        && state_name(k)[i] != '{' && state_name(k)[i] != '}' by {
        if i > 0 {
            assert(state_name(k)[i] == decimal(k)[i - 1]);
        }
    }
}

/// Every name of the listing is an automatic name.
pub open spec fn automatic(names: Seq<Seq<char>>) -> bool {
    forall|i: int| 0 <= i < names.len() ==> exists|k: nat| #[trigger] names[i] == state_name(k)
}

/// Automatic names joined are made of name characters, begin with `q` and
/// hold no brace.
proof fn lemma_join_chars(names: Seq<Seq<char>>)
    requires
        automatic(names),
        names.len() >= 1,
    ensures
        name_text(join_names(names)),
        join_names(names).len() >= 2,
        join_names(names)[0] == 'q',
        forall|i: int|
            0 <= i < join_names(names).len() ==> (#[trigger] join_names(names)[i]) != '{'
                && join_names(names)[i] != '}',
    decreases names.len(),
{
    let last = names.last();
    let k = choose|k: nat| #[trigger] names[names.len() - 1] == state_name(k);
    lemma_state_name_chars(k);
    if names.len() > 1 {
        let rest = names.drop_last();
        assert forall|i: int| 0 <= i < rest.len() implies exists|k: nat| #[trigger]
            rest[i] == state_name(k) by {
            assert(rest[i] == names[i]);
        }
        lemma_join_chars(rest);
        let head = join_names(rest);
        let whole = join_names(names);
        assert(whole == head + seq![',', ' '] + last);
        assert forall|i: int| 0 <= i < whole.len() implies name_char(#[trigger] whole[i]) && whole[i]
            != '{' && whole[i] != '}' by {
            if i < head.len() {
                assert(whole[i] == head[i]);
            } else if i >= head.len() + 2 {
                assert(whole[i] == last[i - head.len() - 2]);
            }
        }
        assert(whole[0] == head[0]);
    }
}

/// What is left of the name of a set of automatic names is an identifier.
proof fn lemma_set_name_is_identifier(set: Set<Seq<char>>)
    requires
        set.finite(),
        forall|n: Seq<char>| set.contains(n) ==> exists|k: nat| n == #[trigger] state_name(k),
    ensures
        is_identifier(node_id_text(encode(set))),
{
    lemma_sorted_listing_exists(set);
    let names = sorted_listing(set);
    let text = encode(set);
    if names.len() == 0 {
        assert(join_names(names) =~= Seq::<char>::empty());
        assert(text =~= seq!['{', '}']);
        reveal_with_fuel(braces_named, 3);
        assert(braces_named(text, 2) =~= Seq::<char>::empty());
        assert(braces_named(text, 0) =~= seq!['e', 'm', 'p', 't', 'y']);
        let word = seq!['e', 'm', 'p', 't', 'y'];
        reveal_with_fuel(id_chars, 6);
        assert(word.drop_last() =~= seq!['e', 'm', 'p', 't']);
        assert(word.drop_last().drop_last() =~= seq!['e', 'm', 'p']);
        assert(word.drop_last().drop_last().drop_last() =~= seq!['e', 'm']);
        assert(word.drop_last().drop_last().drop_last().drop_last() =~= seq!['e']);
        assert(word.drop_last().drop_last().drop_last().drop_last().drop_last() =~= Seq::<
            char,
        >::empty());
        assert(id_chars(word) =~= word);
    } else {
        assert forall|i: int| 0 <= i < names.len() implies exists|k: nat| #[trigger]
            names[i] == state_name(k) by {
            assert(names.to_set().contains(names[i]));
            let k = choose|k: nat| names[i] == #[trigger] state_name(k);
        }
        lemma_join_chars(names);
        let inner = join_names(names);
        assert(text == seq!['{'] + inner + seq!['}']);
        assert forall|i: int| 0 <= i < text.len() - 1 && (#[trigger] text[i]) == '{' implies text[i
            + 1] != '}' by {
            if i > 0 {
                assert(text[i] == inner[i - 1]);
            } else {
                assert(text[1] == inner[0]);
            }
        }
        lemma_braces_kept(text, 0);
        assert(text.skip(0) =~= text);
        lemma_id_chars_concat(seq!['{'] + inner, seq!['}']);
        lemma_id_chars_concat(seq!['{'], inner);
        let first = seq![inner[0]];
        let rest = inner.skip(1);
        assert(inner =~= first + rest);
        lemma_id_chars_concat(first, rest);
        reveal_with_fuel(id_chars, 2);
        assert(seq!['{'].drop_last() =~= Seq::<char>::empty());
        assert(seq!['}'].drop_last() =~= Seq::<char>::empty());
        assert(first.drop_last() =~= Seq::<char>::empty());
        assert(id_chars(seq!['{']) =~= Seq::<char>::empty());
        assert(id_chars(seq!['}']) =~= Seq::<char>::empty());
        assert(id_chars(first) =~= seq!['q']);
        let out = id_chars(text);
        assert(out =~= seq!['q'] + id_chars(rest));
        assert forall|i: int| 0 <= i < text.len() implies name_char(#[trigger] text[i]) by {
            if 0 < i < text.len() - 1 {
                assert(text[i] == inner[i - 1]);
            }
        }
        lemma_id_chars_parts(text);
        assert(out[0] == 'q');
    }
}

/// What is left of an automatic name is an identifier.
pub proof fn lemma_state_name_is_identifier(k: nat)
    ensures
        is_identifier(node_id_text(state_name(k))),
{
    let text = state_name(k);
    lemma_state_name_chars(k);
    lemma_braces_kept(text, 0);
    assert(text.skip(0) =~= text);
    let first = seq![text[0]];
    let rest = text.skip(1);
    assert(text =~= first + rest);
    lemma_id_chars_concat(first, rest);
    reveal_with_fuel(id_chars, 2);
    assert(first.drop_last() =~= Seq::<char>::empty());
    assert(id_chars(first) =~= seq!['q']);
    lemma_id_chars_parts(text);
    let out = id_chars(text);
    assert(out =~= seq!['q'] + id_chars(rest));
    assert(out[0] == 'q');
}

/// Every state of the automaton for a regular expression, and every state of
/// the deterministic automaton made from it, has a node identifier.
pub proof fn lemma_states_have_identifiers(regex: RegularExpression, name: Seq<char>)
    requires
        thompson(regex).states.contains(name) || determinized(thompson(regex)).states.contains(name),
    ensures
        is_identifier(node_id_text(name)),
{
    let a = thompson(regex);
    lemma_thompson_shape(regex);
    if a.states.contains(name) {
        let k = choose|k: nat| k < 2 + fresh_states(regex) && name == #[trigger] state_name(k);
        lemma_state_name_is_identifier(k);
    } else {
        let set = choose|set: Set<Seq<char>>| #[trigger] subset_state(a, set) && name == encode(set);
        let word = choose|word: Seq<char>|
            over(word, a.alphabet()) && set == #[trigger] a.run(a.start(), word);
        a.lemma_run_within(word);
        a.edges.lemma_map_finite(|e: Edge| e.to);
        lemma_set_subset_finite(a.base(), set);
        assert forall|n: Seq<char>| set.contains(n) implies exists|k: nat|
            n == #[trigger] state_name(k) by {
            assert(a.base().contains(n));
            if !a.states.contains(n) {
                let e = choose|e: Edge| a.edges.contains(e) && e.to == n;
                assert(a.states.contains(e.to));
            }
            let k = choose|k: nat| k < 2 + fresh_states(regex) && n == #[trigger] state_name(k);
        }
        lemma_set_name_is_identifier(set);
    }
}

} // verus!
