use finite_automata::export::{edge_label, node_id, node_label, node_name};
use finite_automata::export::{escape_default, nfae_dot, nfae_table, style};
use finite_automata::nfae::NFAe;
use finite_automata::regex::{parse, parse_group, RegularExpression, Token};
use finite_automata::state::State;
use finite_automata::subset::nfae_to_dfae;
use finite_automata::symbol::Symbol;
use finite_automata::thompson::regex_to_nfae;
use finite_automata::transition::Transition;

fn nfa(text: &str) -> NFAe {
    regex_to_nfae(&parse(&text.to_string()))
}

#[test]
fn dot_of_single_symbol() {
    let expected = "digraph nfae {\n    q0[label=\"q0\"][color=blue]\n    q1[label=\"q1\"][peripheries=2]\n    q0 -> q1[label=\"a\"]\n}\n";
    assert_eq!(nfae_dot(&nfa("a"), false), expected);
}

#[test]
fn dot_without_labels() {
    let expected =
        "digraph nfae {\n    q0[color=blue]\n    q1[peripheries=2]\n    q0 -> q1[label=\"a\"]\n}\n";
    assert_eq!(nfae_dot(&nfa("a"), true), expected);
}

#[test]
fn dot_numbers_nodes_by_name_order() {
    let d = nfae_to_dfae(&nfa("a"));
    let text = nfae_dot(&d, false);
    let expected = "digraph nfae {\n    q0[label=\"{q0}\"][color=blue]\n    q1[label=\"{q1}\"][peripheries=2]\n    q2[label=\"{}\"]\n    q0 -> q1[label=\"a\"]\n    q1 -> q2[label=\"a\"]\n    q2 -> q2[label=\"a\"]\n}\n";
    assert_eq!(text, expected);
}

#[test]
fn dot_of_epsilon_transition_and_initial_accepting_state() {
    let mut n = NFAe::new();
    let only = n.add_state(State("s".to_string()), true);
    n.add_transition(&only, &only, Symbol::Epsilon);
    let d = nfae_to_dfae(&n);
    assert!(d.get_states().is_empty());
    let e = nfa("");
    let text = nfae_dot(&e, true);
    assert_eq!(
        text,
        "digraph nfae {\n    q0[color=blue]\n    q1[peripheries=2]\n    q0 -> q1[label=\"ε\"]\n}\n"
    );
    let both = nfae_to_dfae(&nfa("a*"));
    assert!(nfae_dot(&both, true).contains("    q0[color=blue][peripheries=2]\n"));
}

#[test]
fn dot_of_empty_automaton() {
    assert_eq!(nfae_dot(&NFAe::new(), false), "digraph nfae {\n}\n");
}

#[test]
fn table_is_empty() {
    assert_eq!(nfae_table(&nfa("ab")), "");
}

#[test]
fn style_marks_initial_and_accepting() {
    assert_eq!(style(true, true), "[color=blue][peripheries=2]");
    assert_eq!(style(true, false), "[color=blue]");
    assert_eq!(style(false, true), "[peripheries=2]");
    assert_eq!(style(false, false), "");
}

#[test]
fn escaping_agrees_with_the_standard_library() {
    let samples = [
        "",
        "q0",
        "{q0, q1}",
        "tab\there",
        "line\nbreak\r",
        "quote\"s and 'single'",
        "back\\slash",
        "é ε δ ⊇",
        "\u{0}\u{7f}\u{80}\u{10ffff}\u{1f}~ ",
        "\u{d7ff}\u{e000}",
    ];
    for s in samples {
        let expected: String = s.chars().flat_map(|c| c.escape_default()).collect();
        assert_eq!(escape_default(s), expected);
    }
}

#[test]
fn escaping_exact_values() {
    assert_eq!(escape_default("a\tb"), "a\\tb");
    assert_eq!(escape_default("\"x\""), "\\\"x\\\"");
    assert_eq!(escape_default("ε"), "\\u{3b5}");
    assert_eq!(escape_default("\u{0}"), "\\u{0}");
}

#[test]
fn state_is_written_between_angle_brackets() {
    assert_eq!(State("q7".to_string()).display(), "<q7>");
}

#[test]
fn symbol_is_written_as_its_character() {
    assert_eq!(Symbol::Symbol('x').display(), "x");
    assert_eq!(Symbol::Epsilon.display(), "ε");
    assert_eq!(Symbol::Epsilon.to_char(), 'ε');
    assert_eq!(Symbol::Symbol('x').to_char(), 'x');
}

#[test]
fn transition_is_written_with_both_ends() {
    let t = Transition {
        from: State("q0".to_string()),
        to: State("q1".to_string()),
        when: Symbol::Symbol('a'),
    };
    assert_eq!(t.display(), "δ(<q0>,a) ⊇ {<q1>}");
    let e = Transition {
        from: State("q0".to_string()),
        to: State("q1".to_string()),
        when: Symbol::Epsilon,
    };
    assert_eq!(e.display(), "δ(<q0>,ε) ⊇ {<q1>}");
}

#[test]
fn regular_expression_is_written_with_visible_operators() {
    assert_eq!(RegularExpression::Epsilon.display(), "ε");
    assert_eq!(parse(&"a".to_string()).display(), "a");
    assert_eq!(parse(&"ab".to_string()).display(), "[a].[b]");
    assert_eq!(parse(&"a+b".to_string()).display(), "[a]+[b]");
    assert_eq!(parse(&"a*".to_string()).display(), "<a>");
    assert_eq!(parse(&"(ab)+c*".to_string()).display(), "[([a].[b])]+[<c>]");
}

#[test]
fn tokens_are_written_with_commas() {
    let chars: Vec<char> = "a(bc)d".chars().collect();
    let mut at = 0;
    let g = parse_group(&chars, &mut at);
    assert_eq!(g.display(), "(a,(b,c),d)");
    assert_eq!(Token::Symbol('z').display(), "z");
    let empty: Vec<char> = Vec::new();
    let mut zero = 0;
    assert_eq!(parse_group(&empty, &mut zero).display(), "()");
}

#[test]
fn automaton_description() {
    assert_eq!(
        nfa("a").display(),
        "[epsilon-NFA]\nq = {q0, q1}\nq0 = q0\nF = {q1}\nd(q0, a) = q1"
    );
    assert_eq!(NFAe::new().display(), "[epsilon-NFA]\nq = {}\nq0 = None\nF = {}");
    assert_eq!(
        nfa("").display(),
        "[epsilon-NFA]\nq = {q0, q1}\nq0 = q0\nF = {q1}\nd(q0, ε) = q1"
    );
}

#[test]
fn node_names_are_made_of_state_names() {
    assert_eq!(node_name("q0"), "q0");
    assert_eq!(node_name("{q0, q1}"), "q0_q1");
    assert_eq!(node_name("{}"), "empty");
    assert_eq!(node_name("{{}}"), "empty");
    assert_eq!(node_name("{ }"), "");
    assert_eq!(node_name("a{}b,c d"), "aemptyb_cd");
    assert_eq!(node_name("{"), "");
}

#[test]
fn node_ids_are_identifiers() {
    assert_eq!(node_id("{q0, q1}").unwrap().as_str(), "q0_q1");
    assert_eq!(node_id("{}").unwrap().as_str(), "empty");
    assert_eq!(node_id("_x9").unwrap().as_str(), "_x9");
    assert!(node_id("").is_none());
    assert!(node_id("{ }").is_none());
    assert!(node_id("9q").is_none());
    assert!(node_id("a-b").is_none());
    assert!(node_id("é").is_none());
}

#[test]
fn node_labels_mark_initial_and_accepting_states() {
    let n = nfa("a");
    assert_eq!(node_label(&n, &State("q0".to_string())), ">>q0");
    assert_eq!(node_label(&n, &State("q1".to_string())), "(q1)");
    assert_eq!(node_label(&n, &State("other".to_string())), "other");
    let d = nfae_to_dfae(&nfa("a*"));
    assert_eq!(node_label(&d, &State("{q0, q1, q2}".to_string())), ">>({q0, q1, q2})");
}

#[test]
fn edge_labels_name_the_symbol() {
    assert_eq!(edge_label(Symbol::Epsilon), "eps");
    assert_eq!(edge_label(Symbol::Symbol('a')), "a");
}

#[test]
fn conversions_between_states_and_strings() {
    let s: State = State::from("q3".to_string());
    assert_eq!(s, State("q3".to_string()));
    let back: String = String::from(s);
    assert_eq!(back, "q3");
    assert_eq!(char::from(Symbol::Epsilon), 'ε');
    assert_eq!(char::from(Symbol::Symbol('k')), 'k');
    assert_eq!(State::numbered(0), State("q0".to_string()));
    assert_eq!(State::numbered(4294967295), State("q4294967295".to_string()));
    assert_eq!(State::numbered(1203), State("q1203".to_string()));
}
