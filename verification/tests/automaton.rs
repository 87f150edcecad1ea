use finite_automata::encoding::encode_set;
use finite_automata::nfae::NFAe;
use finite_automata::regex::{parse, RegularExpression};
use finite_automata::state::State;
use finite_automata::state_set::StateSet;
use finite_automata::subset::nfae_to_dfae;
use finite_automata::symbol::Symbol;
use finite_automata::thompson::count_fresh_states;
use finite_automata::thompson::{regex_to_nfae, regex_to_nfae_inner};

fn nfa(text: &str) -> NFAe {
    regex_to_nfae(&parse(&text.to_string()))
}

fn dfa(text: &str) -> NFAe {
    nfae_to_dfae(&nfa(text))
}

fn st(name: &str) -> State {
    State(name.to_string())
}

fn check(text: &str, accepted: &[&str], rejected: &[&str]) {
    let n = nfa(text);
    let d = nfae_to_dfae(&n);
    for w in accepted {
        assert!(n.accepts(w), "nfa of {:?} should accept {:?}", text, w);
        assert!(d.accepts(w), "dfa of {:?} should accept {:?}", text, w);
    }
    for w in rejected {
        assert!(!n.accepts(w), "nfa of {:?} should reject {:?}", text, w);
        assert!(!d.accepts(w), "dfa of {:?} should reject {:?}", text, w);
    }
}

#[test]
fn literal_accepts_only_itself() {
    for c in ['a', 'z', '0', ' ', 'é', '{', ','] {
        let text = c.to_string();
        let n = nfa(&text);
        assert!(n.accepts(&text));
        assert!(!n.accepts(""));
        for other in ['b', 'y', '1', 'c'] {
            assert!(!n.accepts(&other.to_string()));
        }
    }
}

#[test]
fn empty_regex_accepts_only_empty_word() {
    check("", &[""], &["a", "b", "aa"]);
}

#[test]
fn concatenation_accepts_exactly_ab() {
    check("ab", &["ab"], &["a", "b", "ba", "", "abb", "aab"]);
}

#[test]
fn union_accepts_either_operand() {
    check("a+b", &["a", "b"], &["ab", "", "ba", "aa"]);
}

#[test]
fn closure_accepts_repetitions() {
    check("a*", &["", "a", "aa", "aaa", "aaaa", "aaaaa"], &["b", "ab", "ba"]);
}

#[test]
fn union_of_groups() {
    check("(ab)+(cd)", &["ab", "cd"], &["abcd", "a", "", "abc", "cdab"]);
}

#[test]
fn thompson_states_are_numbered_in_order() {
    let n = nfa("a+b");
    let names: Vec<String> = n.get_states().to_vec().into_iter().map(|s| s.0).collect();
    assert_eq!(names, vec!["q0", "q1", "q2", "q3", "q4", "q5"]);
    assert!(n.is_initial(&st("q0")));
    assert!(!n.is_initial(&st("q1")));
    assert!(n.is_final(&st("q1")));
    assert!(!n.is_final(&st("q0")));
    assert_eq!(n.alphabet(), vec!['a', 'b']);
    assert_eq!(n.get_transitions().len(), 6);
}

#[test]
fn thompson_concat_allocates_one_middle_state() {
    let n = nfa("ab");
    assert_eq!(n.get_states().len(), 3);
    let ts = n.get_transitions();
    assert_eq!(ts.len(), 2);
    assert_eq!(ts[0].from, st("q0"));
    assert_eq!(ts[0].to, st("q2"));
    assert_eq!(ts[0].when, Symbol::Symbol('a'));
    assert_eq!(ts[1].from, st("q2"));
    assert_eq!(ts[1].to, st("q1"));
    assert_eq!(ts[1].when, Symbol::Symbol('b'));
}

#[test]
fn thompson_closure_has_four_epsilon_transitions() {
    let n = nfa("a*");
    assert_eq!(n.get_states().len(), 4);
    let ts = n.get_transitions();
    assert_eq!(ts.len(), 5);
    let eps = ts.iter().filter(|t| t.when == Symbol::Epsilon).count();
    assert_eq!(eps, 4);
}

#[test]
fn closure_of_initial_state_follows_epsilon_transitions() {
    let n = nfa("a*");
    let c = n.closure(st("q0"));
    let names: Vec<String> = c.to_vec().into_iter().map(|s| s.0).collect();
    assert_eq!(names, vec!["q0", "q1", "q2"]);
}

#[test]
fn closure_of_unknown_state_is_empty() {
    let n = nfa("a*");
    assert!(n.closure(st("nowhere")).is_empty());
}

#[test]
fn closure_is_idempotent() {
    for text in ["a*", "(a+b)*c", "a+b", "((a)*)*", ""] {
        let n = nfa(text);
        for s in n.get_states().to_vec() {
            let once = n.closure(s.clone());
            let twice = n.closure_of(&once);
            assert_eq!(once.to_vec(), twice.to_vec());
        }
    }
}

#[test]
fn dfa_has_one_transition_per_state_and_symbol() {
    for text in ["ab", "a+b", "a*", "(ab)+(cd)", "(a+b)*abb", ""] {
        let n = nfa(text);
        let d = nfae_to_dfae(&n);
        let alphabet = n.alphabet();
        let ts = d.get_transitions();
        for s in d.get_states().to_vec() {
            for c in &alphabet {
                let out = ts.iter().filter(|t| t.from == s && t.when == Symbol::Symbol(*c)).count();
                assert_eq!(out, 1, "{:?} from {:?} on {:?}", text, s, c);
            }
        }
        assert_eq!(ts.len(), d.get_states().len() * alphabet.len());
        assert!(ts.iter().all(|t| t.when != Symbol::Epsilon));
    }
}

#[test]
fn dfa_states_are_named_after_their_sets() {
    let d = dfa("ab");
    let names: Vec<String> = d.get_states().to_vec().into_iter().map(|s| s.0).collect();
    assert_eq!(names, vec!["{q0}", "{q1}", "{q2}", "{}"]);
    assert!(d.is_initial(&st("{q0}")));
    assert!(d.is_final(&st("{q1}")));
    assert!(!d.is_final(&st("{q0}")));
    assert!(!d.is_final(&st("{}")));
}

#[test]
fn dfa_initial_state_is_closure_of_initial() {
    let d = dfa("a*");
    assert!(d.is_initial(&st("{q0, q1, q2}")));
    assert!(d.is_final(&st("{q0, q1, q2}")));
}

#[test]
fn dfa_of_automaton_without_initial_state_is_empty() {
    let mut n = NFAe::new();
    n.add_state(st("x"), true);
    let d = nfae_to_dfae(&n);
    assert!(d.get_states().is_empty());
    assert!(d.get_transitions().is_empty());
    assert!(!d.accepts(""));
}

fn words(alphabet: &[char], max: usize) -> Vec<String> {
    let mut all = vec![String::new()];
    let mut last = vec![String::new()];
    for _ in 0..max {
        let mut next = Vec::new();
        for w in &last {
            for c in alphabet {
                let mut longer = w.clone();
                longer.push(*c);
                next.push(longer);
            }
        }
        all.extend(next.iter().cloned());
        last = next;
    }
    all
}

#[test]
fn dfa_accepts_what_nfa_accepts() {
    for text in ["ab", "a+b", "a*", "(ab)+(cd)", "(a+b)*abb", "a*b*", "(a*b)*", "", "ab*+c"] {
        let n = nfa(text);
        let d = nfae_to_dfae(&n);
        for w in words(&['a', 'b', 'c', 'd'], 5) {
            assert_eq!(n.accepts(&w), d.accepts(&w), "{:?} on {:?}", text, w);
        }
    }
}

#[test]
fn automatic_names_skip_taken_names() {
    let mut n = NFAe::new();
    n.add_state(st("q0"), false);
    n.add_state(st("q1"), false);
    n.add_state(st("q3"), false);
    assert_eq!(n.add_state_auto(false), st("q2"));
    assert_eq!(n.add_state_auto(true), st("q4"));
    assert!(n.is_final(&st("q4")));
    assert_eq!(n.get_states().len(), 5);
}

#[test]
fn adding_a_state_again_keeps_one_copy() {
    let mut n = NFAe::new();
    assert_eq!(n.add_state(st("a"), false), st("a"));
    n.add_state(st("a"), true);
    assert_eq!(n.get_states().len(), 1);
    assert!(n.is_final(&st("a")));
}

#[test]
fn transitions_are_a_set() {
    let mut n = NFAe::new();
    let a = n.add_state(st("a"), false);
    let b = n.add_state(st("b"), true);
    n.add_transition(&a, &b, Symbol::Symbol('x'));
    n.add_transition(&a, &b, Symbol::Symbol('x'));
    n.add_transition(&a, &b, Symbol::Epsilon);
    assert_eq!(n.get_transitions().len(), 2);
    assert_eq!(n.alphabet(), vec!['x']);
}

#[test]
fn states_are_listed_in_name_order() {
    let mut n = NFAe::new();
    for name in ["q2", "q10", "b", "q1", "a", ""] {
        n.add_state(st(name), false);
    }
    let names: Vec<String> = n.get_states().to_vec().into_iter().map(|s| s.0).collect();
    assert_eq!(names, vec!["", "a", "b", "q1", "q10", "q2"]);
}

#[test]
fn fresh_states_are_counted() {
    for (text, count) in [("", 0u32), ("a", 0), ("ab", 1), ("a+b", 4), ("a*", 2), ("(ab)+(cd)", 6), ("(a+b)*abb", 9)] {
        let regex = parse(&text.to_string());
        assert_eq!(count_fresh_states(&regex), Some(count));
        assert_eq!(regex_to_nfae(&regex).get_states().len(), count as usize + 2);
    }
}

#[test]
fn states_precede_by_bytes() {
    assert!(st("q1").precedes(&st("q10")));
    assert!(st("q10").precedes(&st("q2")));
    assert!(!st("q2").precedes(&st("q10")));
    assert!(!st("q2").precedes(&st("q2")));
    assert!(st("").precedes(&st("a")));
    assert!(st("z").precedes(&st("é")));
    assert!(st("q1").same(&st("q1")));
    assert!(!st("q1").same(&st("q2")));
}

#[test]
fn step_moves_then_closes() {
    let n = nfa("a*b");
    let start = n.closure(st("q0"));
    let after_a: Vec<String> = n.step(&start, 'a').to_vec().into_iter().map(|s| s.0).collect();
    let moved: Vec<String> = n.move_on(&start, 'a').to_vec().into_iter().map(|s| s.0).collect();
    assert_eq!(moved.len(), 1);
    assert!(after_a.len() > moved.len());
    assert!(after_a.contains(&moved[0]));
    assert!(n.step(&start, 'z').is_empty());
}

#[test]
fn subset_names_list_members_in_order() {
    let mut set = StateSet::new();
    assert_eq!(encode_set(&set), st("{}"));
    for name in ["q2", "q10", "q1"] {
        set.insert(st(name));
    }
    assert_eq!(encode_set(&set), st("{q1, q10, q2}"));
    assert!(!set.insert(st("q2")));
    assert_eq!(set.len(), 3);
    assert_eq!(set.position(&st("q10")), Some(1));
    assert_eq!(set.position(&st("q3")), None);
    assert_eq!(set.get(2), &st("q2"));
    let mut other = StateSet::new();
    other.insert(st("q7"));
    assert!(!set.intersects(&other));
    other.insert(st("q10"));
    assert!(set.intersects(&other));
}

#[test]
fn dfa_of_larger_automaton_sorts_names_as_text() {
    let n = nfa("(a+b)*abb");
    let d = nfae_to_dfae(&n);
    let names: Vec<String> = d.get_states().to_vec().into_iter().map(|s| s.0).collect();
    let mut sorted = names.clone();
    sorted.sort();
    assert_eq!(names, sorted);
    assert!(names.iter().any(|n| n.contains("q10")));
    assert!(d.accepts("abb"));
    assert!(d.accepts("babb"));
    assert!(!d.accepts("ab"));
}

fn denotes(regex: &RegularExpression, word: &[char]) -> bool {
    match regex {
        RegularExpression::Epsilon => word.is_empty(),
        RegularExpression::Symbol(c) => word.len() == 1 && word[0] == *c,
        RegularExpression::Group(a) => denotes(a, word),
        RegularExpression::Union(a, b) => denotes(a, word) || denotes(b, word),
        RegularExpression::Concat(a, b) => {
            (0..=word.len()).any(|k| denotes(a, &word[..k]) && denotes(b, &word[k..]))
        }
        RegularExpression::Closure(a) => {
            word.is_empty()
                || (1..=word.len()).any(|k| denotes(a, &word[..k]) && denotes(regex, &word[k..]))
        }
    }
}

#[test]
fn automata_accept_what_the_expression_denotes() {
    for text in ["", "a", "ab", "a+b", "a*", "(ab)*", "(a+b)*abb", "a*b*", "(a*)*", "ab*+b", "(a+)b", "a(b+a)*"] {
        let regex = parse(&text.to_string());
        let n = regex_to_nfae(&regex);
        let d = nfae_to_dfae(&n);
        for w in words(&['a', 'b'], 6) {
            let letters: Vec<char> = w.chars().collect();
            let expected = denotes(&regex, &letters);
            assert_eq!(n.accepts(&w), expected, "nfa of {:?} on {:?}", text, w);
            assert_eq!(d.accepts(&w), expected, "dfa of {:?} on {:?}", text, w);
        }
    }
}

#[test]
fn part_is_built_into_hand_named_automaton() {
    let mut n = NFAe::new();
    let start = n.add_state(st("start"), false);
    n.add_state(st("q1"), true);
    let end = n.add_state(st("end"), true);
    n.add_transition(&start, &end, Symbol::Symbol('z'));
    regex_to_nfae_inner(&parse(&"a+b".to_string()), &mut n, &start, &end);
    let names: Vec<String> = n.get_states().to_vec().into_iter().map(|s| s.0).collect();
    assert_eq!(names, vec!["end", "q0", "q1", "q2", "q3", "q4", "start"]);
    assert!(n.is_final(&st("q1")));
    assert!(n.is_final(&st("end")));
    for fresh in ["q0", "q2", "q3", "q4"] {
        assert!(!n.is_final(&st(fresh)));
    }
    let ts = n.get_transitions();
    assert_eq!(ts.len(), 7);
    assert_eq!(ts[0].when, Symbol::Symbol('z'));
    assert!(ts.iter().all(|t| n.has_state(&t.from) && n.has_state(&t.to)));
    assert!(ts.iter().any(|t| t.from == st("q0") && t.to == st("q2") && t.when == Symbol::Symbol('a')));
    assert!(ts.iter().any(|t| t.from == st("q3") && t.to == st("q4") && t.when == Symbol::Symbol('b')));
    assert!(ts.iter().any(|t| t.from == st("q2") && t.to == st("end") && t.when == Symbol::Epsilon));
}

#[test]
fn symbol_part_adds_one_transition_and_no_state() {
    let mut n = NFAe::new();
    let a = n.add_state(st("a"), false);
    let b = n.add_state(st("b"), true);
    regex_to_nfae_inner(&RegularExpression::Symbol('c'), &mut n, &a, &b);
    assert_eq!(n.get_states().len(), 2);
    let ts = n.get_transitions();
    assert_eq!(ts.len(), 1);
    assert_eq!(ts[0].from, a);
    assert_eq!(ts[0].to, b);
    assert_eq!(ts[0].when, Symbol::Symbol('c'));
}

#[test]
fn every_dfa_state_is_reached_from_the_initial_state() {
    let mut hand = NFAe::new();
    let i = hand.add_state(st("i"), false);
    let a = hand.add_state(st("a"), false);
    let b = hand.add_state(st("b"), false);
    let ab = hand.add_state(st("a, b"), true);
    hand.add_transition(&i, &a, Symbol::Symbol('x'));
    hand.add_transition(&i, &b, Symbol::Symbol('x'));
    hand.add_transition(&i, &ab, Symbol::Symbol('y'));
    hand.set_initial(i);
    let mut with_initial = nfa("(a+b)*abb");
    regex_to_nfae_inner(&parse(&"c".to_string()), &mut with_initial, &st("q0"), &st("q1"));
    for n in [nfa("ab"), nfa("a*b+c"), with_initial, hand] {
        let d = nfae_to_dfae(&n);
        let states = d.get_states().to_vec();
        let ts = d.get_transitions();
        let mut seen: Vec<State> = states.iter().filter(|s| d.is_initial(s)).cloned().collect();
        assert_eq!(seen.len(), 1);
        let mut at = 0;
        while at < seen.len() {
            for t in &ts {
                if t.from == seen[at] && !seen.contains(&t.to) {
                    seen.push(t.to.clone());
                }
            }
            at += 1;
        }
        assert_eq!(seen.len(), states.len());
    }
    let mut none = NFAe::new();
    none.add_state(st("alone"), true);
    assert!(nfae_to_dfae(&none).get_states().is_empty());
}

#[test]
fn long_expression_is_built_without_deep_calls() {
    let mut text = String::new();
    for _ in 0..2000 {
        text.push_str("a(b+c)*");
    }
    let regex = parse(&text);
    let count = count_fresh_states(&regex).unwrap();
    let n = regex_to_nfae(&regex);
    assert_eq!(n.get_states().len(), count as usize + 2);
    assert!(n.is_initial(&st("q0")));
    assert!(n.is_final(&st("q1")));
}

fn follow(d: &NFAe, word: &str) -> bool {
    let ts = d.get_transitions();
    let states = d.get_states().to_vec();
    let mut at = match states.iter().find(|s| d.is_initial(s)) {
        Some(first) => first.clone(),
        None => return false,
    };
    for c in word.chars() {
        let from = at.clone();
        let mut next = ts.iter().filter(|t| t.from == from && t.when == Symbol::Symbol(c));
        at = match next.next() {
            Some(t) => t.to.clone(),
            None => return false,
        };
        assert!(next.next().is_none());
    }
    d.is_final(&at)
}

#[test]
fn following_single_transitions_agrees_with_the_automaton() {
    for text in ["ab", "a+b", "a*", "(ab)+(cd)", "(a+b)*abb", "", "a(b+a)*"] {
        let regex = parse(&text.to_string());
        let n = regex_to_nfae(&regex);
        let d = nfae_to_dfae(&n);
        for w in words(&['a', 'b', 'c'], 5) {
            let letters: Vec<char> = w.chars().collect();
            assert_eq!(follow(&d, &w), n.accepts(&w), "{:?} on {:?}", text, w);
            assert_eq!(follow(&d, &w), denotes(&regex, &letters));
        }
    }
}
