use finite_automata::regex::{

    build_expression, optimize_group, parse, parse_group, RegularExpression, Token, TokenGroup,
};

fn sym(c: char) -> Box<RegularExpression> {
    Box::new(RegularExpression::Symbol(c))
}

fn p(text: &str) -> RegularExpression {
    parse(&text.to_string())
}

fn group(text: &str) -> TokenGroup {
    let chars: Vec<char> = text.chars().collect();
    let mut at = 0;
    parse_group(&chars, &mut at)
}

#[test]
fn parses_single_literal() {
    for c in ['c', 'a', 'Z', '7', ' ', 'é', '{'] {
        assert_eq!(p(&c.to_string()), RegularExpression::Symbol(c));
    }
}

#[test]
fn parses_empty_text_as_epsilon() {
    assert_eq!(p(""), RegularExpression::Epsilon);
}

#[test]
fn parses_concatenation_left_associative() {
    let expected = RegularExpression::Concat(
        Box::new(RegularExpression::Concat(sym('a'), sym('b'))),
        sym('c'),
    );
    assert_eq!(p("abc"), expected);
}

#[test]
fn union_takes_all_the_rest_as_right_operand() {
    let expected = RegularExpression::Union(
        sym('a'),
        Box::new(RegularExpression::Concat(sym('b'), sym('c'))),
    );
    assert_eq!(p("a+bc"), expected);
    let nested = RegularExpression::Union(
        sym('a'),
        Box::new(RegularExpression::Union(sym('b'), sym('c'))),
    );
    assert_eq!(p("a+b+c"), nested);
}

#[test]
fn closure_wraps_right_operand_of_concatenation() {
    let expected =
        RegularExpression::Concat(sym('a'), Box::new(RegularExpression::Closure(sym('b'))));
    assert_eq!(p("ab*"), expected);
}

#[test]
fn closure_wraps_single_symbol() {
    assert_eq!(p("a*"), RegularExpression::Closure(sym('a')));
    assert_eq!(
        p("a**"),
        RegularExpression::Closure(Box::new(RegularExpression::Closure(sym('a'))))
    );
}

#[test]
fn closure_after_union_wraps_right_operand() {
    let expected = RegularExpression::Union(
        sym('a'),
        Box::new(RegularExpression::Closure(sym('b'))),
    );
    assert_eq!(p("a+b*"), expected);
}

#[test]
fn leading_operators() {
    assert_eq!(
        p("+"),
        RegularExpression::Union(
            Box::new(RegularExpression::Epsilon),
            Box::new(RegularExpression::Epsilon)
        )
    );
    assert_eq!(
        p("*"),
        RegularExpression::Closure(Box::new(RegularExpression::Epsilon))
    );
}

#[test]
fn group_is_concatenated_like_a_symbol() {
    let ab = RegularExpression::Group(Box::new(RegularExpression::Concat(sym('a'), sym('b'))));
    let cd = RegularExpression::Group(Box::new(RegularExpression::Concat(sym('c'), sym('d'))));
    assert_eq!(p("(ab)+(cd)"), RegularExpression::Union(Box::new(ab), Box::new(cd)));
    let g = RegularExpression::Group(Box::new(RegularExpression::Concat(sym('b'), sym('c'))));
    assert_eq!(p("a(bc)"), RegularExpression::Concat(sym('a'), Box::new(g)));
}

#[test]
fn single_wrapped_group_is_flattened() {
    assert_eq!(p("(a)"), RegularExpression::Symbol('a'));
    assert_eq!(p("((a))"), RegularExpression::Symbol('a'));
    assert_eq!(p("((ab))"), RegularExpression::Concat(sym('a'), sym('b')));
    assert_eq!(p("()"), RegularExpression::Epsilon);
}

#[test]
fn unmatched_open_absorbs_the_rest() {
    assert_eq!(p("(ab"), RegularExpression::Concat(sym('a'), sym('b')));
    let g = RegularExpression::Group(Box::new(RegularExpression::Concat(sym('b'), sym('c'))));
    assert_eq!(p("a(bc"), RegularExpression::Concat(sym('a'), Box::new(g)));
}

#[test]
fn unmatched_close_ends_the_parse() {
    assert_eq!(p("ab)cd"), RegularExpression::Concat(sym('a'), sym('b')));
    assert_eq!(p(")"), RegularExpression::Epsilon);
}

#[test]
fn tokenizer_nests_groups() {
    let g = group("a(b(c))d");
    let expected = TokenGroup(vec![
        Token::Symbol('a'),
        Token::Group(TokenGroup(vec![
            Token::Symbol('b'),
            Token::Group(TokenGroup(vec![Token::Symbol('c')])),
        ])),
        Token::Symbol('d'),
    ]);
    assert_eq!(g, expected);
}

#[test]
fn tokenizer_leaves_cursor_after_closing_parenthesis() {
    let chars: Vec<char> = "ab)cd".chars().collect();
    let mut at = 0;
    let g = parse_group(&chars, &mut at);
    assert_eq!(g, TokenGroup(vec![Token::Symbol('a'), Token::Symbol('b')]));
    assert_eq!(at, 3);
    let rest = parse_group(&chars, &mut at);
    assert_eq!(rest, TokenGroup(vec![Token::Symbol('c'), Token::Symbol('d')]));
    assert_eq!(at, 5);
}

#[test]
fn optimizer_flattens_inner_groups_first() {
    let g = optimize_group(&group("a((b))"));
    let expected = TokenGroup(vec![
        Token::Symbol('a'),
        Token::Group(TokenGroup(vec![Token::Symbol('b')])),
    ]);
    assert_eq!(g, expected);
}

#[test]
fn builder_starts_at_given_token() {
    let g = group("ab+c");
    assert_eq!(build_expression(&g, 3), RegularExpression::Symbol('c'));
    assert_eq!(build_expression(&g, 4), RegularExpression::Epsilon);
    assert_eq!(
        build_expression(&g, 1),
        RegularExpression::Union(sym('b'), sym('c'))
    );
}

#[test]
fn deep_nesting_is_read_level_by_level() {
    let depth = 3000;
    let mut text = String::new();
    for _ in 0..depth {
        text.push('(');
    }
    text.push('a');
    for _ in 0..depth {
        text.push(')');
    }
    assert_eq!(p(&text), RegularExpression::Symbol('a'));
    let mut open = String::new();
    for _ in 0..depth {
        open.push_str("(a");
    }
    let tree = p(&open);
    let mut levels = 0;
    let mut at = &tree;
    loop {
        match at {
            RegularExpression::Concat(left, right) => {
                assert_eq!(**left, RegularExpression::Symbol('a'));
                match &**right {
                    RegularExpression::Group(inner) => at = inner,
                    other => panic!("unexpected {:?}", other),
                }
                levels += 1;
            }
            RegularExpression::Symbol('a') => break,
            other => panic!("unexpected {:?}", other),
        }
    }
    assert_eq!(levels, depth - 1);
}

#[test]
fn unions_nest_to_the_right_in_a_group() {
    let inner = RegularExpression::Union(
        sym('a'),
        Box::new(RegularExpression::Union(sym('b'), sym('c'))),
    );
    let expected = RegularExpression::Concat(
        sym('x'),
        Box::new(RegularExpression::Group(Box::new(inner))),
    );
    assert_eq!(p("x(a+b+c)"), expected);
    let after = RegularExpression::Concat(
        Box::new(RegularExpression::Group(Box::new(RegularExpression::Union(sym('a'), sym('b'))))),
        sym('c'),
    );
    assert_eq!(p("(a+b)c"), after);
}
