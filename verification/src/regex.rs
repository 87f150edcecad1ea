//! Regular expressions and their parser.
//!
//! The language has literal characters, grouping with `(` and `)`, union
//! with `+`, Kleene closure with `*`, and concatenation by juxtaposition.
//! Every text parses: parentheses that do not match are tolerated.

use vstd::prelude::*;
use crate::text::chars_of;

verus! {

/// A regular expression.
#[derive(Debug, PartialEq, Eq)]
pub enum RegularExpression {
    /// The empty word.
    Epsilon,
    /// One occurrence of a character.
    Symbol(char),
    /// A parenthesized expression; it denotes what the inner one denotes.
    Group(Box<RegularExpression>),
    /// Either of two expressions.
    Union(Box<RegularExpression>, Box<RegularExpression>),
    /// One expression, then the other.
    Concat(Box<RegularExpression>, Box<RegularExpression>),
    /// Any number of repetitions of an expression.
    Closure(Box<RegularExpression>),
}

/// A token as a mathematical tree: a character, or the tokens between a pair
/// of parentheses.
pub enum Tok {
    Symbol(char),
    Group(Seq<Tok>),
}

/// A token: a character, or a parenthesized group of tokens.
#[derive(Debug, PartialEq, Eq)]
pub enum Token {
    Symbol(char),
    Group(TokenGroup),
}

/// The tokens of one nesting level.
#[derive(Debug, PartialEq, Eq)]
pub struct TokenGroup(pub Vec<Token>);

impl Token {
    /// The token as a mathematical tree.
    pub open spec fn view(self) -> Tok
        decreases self,
    {
        match self {
            Token::Symbol(c) => Tok::Symbol(c),
            Token::Group(g) => Tok::Group(g.view()),
        }
    }
}

impl TokenGroup {
    /// The tokens of the group as mathematical trees.
    pub open spec fn view(self) -> Seq<Tok>
        decreases self,
    {
        Seq::new(
            self.0@.len(),
            |i: int|
                if 0 <= i < self.0@.len() {
                    self.0@[i].view()
                } else {
                    Tok::Symbol(' ')
                },
        )
    }
}

/// The tokens of a listing, as mathematical trees.
pub open spec fn toks(tokens: Seq<Token>) -> Seq<Tok> {
    Seq::new(tokens.len(), |i: int| tokens[i].view())
}

/// The trees of a listing with one more token are the trees of the listing
/// with one more tree.
pub proof fn lemma_toks_push(tokens: Seq<Token>, token: Token)
    ensures
        toks(tokens.push(token)) == toks(tokens).push(token@),
{
    assert(toks(tokens.push(token)) =~= toks(tokens).push(token@));
}

impl Clone for Token {
    fn clone(&self) -> (copy: Token)
        ensures
            copy@ == self@,
        decreases *self,
    {
        match self {
            Token::Symbol(c) => Token::Symbol(*c),
            Token::Group(g) => Token::Group(g.clone()),
        }
    }
}

impl Clone for TokenGroup {
    fn clone(&self) -> (copy: TokenGroup)
        ensures
            copy@ == self@,
        decreases *self,
    {
        let mut items: Vec<Token> = Vec::new();
        let mut i: usize = 0;
        while i < self.0.len()
            invariant
                i <= self.0@.len(),
                items@.len() == i,
                forall|k: int| 0 <= k < i ==> items@[k]@ == self.0@[k]@,
            decreases self.0@.len() - i,
        {
            items.push(self.0[i].clone());
            i += 1;
        }
        let copy = TokenGroup(items);
        proof {
            assert(copy@ =~= self@);
        }
        copy
    }
}

/// The tokens of the group that starts at `at`, and the place after it: the
/// group ends with the `)` that closes it, which is passed over, or with the
/// text.
pub open spec fn group_at(text: Seq<char>, at: nat) -> (Seq<Tok>, nat)
    decreases text.len() - at,
{
    if at >= text.len() {
        (Seq::empty(), at)
    } else if text[at as int] == ')' {
        (Seq::empty(), at + 1)
    } else if text[at as int] == '(' {
        let inner = group_at(text, at + 1);
        // A group ends after the place where it starts, so the guard always
        // holds; it is what makes this definition terminate.
        if at < inner.1 <= text.len() {
            let rest = group_at(text, inner.1);
            (seq![Tok::Group(inner.0)] + rest.0, rest.1)
        } else {
            (seq![Tok::Group(inner.0)], inner.1)
        }
    } else {
        let rest = group_at(text, at + 1);
        (seq![Tok::Symbol(text[at as int])] + rest.0, rest.1)
    }
}

/// A group ends at or after the place where it starts, and within the text
/// if it starts there.
pub proof fn lemma_group_advances(text: Seq<char>, at: nat)
    ensures
        group_at(text, at).1 >= at,
        at < text.len() ==> at < group_at(text, at).1 <= text.len(),
    decreases text.len() - at,
{
    if at >= text.len() {
    } else if text[at as int] == ')' {
    } else if text[at as int] == '(' {
        lemma_group_advances(text, at + 1);
        lemma_group_advances(text, group_at(text, at + 1).1);
    } else {
        lemma_group_advances(text, at + 1);
    }
}

/// A token with the groups inside it flattened.
pub open spec fn flatten_token(token: Tok) -> Tok
    decreases token,
{
    match token {
        Tok::Symbol(c) => Tok::Symbol(c),
        Tok::Group(g) => Tok::Group(flatten(g)),
    }
}

/// The tokens with every group flattened whose only member is a group: such
/// a group is replaced by what its member holds.
pub open spec fn flatten(tokens: Seq<Tok>) -> Seq<Tok>
    decreases tokens,
{
    let inner = Seq::new(
        tokens.len(),
        |i: int|
            if 0 <= i < tokens.len() {
                flatten_token(tokens[i])
            } else {
                Tok::Symbol(' ')
            },
    );
    if inner.len() == 1 {
        match inner[0] {
            Tok::Group(g) => g,
            Tok::Symbol(_) => inner,
        }
    } else {
        inner
    }
}

/// The closure operator applied to what was read last: the right operand of
/// a union or concatenation, else the whole expression.
pub open spec fn star(exp: RegularExpression) -> RegularExpression {
    match exp {
        RegularExpression::Union(left, right) => RegularExpression::Union(
            left,
            Box::new(RegularExpression::Closure(right)),
        ),
        RegularExpression::Concat(left, right) => RegularExpression::Concat(
            left,
            Box::new(RegularExpression::Closure(right)),
        ),
        _ => RegularExpression::Closure(Box::new(exp)),
    }
}

/// `next` read after `exp`: their concatenation, or `next` alone where
/// nothing was read before it.
pub open spec fn attach(exp: RegularExpression, next: RegularExpression) -> RegularExpression {
    match exp {
        RegularExpression::Epsilon => next,
        _ => RegularExpression::Concat(Box::new(exp), Box::new(next)),
    }
}

/// The expression for the tokens from `at` on, read after `exp`.
///
/// `+` makes the union of what was read and all the rest of the tokens; `*`
/// applies the closure to what was read last; any other character and any
/// group are concatenated to what was read.
pub open spec fn build_from(tokens: Seq<Tok>, at: nat, exp: RegularExpression) -> RegularExpression
    decreases tokens, tokens.len() - at,
{
    if at >= tokens.len() {
        exp
    } else {
        match tokens[at as int] {
            Tok::Symbol(c) => if c == '+' {
                RegularExpression::Union(
                    Box::new(exp),
                    Box::new(build_from(tokens, at + 1, RegularExpression::Epsilon)),
                )
            } else if c == '*' {
                build_from(tokens, at + 1, star(exp))
            } else {
                build_from(tokens, at + 1, attach(exp, RegularExpression::Symbol(c)))
            },
            Tok::Group(g) => build_from(
                tokens,
                at + 1,
                attach(
                    exp,
                    RegularExpression::Group(Box::new(build_from(g, 0, RegularExpression::Epsilon))),
                ),
            ),
        }
    }
}

/// The expression that a text is parsed to: its tokens are grouped, groups
/// with a group as their only member are flattened, and the expression is
/// built from what is left.
pub open spec fn parse_spec(text: Seq<char>) -> RegularExpression {
    build_from(flatten(group_at(text, 0).0), 0, RegularExpression::Epsilon)
}

/// The character at place `i` of `text`.
fn char_at(text: &Vec<char>, i: usize) -> (c: char)
    requires
        i < text@.len(),
    ensures
        c == text@[i as int],
{
    text[i]
}

/// The tokens of the groups of a stack, as mathematical trees.
spec fn frames(outer: Seq<Vec<Token>>) -> Seq<Seq<Tok>> {
    Seq::new(outer.len(), |i: int| toks(outer[i]@))
}

/// The tokens of the outermost group of `outer`, and the place after it,
/// when `items` are the tokens read so far of the innermost group, each
/// group of `outer` holds the tokens read so far of a group around it, and
/// the text is read on from `at`.
spec fn finish(outer: Seq<Seq<Tok>>, items: Seq<Tok>, text: Seq<char>, at: nat) -> (Seq<Tok>, nat)
    decreases outer.len(),
{
    let rest = group_at(text, at);
    let done = items + rest.0;
    if outer.len() == 0 {
        (done, rest.1)
    } else {
        finish(outer.drop_last(), outer.last().push(Tok::Group(done)), text, rest.1)
    }
}

/// One more member at the end of a listing is the first of what follows.
proof fn lemma_push_then<A>(a: Seq<A>, x: A, b: Seq<A>)
    ensures
        a + (seq![x] + b) == a.push(x) + b,
{
    assert(a + (seq![x] + b) =~= a.push(x) + b);
}

/// Reading a character that is no parenthesis adds it to the innermost
/// group.
proof fn lemma_finish_symbol(
    outer: Seq<Seq<Tok>>,
    items: Seq<Tok>,
    text: Seq<char>,
    at: nat,
    c: char,
)
    requires
        at < text.len(),
        text[at as int] == c,
        c != '(',
        c != ')',
    ensures
        finish(outer, items, text, at) == finish(outer, items.push(Tok::Symbol(c)), text, at + 1),
{
    let then = (at + 1) as nat;
    let rest = group_at(text, then);
    let symbol = Tok::Symbol(c);
    lemma_push_then(items, symbol, rest.0);
    assert(group_at(text, at).0 == seq![symbol] + rest.0);
    lemma_finish_same(outer, items, items.push(symbol), text, at, then);
}

/// What is finished depends on the tokens of the innermost group with those
/// that follow, and on the place where the group ends.
proof fn lemma_finish_same(
    outer: Seq<Seq<Tok>>,
    first: Seq<Tok>,
    second: Seq<Tok>,
    text: Seq<char>,
    at: nat,
    then: nat,
)
    requires
        first + group_at(text, at).0 == second + group_at(text, then).0,
        group_at(text, at).1 == group_at(text, then).1,
    ensures
        finish(outer, first, text, at) == finish(outer, second, text, then),
{
}

/// Reading `(` opens a group inside the innermost one.
proof fn lemma_finish_open(outer: Seq<Seq<Tok>>, items: Seq<Tok>, text: Seq<char>, at: nat)
    requires
        at < text.len(),
        text[at as int] == '(',
    ensures
        finish(outer, items, text, at) == finish(outer.push(items), Seq::empty(), text, at + 1),
{
    reveal_with_fuel(finish, 3);
    lemma_group_advances(text, at + 1);
    let inner = group_at(text, at + 1);
    let rest = group_at(text, inner.1);
    let group = Tok::Group(inner.0);
    assert(Seq::<Tok>::empty() + inner.0 =~= inner.0);
    assert(outer.push(items).drop_last() =~= outer);
    assert(group_at(text, at).0 =~= seq![group] + rest.0);
    assert(group_at(text, at).1 == rest.1);
    lemma_push_then(items, group, rest.0);
}

/// Reading `)`, or coming to the end of the text, closes the innermost
/// group: it is the outermost one, or one more token of the group around it.
proof fn lemma_finish_close(outer: Seq<Seq<Tok>>, items: Seq<Tok>, text: Seq<char>, at: nat)
    requires
        at >= text.len() || text[at as int] == ')',
    ensures
        ({
            let next = if at >= text.len() {
                at
            } else {
                at + 1
            };
            finish(outer, items, text, at) == (if outer.len() == 0 {
                (items, next)
            } else {
                finish(outer.drop_last(), outer.last().push(Tok::Group(items)), text, next)
            })
        }),
{
    assert(items + group_at(text, at).0 =~= items);
}

/// Reads the group that starts at `*at`, up to and including the `)` that
/// closes it or up to the end of the text, and leaves `*at` after it. The
/// groups that are open are kept on a stack, so that the depth of the
/// nesting costs no call depth.
pub fn parse_group(text: &Vec<char>, at: &mut usize) -> (tokens: TokenGroup)
    requires
        *old(at) <= text@.len(),
    ensures
        tokens@ == group_at(text@, *old(at) as nat).0,
        *final(at) == group_at(text@, *old(at) as nat).1,
        *old(at) <= *final(at) <= text@.len(),
{
    let mut outer: Vec<Vec<Token>> = Vec::new();
    let mut items: Vec<Token> = Vec::new();
    let ghost start = *at as nat;
    proof {
        lemma_group_advances(text@, start);
        assert(toks(items@) + group_at(text@, start).0 =~= group_at(text@, start).0);
    }
    loop
        invariant
            start == *old(at),
            start <= text@.len(),
            *at <= text@.len(),
            group_at(text@, start).1 <= text@.len(),
            start <= group_at(text@, start).1,
            finish(frames(outer@), toks(items@), text@, *at as nat) == group_at(text@, start),
        decreases text@.len() - *at, outer@.len(),
    {
        let ghost before = frames(outer@);
        let ghost here = *at as nat;
        // The end of the text closes a group as `)` does, but is not passed
        // over.
        let ends = *at >= text.len();
        let c = if ends {
            ')'
        } else {
            char_at(text, *at)
        };
        if !ends {
            *at += 1;
        }
        if c == ')' {
            proof {
                lemma_finish_close(before, toks(items@), text@, here);
            }
            match outer.pop() {
                None => {
                    let tokens = TokenGroup(items);
                    proof {
                        assert(tokens@ =~= toks(items@));
                    }
                    return tokens;
                },
                Some(parent) => {
                    let mut parent = parent;
                    let ghost around = parent@;
                    let inner = TokenGroup(items);
                    proof {
                        assert(inner@ =~= toks(items@));
                        assert(frames(outer@) =~= before.drop_last());
                        assert(before.last() == toks(around));
                    }
                    parent.push(Token::Group(inner));
                    proof {
                        lemma_toks_push(around, parent@.last());
                    }
                    items = parent;
                },
            }
        } else if c == '(' {
            proof {
                lemma_finish_open(before, toks(items@), text@, here);
            }
            let ghost opened = items@;
            outer.push(items);
            items = Vec::new();
            proof {
                assert(frames(outer@) =~= before.push(toks(opened)));
                assert(toks(items@) =~= Seq::<Tok>::empty());
            }
        } else {
            proof {
                lemma_finish_symbol(before, toks(items@), text@, here, c);
            }
            let ghost sofar = items@;
            items.push(Token::Symbol(c));
            proof {
                lemma_toks_push(sofar, items@.last());
            }
        }
    }
}

/// The tokens, unless there is one alone and it is a group: then what that
/// group holds.
pub open spec fn collapse(inner: Seq<Tok>) -> Seq<Tok> {
    if inner.len() == 1 {
        match inner[0] {
            Tok::Group(g) => g,
            Tok::Symbol(_) => inner,
        }
    } else {
        inner
    }
}

/// The tokens from `at` on, each with the groups inside it flattened.
pub open spec fn flat_from(tokens: Seq<Tok>, at: nat) -> Seq<Tok>
    decreases tokens.len() - at,
{
    if at >= tokens.len() {
        Seq::empty()
    } else {
        seq![flatten_token(tokens[at as int])] + flat_from(tokens, at + 1)
    }
}

/// The tokens from `at` on, flattened, are the flattened tokens one by one.
proof fn lemma_flat_from(tokens: Seq<Tok>, at: nat)
    requires
        at <= tokens.len(),
    ensures
        flat_from(tokens, at).len() == tokens.len() - at,
        forall|k: int|
            0 <= k < tokens.len() - at ==> (#[trigger] flat_from(tokens, at)[k]) == flatten_token(
                tokens[at + k],
            ),
    decreases tokens.len() - at,
{
    if at < tokens.len() {
        lemma_flat_from(tokens, at + 1);
        let rest = flat_from(tokens, at + 1);
        assert forall|k: int| 0 <= k < tokens.len() - at implies (#[trigger] flat_from(
            tokens,
            at,
        )[k]) == flatten_token(tokens[at + k]) by {
            if k > 0 {
                assert(flat_from(tokens, at)[k] == rest[k - 1]);
            }
        }
    }
}

/// Flattening a group is flattening its tokens one by one and then, if what
/// is left is one group alone, taking what it holds.
proof fn lemma_flatten(tokens: Seq<Tok>)
    ensures
        flatten(tokens) == collapse(flat_from(tokens, 0)),
{
    lemma_flat_from(tokens, 0);
    let inner = Seq::new(
        tokens.len(),
        |i: int|
            if 0 <= i < tokens.len() {
                flatten_token(tokens[i])
            } else {
                Tok::Symbol(' ')
            },
    );
    assert(inner =~= flat_from(tokens, 0));
}

/// A group that waits while a group inside it is flattened: its tokens, the
/// place to go on from, and the flattened tokens before that place.
struct Visit<'a> {
    group: &'a TokenGroup,
    at: usize,
    out: Vec<Token>,
}

/// A group that waits, as mathematical values.
pub struct Pause {
    pub tokens: Seq<Tok>,
    pub at: nat,
    pub out: Seq<Tok>,
}

/// The groups of a stack, as mathematical values.
spec fn pauses(outer: Seq<Visit>) -> Seq<Pause> {
    Seq::new(
        outer.len(),
        |i: int|
            Pause {
                tokens: (*outer[i].group).view(),
                at: outer[i].at as nat,
                out: toks(outer[i].out@),
            },
    )
}

/// What the outermost group comes to when the group that is flattened
/// comes to `value`: each group that waits goes on with it as its next
/// token.
pub open spec fn resume_flat(outer: Seq<Pause>, value: Seq<Tok>) -> Seq<Tok>
    decreases outer.len(),
{
    if outer.len() == 0 {
        value
    } else {
        let group = outer.last();
        resume_flat(
            outer.drop_last(),
            collapse(group.out.push(Tok::Group(value)) + flat_from(group.tokens, group.at)),
        )
    }
}

/// The steps that are left for the groups that wait.
pub open spec fn steps_paused(outer: Seq<Pause>) -> nat
    decreases outer.len(),
{
    if outer.len() == 0 {
        0
    } else {
        steps_paused(outer.drop_last()) + steps(outer.last().tokens, outer.last().at)
    }
}

/// With one more group that waits, that group goes on first.
proof fn lemma_resume_flat_push(outer: Seq<Pause>, group: Pause, value: Seq<Tok>)
    ensures
        resume_flat(outer.push(group), value) == resume_flat(
            outer,
            collapse(group.out.push(Tok::Group(value)) + flat_from(group.tokens, group.at)),
        ),
        steps_paused(outer.push(group)) == steps_paused(outer) + steps(group.tokens, group.at),
{
    assert(outer.push(group).drop_last() =~= outer);
}

/// The tokens, unless there is one alone and it is a group: then what that
/// group holds.
fn collapse_items(out: Vec<Token>) -> (done: Vec<Token>)
    ensures
        toks(done@) == collapse(toks(out@)),
{
    if out.len() == 1 {
        let mut out = out;
        let ghost before = out@;
        match out.pop().unwrap() {
            Token::Group(g) => {
                proof {
                    assert(toks(before)[0] == Tok::Group(g@));
                    assert(toks(g.0@) =~= g@);
                }
                g.0
            },
            Token::Symbol(c) => {
                out.push(Token::Symbol(c));
                proof {
                    assert(toks(before)[0] == Tok::Symbol(c));
                    assert(toks(out@) =~= toks(before));
                }
                out
            },
        }
    } else {
        out
    }
}

/// The group with every group flattened whose only member is a group. The
/// groups around the one that is flattened are kept on a stack, so that the
/// depth of the nesting costs no call depth.
pub fn optimize_group(group: &TokenGroup) -> (flat: TokenGroup)
    ensures
        flat@ == flatten(group@),
{
    let mut outer: Vec<Visit> = Vec::new();
    let mut current: &TokenGroup = group;
    let mut i: usize = 0;
    let mut out: Vec<Token> = Vec::new();
    proof {
        lemma_flatten(group@);
        assert(toks(out@) + flat_from(group@, 0) =~= flat_from(group@, 0));
    }
    loop
        invariant
            i <= current@.len(),
            current@.len() == current.0@.len(),
            forall|k: int| 0 <= k < outer@.len() ==> (#[trigger] pauses(outer@)[k]).at <= pauses(
                outer@,
            )[k].tokens.len(),
            resume_flat(pauses(outer@), collapse(toks(out@) + flat_from(current@, i as nat)))
                == flatten(group@),
        decreases steps_paused(pauses(outer@)) + steps(current@, i as nat),
    {
        let ghost waiting = pauses(outer@);
        let ghost sofar = out@;
        if i < current.0.len() {
            match &current.0[i] {
                Token::Symbol(c) => {
                    proof {
                        assert(current@[i as int] == Tok::Symbol(*c));
                        lemma_push_then(
                            toks(sofar),
                            Tok::Symbol(*c),
                            flat_from(current@, (i + 1) as nat),
                        );
                    }
                    out.push(Token::Symbol(*c));
                    proof {
                        lemma_toks_push(sofar, out@.last());
                    }
                    i += 1;
                },
                Token::Group(g) => {
                    proof {
                        assert(current@[i as int] == Tok::Group(g@));
                        lemma_flatten(g@);
                        lemma_push_then(
                            toks(sofar),
                            Tok::Group(flatten(g@)),
                            flat_from(current@, (i + 1) as nat),
                        );
                        lemma_resume_flat_push(
                            waiting,
                            Pause { tokens: current@, at: (i + 1) as nat, out: toks(sofar) },
                            flatten(g@),
                        );
                    }
                    outer.push(Visit { group: current, at: i + 1, out });
                    proof {
                        assert(pauses(outer@) =~= waiting.push(
                            Pause { tokens: current@, at: (i + 1) as nat, out: toks(sofar) },
                        ));
                    }
                    current = g;
                    i = 0;
                    out = Vec::new();
                    proof {
                        assert(toks(out@) + flat_from(g@, 0) =~= flat_from(g@, 0));
                    }
                },
            }
        } else {
            proof {
                assert(toks(sofar) + flat_from(current@, i as nat) =~= toks(sofar));
            }
            let done = collapse_items(out);
            match outer.pop() {
                None => {
                    let flat = TokenGroup(done);
                    proof {
                        assert(waiting =~= Seq::<Pause>::empty());
                        assert(flat@ =~= toks(done@));
                    }
                    return flat;
                },
                Some(visit) => {
                    let ghost kept = visit.out@;
                    proof {
                        assert(pauses(outer@) =~= waiting.drop_last());
                        assert(waiting.last() == Pause {
                            tokens: (*visit.group).view(),
                            at: visit.at as nat,
                            out: toks(kept),
                        });
                    }
                    let inner = TokenGroup(done);
                    proof {
                        assert(inner@ =~= toks(done@));
                    }
                    let mut items = visit.out;
                    items.push(Token::Group(inner));
                    proof {
                        lemma_toks_push(kept, items@.last());
                    }
                    current = visit.group;
                    i = visit.at;
                    out = items;
                },
            }
        }
    }
}

/// The closure applied to what was read last.
fn apply_star(exp: RegularExpression) -> (starred: RegularExpression)
    ensures
        starred == star(exp),
{
    match exp {
        RegularExpression::Union(left, right) => RegularExpression::Union(
            left,
            Box::new(RegularExpression::Closure(right)),
        ),
        RegularExpression::Concat(left, right) => RegularExpression::Concat(
            left,
            Box::new(RegularExpression::Closure(right)),
        ),
        other => RegularExpression::Closure(Box::new(other)),
    }
}

/// `next` read after `exp`.
fn apply_attach(exp: RegularExpression, next: RegularExpression) -> (joined: RegularExpression)
    ensures
        joined == attach(exp, next),
{
    match exp {
        RegularExpression::Epsilon => next,
        other => RegularExpression::Concat(Box::new(other), Box::new(next)),
    }
}

/// A level of tokens that waits while a group inside it is read: its
/// tokens, the place to go on from, the left operands of the unions that
/// are open, and the expression read since the last of them.
struct Level<'a> {
    tokens: &'a TokenGroup,
    at: usize,
    lefts: Vec<RegularExpression>,
    exp: RegularExpression,
}

/// A level that waits, as mathematical values.
pub struct Halt {
    pub tokens: Seq<Tok>,
    pub at: nat,
    pub lefts: Seq<RegularExpression>,
    pub exp: RegularExpression,
}

/// The levels of a stack, as mathematical values.
spec fn halts(outer: Seq<Level>) -> Seq<Halt> {
    Seq::new(
        outer.len(),
        |i: int|
            Halt {
                tokens: (*outer[i].tokens).view(),
                at: outer[i].at as nat,
                lefts: outer[i].lefts@,
                exp: outer[i].exp,
            },
    )
}

/// The unions that are open, closed around `exp`: each left operand takes
/// all that follows it as its right operand.
pub open spec fn unions(lefts: Seq<RegularExpression>, exp: RegularExpression) -> RegularExpression
    decreases lefts.len(),
{
    if lefts.len() == 0 {
        exp
    } else {
        unions(lefts.drop_last(), RegularExpression::Union(Box::new(lefts.last()), Box::new(exp)))
    }
}

/// What a level comes to: the expression for its tokens from `at` on, read
/// after `exp`, inside the unions that are open.
pub open spec fn level_value(
    tokens: Seq<Tok>,
    at: nat,
    lefts: Seq<RegularExpression>,
    exp: RegularExpression,
) -> RegularExpression {
    unions(lefts, build_from(tokens, at, exp))
}

/// What the outermost level comes to when the group that is read comes to
/// `value`: each level that waits goes on with the group attached.
pub open spec fn resume(outer: Seq<Halt>, value: RegularExpression) -> RegularExpression
    decreases outer.len(),
{
    if outer.len() == 0 {
        value
    } else {
        let level = outer.last();
        resume(
            outer.drop_last(),
            level_value(
                level.tokens,
                level.at,
                level.lefts,
                attach(level.exp, RegularExpression::Group(Box::new(value))),
            ),
        )
    }
}

/// The steps that are left for the tokens from `at` on: one for each token,
/// those for the tokens inside each group, and one to end the level.
pub open spec fn steps(tokens: Seq<Tok>, at: nat) -> nat
    decreases tokens, tokens.len() - at,
{
    if at >= tokens.len() {
        1
    } else {
        1 + (match tokens[at as int] {
            Tok::Symbol(_) => 0,
            Tok::Group(g) => steps(g, 0),
        }) + steps(tokens, at + 1)
    }
}

/// The steps that are left for the levels that wait.
pub open spec fn steps_waiting(outer: Seq<Halt>) -> nat
    decreases outer.len(),
{
    if outer.len() == 0 {
        0
    } else {
        steps_waiting(outer.drop_last()) + steps(outer.last().tokens, outer.last().at)
    }
}

/// A union that is opened takes what follows as its right operand.
proof fn lemma_unions_push(
    lefts: Seq<RegularExpression>,
    left: RegularExpression,
    exp: RegularExpression,
)
    ensures
        unions(lefts.push(left), exp) == unions(
            lefts,
            RegularExpression::Union(Box::new(left), Box::new(exp)),
        ),
{
    assert(lefts.push(left).drop_last() =~= lefts);
}

/// With one more level that waits, that level goes on first.
proof fn lemma_resume_push(outer: Seq<Halt>, level: Halt, value: RegularExpression)
    ensures
        resume(outer.push(level), value) == resume(
            outer,
            level_value(
                level.tokens,
                level.at,
                level.lefts,
                attach(level.exp, RegularExpression::Group(Box::new(value))),
            ),
        ),
        steps_waiting(outer.push(level)) == steps_waiting(outer) + steps(level.tokens, level.at),
{
    assert(outer.push(level).drop_last() =~= outer);
}

/// The expression for the tokens from `at` on. The levels around the group
/// that is read are kept on a stack, so that the depth of the nesting costs
/// no call depth.
pub fn build_expression(tokens: &TokenGroup, at: usize) -> (exp: RegularExpression)
    requires
        at <= tokens@.len(),
    ensures
        exp == build_from(tokens@, at as nat, RegularExpression::Epsilon),
{
    let ghost goal = build_from(tokens@, at as nat, RegularExpression::Epsilon);
    let mut outer: Vec<Level> = Vec::new();
    let mut current: &TokenGroup = tokens;
    let mut i: usize = at;
    let mut lefts: Vec<RegularExpression> = Vec::new();
    let mut exp = RegularExpression::Epsilon;
    loop
        invariant
            i <= current@.len(),
            current@.len() == current.0@.len(),
            goal == build_from(tokens@, at as nat, RegularExpression::Epsilon),
            forall|k: int| 0 <= k < outer@.len() ==> (#[trigger] halts(outer@)[k]).at <= halts(
                outer@,
            )[k].tokens.len(),
            resume(halts(outer@), level_value(current@, i as nat, lefts@, exp)) == goal,
        decreases steps_waiting(halts(outer@)) + steps(current@, i as nat),
    {
        let ghost waiting = halts(outer@);
        if i < current.0.len() {
            match &current.0[i] {
                Token::Symbol(c) => {
                    proof {
                        assert(current@[i as int] == Tok::Symbol(*c));
                    }
                    if *c == '+' {
                        proof {
                            lemma_unions_push(
                                lefts@,
                                exp,
                                build_from(current@, (i + 1) as nat, RegularExpression::Epsilon),
                            );
                        }
                        lefts.push(exp);
                        exp = RegularExpression::Epsilon;
                    } else if *c == '*' {
                        exp = apply_star(exp);
                    } else {
                        exp = apply_attach(exp, RegularExpression::Symbol(*c));
                    }
                    i += 1;
                },
                Token::Group(g) => {
                    proof {
                        assert(current@[i as int] == Tok::Group(g@));
                        let level = Halt {
                            tokens: current@,
                            at: (i + 1) as nat,
                            lefts: lefts@,
                            exp,
                        };
                        lemma_resume_push(
                            waiting,
                            level,
                            build_from(g@, 0, RegularExpression::Epsilon),
                        );
                    }
                    let ghost kept = lefts@;
                    let ghost read = exp;
                    outer.push(Level { tokens: current, at: i + 1, lefts, exp });
                    proof {
                        assert(halts(outer@) =~= waiting.push(
                            Halt { tokens: current@, at: (i + 1) as nat, lefts: kept, exp: read },
                        ));
                    }
                    current = g;
                    i = 0;
                    lefts = Vec::new();
                    exp = RegularExpression::Epsilon;
                },
            }
        } else {
            while lefts.len() > 0
                invariant
                    i >= current@.len(),
                    resume(halts(outer@), level_value(current@, i as nat, lefts@, exp)) == goal,
                    halts(outer@) == waiting,
                    outer@.len() == waiting.len(),
                decreases lefts@.len(),
            {
                let ghost before = lefts@;
                let left = lefts.pop().unwrap();
                proof {
                    assert(lefts@ =~= before.drop_last());
                }
                exp = RegularExpression::Union(Box::new(left), Box::new(exp));
            }
            match outer.pop() {
                None => {
                    proof {
                        assert(waiting =~= Seq::<Halt>::empty());
                    }
                    return exp;
                },
                Some(level) => {
                    proof {
                        assert(halts(outer@) =~= waiting.drop_last());
                        assert(waiting.last() == Halt {
                            tokens: (*level.tokens).view(),
                            at: level.at as nat,
                            lefts: level.lefts@,
                            exp: level.exp,
                        });
                    }
                    current = level.tokens;
                    i = level.at;
                    lefts = level.lefts;
                    exp = apply_attach(level.exp, RegularExpression::Group(Box::new(exp)));
                },
            }
        }
    }
}

/// Parses a regular expression. Every text has a parse.
pub fn parse(input: &String) -> (exp: RegularExpression)
    ensures
        exp == parse_spec(input@),
{
    let text = chars_of(input.as_str());
    let mut at: usize = 0;
    let tokens = parse_group(&text, &mut at);
    let flat = optimize_group(&tokens);
    build_expression(&flat, 0)
}

} // verus!


