//! The words that a regular expression denotes.

use vstd::prelude::*;
use crate::regex::RegularExpression;

verus! {

/// `word` is one of the words that `regex` denotes.
pub open spec fn denotes(regex: RegularExpression, word: Seq<char>) -> bool
    decreases regex, word.len(),
{
    match regex {
        RegularExpression::Epsilon => word.len() == 0,
        RegularExpression::Symbol(c) => word == seq![c],
        RegularExpression::Group(a) => denotes(*a, word),
        RegularExpression::Union(a, b) => denotes(*a, word) || denotes(*b, word),
        RegularExpression::Concat(a, b) => exists|k: int|
            #![trigger word.take(k)]
            0 <= k <= word.len() && denotes(*a, word.take(k)) && denotes(*b, word.skip(k)),
        RegularExpression::Closure(a) => word.len() == 0 || exists|k: int|
            #![trigger word.take(k)]
            1 <= k <= word.len() && denotes(*a, word.take(k)) && denotes(regex, word.skip(k)),
    }
}

/// A word of an expression followed by a word of its closure is a word of
/// its closure.
pub proof fn lemma_closure_more(a: RegularExpression, first: Seq<char>, rest: Seq<char>)
    requires
        denotes(a, first),
        denotes(RegularExpression::Closure(Box::new(a)), rest),
    ensures
        denotes(RegularExpression::Closure(Box::new(a)), first + rest),
{
    let word = first + rest;
    if first.len() == 0 {
        assert(word =~= rest);
    } else {
        let k = first.len() as int;
        assert(word.take(k) =~= first);
        assert(word.skip(k) =~= rest);
        let star = RegularExpression::Closure(Box::new(a));
        assert(1 <= k <= word.len() && denotes(a, word.take(k)) && denotes(star, word.skip(k)));
    }
}

/// A word of an expression is a word of its closure.
pub proof fn lemma_closure_once(a: RegularExpression, word: Seq<char>)
    requires
        denotes(a, word),
    ensures
        denotes(RegularExpression::Closure(Box::new(a)), word),
{
    assert(denotes(RegularExpression::Closure(Box::new(a)), Seq::<char>::empty()));
    lemma_closure_more(a, word, Seq::empty());
    assert(word + Seq::<char>::empty() =~= word);
}

/// A word of one expression followed by a word of another is a word of
/// their concatenation.
pub proof fn lemma_concat_both(
    a: RegularExpression,
    b: RegularExpression,
    first: Seq<char>,
    second: Seq<char>,
)
    requires
        denotes(a, first),
        denotes(b, second),
    ensures
        denotes(RegularExpression::Concat(Box::new(a), Box::new(b)), first + second),
{
    let word = first + second;
    let k = first.len() as int;
    assert(word.take(k) =~= first);
    assert(word.skip(k) =~= second);
    assert(0 <= k <= word.len() && denotes(a, word.take(k)) && denotes(b, word.skip(k)));
}

} // verus!

