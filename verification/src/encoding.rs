//! The name under which a set of states is one state of a deterministic
//! automaton: its members in order, between braces.

use vstd::prelude::*;
use vstd::string::StringExecFns;
use crate::state::{State, strictly_sorted, lemma_strictly_sorted_unique};
use crate::state_set::StateSet;

verus! {

/// The names joined by a comma and a space.
pub open spec fn join_names(names: Seq<Seq<char>>) -> Seq<char>
    decreases names.len(),
{
    if names.len() == 0 {
        Seq::empty()
    } else if names.len() == 1 {
        names[0]
    } else {
        join_names(names.drop_last()) + seq![',', ' '] + names.last()
    }
}

/// The members of a finite set of names in the order of the names, each
/// once.
pub open spec fn sorted_listing(set: Set<Seq<char>>) -> Seq<Seq<char>> {
    choose|listing: Seq<Seq<char>>| strictly_sorted(listing) && listing.to_set() == set
}

/// The name of a set of states: `{}` for the empty set, `{q0, q3}` for the
/// set of `q0` and `q3`. It depends on the members alone.
pub open spec fn encode(set: Set<Seq<char>>) -> Seq<char> {
    seq!['{'] + join_names(sorted_listing(set)) + seq!['}']
}

/// A strictly sorted listing of a set is its sorted listing.
pub proof fn lemma_sorted_listing(listing: Seq<Seq<char>>)
    requires
        strictly_sorted(listing),
    ensures
        sorted_listing(listing.to_set()) == listing,
{
    let chosen = sorted_listing(listing.to_set());
    lemma_strictly_sorted_unique(chosen, listing);
}

/// The name of `set` as a state.
pub fn encode_set(set: &StateSet) -> (name: State)
    requires
        set.wf(),
    ensures
        name@ == encode(set@),
{
    let mut text = String::new();
    text.push('{');
    let n = set.len();
    let mut i: usize = 0;
    proof {
        assert(set.names().take(0) =~= Seq::<Seq<char>>::empty());
    }
    while i < n
        invariant
            i <= n,
            n == set.names().len(),
            text@ == seq!['{'] + join_names(set.names().take(i as int)),
        decreases n - i,
    {
        if i > 0 {
            text.push(',');
            text.push(' ');
        }
        text.append(set.get(i).0.as_str());
        proof {
            let now = set.names().take(i + 1);
            assert(now.drop_last() =~= set.names().take(i as int));
            assert(now.last() == set.names()[i as int]);
            if i > 0 {
                assert(text@ =~= seq!['{'] + join_names(now));
            } else {
                assert(join_names(set.names().take(0)) =~= Seq::<char>::empty());
                assert(text@ =~= seq!['{'] + join_names(now));
            }
        }
        i += 1;
    }
    text.push('}');
    proof {
        set.lemma_listing();
        assert(set.names().take(n as int) =~= set.names());
        lemma_sorted_listing(set.names());
        assert(text@ =~= encode(set@));
    }
    State(text)
}

} // verus!
