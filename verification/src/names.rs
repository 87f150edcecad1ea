//! When the names of sets of states tell the sets apart.

use vstd::prelude::*;
use vstd::set_lib::lemma_set_subset_finite;
use crate::encoding::{encode, join_names, sorted_listing};
use crate::model::Automaton;
use crate::state::{
    name_lt, state_name, strictly_sorted, lemma_name_lt_total, lemma_name_lt_transitive,
};
use crate::subset::{over, subset_state, unambiguous};
use crate::text::{decimal, lemma_decimal};
use crate::transition::Edge;

verus! {

/// A plain name is not empty and holds no comma.
pub open spec fn plain(name: Seq<char>) -> bool {
    name.len() > 0 && forall|i: int| 0 <= i < name.len() ==> name[i] != ','
}

/// Every name of the listing is plain.
pub open spec fn all_plain(names: Seq<Seq<char>>) -> bool {
    forall|i: int| 0 <= i < names.len() ==> plain(#[trigger] names[i])
}

/// The automatic names are plain.
pub proof fn lemma_state_name_plain(k: nat)
    ensures
        plain(state_name(k)),
{
    lemma_decimal(k);
    assert forall|i: int| 0 <= i < state_name(k).len() implies state_name(k)[i] != ',' by {
        if i > 0 {
            assert(state_name(k)[i] == decimal(k)[i - 1]);
        }
    }
}

/// Several names joined hold a comma, after the join of all but the last,
/// before a space and the last.
proof fn lemma_join_shape(names: Seq<Seq<char>>)
    requires
        names.len() >= 2,
    ensures
        ({
            let head = join_names(names.drop_last());
            let whole = join_names(names);
            &&& whole.len() == head.len() + 2 + names.last().len()
            &&& whole[head.len() as int] == ','
            &&& whole[head.len() as int + 1] == ' '
            &&& whole.subrange(0, head.len() as int) == head
            &&& whole.subrange(head.len() as int + 2, whole.len() as int) == names.last()
        }),
{
    let head = join_names(names.drop_last());
    let whole = join_names(names);
    assert(whole == head + seq![',', ' '] + names.last());
    assert(whole.subrange(0, head.len() as int) =~= head);
    assert(whole.subrange(head.len() as int + 2, whole.len() as int) =~= names.last());
}

/// Plain names joined are empty only if there is none.
proof fn lemma_join_nonempty(names: Seq<Seq<char>>)
    requires
        all_plain(names),
        names.len() >= 1,
    ensures
        join_names(names).len() >= 1,
{
    if names.len() == 1 {
        assert(plain(names[0]));
    } else {
        lemma_join_shape(names);
    }
}

/// Listings of plain names that give the same text when joined are the
/// same listing.
pub proof fn lemma_join_injective(x: Seq<Seq<char>>, y: Seq<Seq<char>>)
    requires
        all_plain(x),
        all_plain(y),
        join_names(x) == join_names(y),
    ensures
        x == y,
    decreases x.len(),
{
    let text = join_names(x);
    if x.len() == 0 {
        if y.len() > 0 {
            lemma_join_nonempty(y);
        }
        assert(x =~= y);
    } else if y.len() == 0 {
        lemma_join_nonempty(x);
    } else if x.len() == 1 && y.len() == 1 {
        assert(x =~= y);
    } else if x.len() == 1 {
        lemma_join_shape(y);
        assert(plain(x[0]));
    } else if y.len() == 1 {
        lemma_join_shape(x);
        assert(plain(y[0]));
    } else {
        lemma_join_shape(x);
        lemma_join_shape(y);
        let xl = x.last();
        let yl = y.last();
        let xh = join_names(x.drop_last());
        let yh = join_names(y.drop_last());
        assert(plain(x[x.len() - 1]));
        assert(plain(y[y.len() - 1]));
        if xl.len() < yl.len() {
            // The comma before the last name of `x` would lie in the last
            // name of `y`, or on the space before it.
            let p = xh.len() as int;
            if p >= yh.len() + 2 {
                assert(text.subrange(yh.len() as int + 2, text.len() as int)[p - (yh.len() + 2)] == text[p]);
            }
        } else if yl.len() < xl.len() {
            let p = yh.len() as int;
            if p >= xh.len() + 2 {
                assert(text.subrange(xh.len() as int + 2, text.len() as int)[p - (xh.len() + 2)] == text[p]);
            }
        } else {
            assert forall|i: int| 0 <= i < x.drop_last().len() implies plain(
                #[trigger] x.drop_last()[i],
            ) by {
                assert(plain(x[i]));
            }
            assert forall|i: int| 0 <= i < y.drop_last().len() implies plain(
                #[trigger] y.drop_last()[i],
            ) by {
                assert(plain(y[i]));
            }
            lemma_join_injective(x.drop_last(), y.drop_last());
            assert(x =~= x.drop_last().push(xl));
            assert(y =~= y.drop_last().push(yl));
        }
    }
}

/// The listing with `name` put at its place.
pub open spec fn sorted_insert(listing: Seq<Seq<char>>, name: Seq<char>) -> Seq<Seq<char>>
    decreases listing.len(),
{
    if listing.len() == 0 {
        seq![name]
    } else if name_lt(listing.last(), name) {
        listing.push(name)
    } else {
        sorted_insert(listing.drop_last(), name).push(listing.last())
    }
}

/// Putting a new name at its place in a strictly sorted listing gives a
/// strictly sorted listing of the names with the new one.
proof fn lemma_sorted_insert(listing: Seq<Seq<char>>, name: Seq<char>)
    requires
        strictly_sorted(listing),
        !listing.contains(name),
    ensures
        strictly_sorted(sorted_insert(listing, name)),
        sorted_insert(listing, name).to_set() == listing.to_set().insert(name),
        sorted_insert(listing, name).len() == listing.len() + 1,
        listing.len() > 0 && !name_lt(listing.last(), name) ==> sorted_insert(listing, name).last()
            == listing.last(),
    decreases listing.len(),
{
    let out = sorted_insert(listing, name);
    if listing.len() == 0 {
        assert(out[0] == name);
        assert(out.contains(name));
        assert(listing.to_set() =~= Set::<Seq<char>>::empty());
        assert(out.to_set() =~= listing.to_set().insert(name));
    } else if name_lt(listing.last(), name) {
        assert forall|i: int, j: int| 0 <= i < j < out.len() implies name_lt(out[i], out[j]) by {
            if j == listing.len() {
                if i < listing.len() - 1 {
                    assert(name_lt(listing[i], listing[listing.len() - 1]));
                    lemma_name_lt_transitive(listing[i], listing.last(), name);
                }
            } else {
                assert(name_lt(listing[i], listing[j]));
            }
        }
        listing.lemma_push_to_set_commute(name);
    } else {
        let rest = listing.drop_last();
        let last = listing.last();
        assert forall|i: int, j: int| 0 <= i < j < rest.len() implies name_lt(rest[i], rest[j]) by {
            assert(name_lt(listing[i], listing[j]));
        }
        assert(!rest.contains(name)) by {
            if rest.contains(name) {
                let i = choose|i: int| 0 <= i < rest.len() && rest[i] == name;
                assert(listing[i] == name);
            }
        }
        lemma_sorted_insert(rest, name);
        let inner = sorted_insert(rest, name);
        assert(listing[listing.len() - 1] == last);
        lemma_name_lt_total(last, name);
        assert(name_lt(name, last));
        assert forall|i: int| 0 <= i < inner.len() implies name_lt(#[trigger] inner[i], last) by {
            assert(inner.to_set().contains(inner[i]));
            if inner[i] != name {
                assert(rest.to_set().contains(inner[i]));
                let k = choose|k: int| 0 <= k < rest.len() && rest[k] == inner[i];
                assert(name_lt(listing[k], listing[listing.len() - 1]));
            }
        }
        assert forall|i: int, j: int| 0 <= i < j < out.len() implies name_lt(out[i], out[j]) by {
            if j < inner.len() {
                assert(name_lt(inner[i], inner[j]));
            }
        }
        inner.lemma_push_to_set_commute(last);
        assert(listing =~= rest.push(last));
        rest.lemma_push_to_set_commute(last);
        assert(out.to_set() =~= listing.to_set().insert(name));
    }
}

/// Every finite set of names has a strictly sorted listing.
pub proof fn lemma_sorted_listing_exists(set: Set<Seq<char>>)
    requires
        set.finite(),
    ensures
        strictly_sorted(sorted_listing(set)),
        sorted_listing(set).to_set() == set,
    decreases set.len(),
{
    if set.len() == 0 {
        let none = Seq::<Seq<char>>::empty();
        assert(set =~= Set::<Seq<char>>::empty());
        assert(none.to_set() =~= set);
        assert(strictly_sorted(none) && none.to_set() == set);
    } else {
        let name = set.choose();
        let rest = set.remove(name);
        lemma_sorted_listing_exists(rest);
        let listing = sorted_listing(rest);
        assert(!listing.contains(name)) by {
            if listing.contains(name) {
                assert(listing.to_set().contains(name));
            }
        }
        lemma_sorted_insert(listing, name);
        let whole = sorted_insert(listing, name);
        assert(rest.insert(name) =~= set);
        assert(strictly_sorted(whole) && whole.to_set() == set);
    }
}

/// Finite sets of plain names that have the same name are the same set.
pub proof fn lemma_encode_injective(s: Set<Seq<char>>, t: Set<Seq<char>>)
    requires
        s.finite(),
        t.finite(),
        forall|n: Seq<char>| s.contains(n) ==> plain(n),
        forall|n: Seq<char>| t.contains(n) ==> plain(n),
        encode(s) == encode(t),
    ensures
        s == t,
{
    lemma_sorted_listing_exists(s);
    lemma_sorted_listing_exists(t);
    let x = sorted_listing(s);
    let y = sorted_listing(t);
    assert forall|i: int| 0 <= i < x.len() implies plain(#[trigger] x[i]) by {
        assert(x.to_set().contains(x[i]));
    }
    assert forall|i: int| 0 <= i < y.len() implies plain(#[trigger] y[i]) by {
        assert(y.to_set().contains(y[i]));
    }
    let jx = join_names(x);
    let jy = join_names(y);
    assert(encode(s).subrange(1, 1 + jx.len() as int) =~= jx);
    assert(encode(t).subrange(1, 1 + jy.len() as int) =~= jy);
    assert(encode(s).len() == jx.len() + 2);
    assert(encode(t).len() == jy.len() + 2);
    lemma_join_injective(x, y);
}

/// Where the states and the ends of the transitions have plain names,
/// different sets that the automaton may be in have different names.
pub proof fn lemma_plain_names_unambiguous(a: Automaton)
    requires
        a.states.finite(),
        a.edges.finite(),
        forall|n: Seq<char>| #[trigger] a.base().contains(n) ==> plain(n),
    ensures
        unambiguous(a),
{
    a.edges.lemma_map_finite(|e: Edge| e.to);
    assert forall|s: Set<Seq<char>>, t: Set<Seq<char>>|
        #![trigger subset_state(a, s), subset_state(a, t)]
        subset_state(a, s) && subset_state(a, t) && encode(s) == encode(t) implies s == t by {
        let ws = choose|word: Seq<char>|
            over(word, a.alphabet()) && s == #[trigger] a.run(a.start(), word);
        let wt = choose|word: Seq<char>|
            over(word, a.alphabet()) && t == #[trigger] a.run(a.start(), word);
        a.lemma_run_within(ws);
        a.lemma_run_within(wt);
        lemma_set_subset_finite(a.base(), s);
        lemma_set_subset_finite(a.base(), t);
        assert forall|n: Seq<char>| s.contains(n) implies plain(n) by {
            assert(a.base().contains(n));
        }
        assert forall|n: Seq<char>| t.contains(n) implies plain(n) by {
            assert(a.base().contains(n));
        }
        lemma_encode_injective(s, t);
    }
}

} // verus!
