//! The subsets of a finite set are finitely many.

use vstd::prelude::*;
use vstd::set_lib::lemma_set_union_finite_iff;

verus! {

/// The set of the subsets of `base`.
pub open spec fn subsets_of<A>(base: Set<A>) -> Set<Set<A>> {
    Set::new(|s: Set<A>| s.subset_of(base))
}

/// A finite set has finitely many subsets.
pub proof fn lemma_subsets_finite<A>(base: Set<A>)
    requires
        base.finite(),
    ensures
        subsets_of(base).finite(),
    decreases base.len(),
{
    if base.len() == 0 {
        assert(base =~= Set::<A>::empty());
        assert forall|s: Set<A>| subsets_of(base).contains(s) implies s == Set::<A>::empty() by {
            assert(s =~= Set::<A>::empty());
        }
        assert(subsets_of(base) =~= set![Set::<A>::empty()]);
    } else {
        let x = base.choose();
        let rest = base.remove(x);
        lemma_subsets_finite(rest);
        let without = subsets_of(rest);
        let with = without.map(|s: Set<A>| s.insert(x));
        without.lemma_map_finite(|s: Set<A>| s.insert(x));
        assert forall|s: Set<A>| subsets_of(base).contains(s) <==> without.union(with).contains(s) by {
            if subsets_of(base).contains(s) {
                if s.contains(x) {
                    let smaller = s.remove(x);
                    assert(smaller.subset_of(rest));
                    assert(without.contains(smaller));
                    assert(smaller.insert(x) =~= s);
                    assert(with.contains(s));
                } else {
                    assert(s.subset_of(rest));
                }
            }
            if with.contains(s) {
                let smaller = choose|smaller: Set<A>| without.contains(smaller) && smaller.insert(x) == s;
                assert(s.subset_of(base));
            }
        }
        assert(subsets_of(base) =~= without.union(with));
        lemma_set_union_finite_iff(without, with);
    }
}

} // verus!
