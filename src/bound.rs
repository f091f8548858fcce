use vstd::prelude::*;
use vstd::set_lib::{lemma_len_subset, lemma_map_size};

verus! {

pub open spec fn two_pow(n: nat) -> nat
    decreases n,
{
    if n == 0 {
        1
    } else {
        2 * two_pow((n - 1) as nat)
    }
}

/// A finite family of subsets of a finite set `u` has at most `2^|u|` members.
pub proof fn lemma_subset_family_bound<A>(u: Set<A>, f: Set<Set<A>>)
    requires
        u.finite(),
        f.finite(),
        forall|s: Set<A>| #[trigger] f.contains(s) ==> s.subset_of(u),
    ensures
        f.len() <= two_pow(u.len()),
    decreases u.len(),
{
    broadcast use vstd::set::group_set_axioms, vstd::set_lib::group_set_properties;

    if u.len() == 0 {
        assert(u =~= Set::<A>::empty());
        let single = Set::<Set<A>>::empty().insert(Set::<A>::empty());
        assert forall|s: Set<A>| f.contains(s) implies single.contains(s) by {
            assert(s =~= Set::<A>::empty());
        }
        lemma_len_subset(f, single);
    } else {
        let x = u.choose();
        let u2 = u.remove(x);
        let f1 = f.filter(|s: Set<A>| !s.contains(x));
        let f2 = f.filter(|s: Set<A>| s.contains(x));
        f.lemma_len_filter(|s: Set<A>| !s.contains(x));
        f.lemma_len_filter(|s: Set<A>| s.contains(x));
        assert forall|s: Set<A>| #[trigger] f1.contains(s) implies s.subset_of(u2) by {}
        lemma_subset_family_bound(u2, f1);
        let g = |s: Set<A>| s.remove(x);
        let f2m = f2.map(g);
        assert forall|s1: Set<A>, s2: Set<A>| f2.contains(s1) && f2.contains(s2) && #[trigger] g(s1) == #[trigger] g(s2) implies s1 == s2 by {
            assert(s1 =~= g(s1).insert(x));
            assert(s2 =~= g(s2).insert(x));
        }
        assert(vstd::relations::injective_on(g, f2));
        lemma_map_size(f2, f2m, g);
        assert forall|s: Set<A>| #[trigger] f2m.contains(s) implies s.subset_of(u2) by {
            let t = choose|t: Set<A>| f2.contains(t) && g(t) == s;
        }
        lemma_subset_family_bound(u2, f2m);
        assert(f =~= f1 + f2);
        assert(f1.disjoint(f2));
    }
}

} // verus!
