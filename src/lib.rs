//! Sorted singly-linked lists: append, indexed reads, and a run-by-run merge
//! of two sorted lists, plus an in-place exchange sort.
use vstd::prelude::*;

use core::cmp::Ordering;
use vstd::laws_cmp::obeys_cmp;
use vstd::laws_cmp::obeys_cmp_ord;
use vstd::laws_cmp::obeys_cmp_partial_ord;
use vstd::laws_cmp::obeys_partial_cmp_spec_properties;
use vstd::laws_eq::obeys_concrete_eq;
use vstd::laws_eq::obeys_eq_spec_properties;
use vstd::std_specs::cmp::OrdSpec;
use vstd::std_specs::cmp::PartialEqSpec;
use vstd::std_specs::cmp::PartialOrdSpec;

pub mod linked_list;
pub mod sort;

verus! {

/// `T`'s comparisons behave as a total order whose equality is identity;
/// this holds of the integer types.
pub open spec fn total_order<T: Ord>() -> bool {
    obeys_cmp::<T>() && obeys_concrete_eq::<T>()
}

/// `x <= y` as `T`'s `PartialOrd` decides it.
pub open spec fn leq<T: Ord>(x: T, y: T) -> bool {
    x.partial_cmp_spec(&y) matches Some(Ordering::Less | Ordering::Equal)
}

/// A sequence is sorted when it is nondecreasing from front to back.
pub open spec fn sorted<T: Ord>(s: Seq<T>) -> bool {
    forall|i: int, j: int| 0 <= i < j < s.len() ==> leq(s[i], s[j])
}

/// Under a total order, `leq` is reflexive, transitive and total, and `>`
/// is the negation of `leq`.
pub proof fn lemma_leq_laws<T: Ord>()
    requires
        total_order::<T>(),
    ensures
        T::obeys_partial_cmp_spec(),
        forall|x: T| #[trigger] leq(x, x),
        forall|x: T, y: T, z: T| #[trigger] leq(x, y) && #[trigger] leq(y, z) ==> leq(x, z),
        forall|x: T, y: T| #![trigger leq(x, y)] #![trigger leq(y, x)] leq(x, y) || leq(y, x),
        forall|x: T, y: T|
            #![trigger x.partial_cmp_spec(&y)]
            (x.partial_cmp_spec(&y) == Some(Ordering::Greater)) <==> !leq(x, y),
{
    reveal(obeys_partial_cmp_spec_properties);
    reveal(obeys_cmp_ord);
    reveal(obeys_cmp_partial_ord);
    reveal(obeys_concrete_eq);
    reveal(obeys_eq_spec_properties);
    assert forall|x: T| #[trigger] leq(x, x) by {
        assert(x.eq_spec(&x));
    }
    assert forall|x: T, y: T, z: T| #[trigger] leq(x, y) && #[trigger] leq(y, z) implies leq(
        x,
        z,
    ) by {
        if x.partial_cmp_spec(&y) == Some(Ordering::Equal) {
            assert(x.eq_spec(&y));
        } else if y.partial_cmp_spec(&z) == Some(Ordering::Equal) {
            assert(y.eq_spec(&z));
        }
    }
    assert forall|x: T, y: T| #![trigger leq(x, y)] #![trigger leq(y, x)] leq(x, y) || leq(y, x) by {
        assert(x.partial_cmp_spec(&y) == Some(x.cmp_spec(&y)));
    }
    assert forall|x: T, y: T|
        #![trigger x.partial_cmp_spec(&y)]
        (x.partial_cmp_spec(&y) == Some(Ordering::Greater)) <==> !leq(x, y) by {
        assert(x.partial_cmp_spec(&y) == Some(x.cmp_spec(&y)));
    }
}

/// Two sorted sequences that hold the same values, each as often, are
/// equal: a sorted arrangement of a multiset of values is unique. With the
/// contract of `LinkedList::merge` this pins its result to the one sorted
/// arrangement of the values of both operands.
pub proof fn lemma_sorted_unique<T: Ord>(s: Seq<T>, t: Seq<T>)
    requires
        total_order::<T>(),
        sorted(s),
        sorted(t),
        s.to_multiset() == t.to_multiset(),
    ensures
        s == t,
    decreases s.len(),
{
    broadcast use vstd::seq_lib::group_to_multiset_ensures;

    vstd::seq_lib::to_multiset_len(s);
    vstd::seq_lib::to_multiset_len(t);
    if s.len() == 0 {
        assert(t.len() == 0);
        assert(s =~= t);
    } else {
        lemma_leq_laws::<T>();
        reveal(obeys_partial_cmp_spec_properties);
        reveal(obeys_cmp_ord);
        reveal(obeys_cmp_partial_ord);
        reveal(obeys_concrete_eq);
        assert(t.len() == s.len());
        assert(t.to_multiset().count(s[0]) > 0);
        assert(t.contains(s[0]));
        let k = choose|k: int| 0 <= k < t.len() && t[k] == s[0];
        assert(leq(t[0], t[k]));
        assert(s.to_multiset().count(t[0]) > 0);
        assert(s.contains(t[0]));
        let m = choose|m: int| 0 <= m < s.len() && s[m] == t[0];
        assert(leq(s[0], s[m]));
        // antisymmetry: both ways at most means equal
        assert(s[0].partial_cmp_spec(&t[0]) == Some(s[0].cmp_spec(&t[0])));
        assert(t[0].partial_cmp_spec(&s[0]) == Some(t[0].cmp_spec(&s[0])));
        assert(s[0].eq_spec(&t[0]));
        vstd::seq_lib::to_multiset_remove(s, 0);
        vstd::seq_lib::to_multiset_remove(t, 0);
        assert(s.remove(0) =~= s.drop_first());
        assert(t.remove(0) =~= t.drop_first());
        lemma_sorted_unique(s.drop_first(), t.drop_first());
        assert(s[0] == t[0]);
        assert forall|i: int| 0 < i < s.len() implies s[i] == t[i] by {
            assert(s[i] == s.drop_first()[i - 1]);
            assert(t[i] == t.drop_first()[i - 1]);
        }
        assert(s =~= t);
    }
}

} // verus!
