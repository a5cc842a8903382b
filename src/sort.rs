use vstd::prelude::*;

use crate::leq;
use crate::lemma_leq_laws;
use crate::sorted;
use crate::total_order;
use vstd::std_specs::cmp::PartialOrdSpec;

verus! {

/// Exchanging two entries of a sequence keeps its multiset of values.
proof fn lemma_swap_keeps_multiset<T>(s: Seq<T>, i: int, j: int)
    requires
        0 <= i < s.len(),
        0 <= j < s.len(),
    ensures
        s.update(i, s[j]).update(j, s[i]).to_multiset() == s.to_multiset(),
{
    broadcast use vstd::seq_lib::group_to_multiset_ensures;
    broadcast use vstd::multiset::group_multiset_axioms;

    let s1 = s.update(i, s[j]);
    assert(s1.to_multiset() == s.to_multiset().insert(s[j]).remove(s[i]));
    assert(s1.update(j, s[i]).to_multiset() == s1.to_multiset().insert(s[i]).remove(s1[j]));
    assert(s1.update(j, s[i]).to_multiset() =~= s.to_multiset());
}

/// Sorts `array` in place by exchanging out-of-order neighbours and walking
/// each misplaced value back until it sits after a smaller-or-equal one.
/// Arrays of length 0 or 1 are left as they are.
pub fn sort<T: Ord + Copy>(array: &mut [T])
    requires
        total_order::<T>(),
    ensures
        sorted(final(array)@),
        final(array)@.to_multiset() == old(array)@.to_multiset(),
{
    broadcast use vstd::seq_lib::group_to_multiset_ensures;

    let n: usize = array.len();
    if n == 0 {
        return;
    }
    let mut checked: usize = 1;
    while checked < n
        invariant
            total_order::<T>(),
            n == array@.len(),
            1 <= checked <= n,
            forall|a: int, b: int| 0 <= a < b < checked ==> leq(array@[a], array@[b]),
            array@.to_multiset() == old(array)@.to_multiset(),
        decreases n - checked,
    {
        // Walk the value at `checked` back into the sorted prefix.
        let mut j: usize = checked;
        while j > 0 && array[j - 1] > array[j]
            invariant
                total_order::<T>(),
                n == array@.len(),
                checked < n,
                j <= checked,
                forall|a: int, b: int|
                    0 <= a < b <= checked && a != j && b != j ==> leq(array@[a], array@[b]),
                forall|b: int| j < b <= checked ==> leq(array@[j as int], array@[b]),
                array@.to_multiset() == old(array)@.to_multiset(),
            decreases j,
        {
            proof {
                lemma_leq_laws::<T>();
            }
            let lo = array[j - 1];
            let hi = array[j];
            proof {
                lemma_swap_keeps_multiset(array@, j - 1, j as int);
            }
            array[j - 1] = hi;
            array[j] = lo;
            j = j - 1;
        }
        proof {
            lemma_leq_laws::<T>();
            if j > 0 {
                assert(leq(array@[j - 1], array@[j as int]));
            }
            assert forall|a: int, b: int| 0 <= a < b <= checked implies leq(
                array@[a],
                array@[b],
            ) by {
                if b == j && a < j - 1 {
                    assert(leq(array@[a], array@[j - 1]));
                }
            }
        }
        checked = checked + 1;
    }
}

} // verus!
