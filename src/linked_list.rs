use vstd::prelude::*;

use vstd::multiset::Multiset;
use vstd::std_specs::cmp::PartialOrdSpec;
use vstd::string::to_string_from_display_ensures;

use crate::lemma_leq_laws;
use crate::leq;
use crate::sorted;
use crate::total_order;

verus! {

/// A singly-linked list that owns its values in order from head to tail.
///
/// The chain is kept in one backing store, front first, beside a length
/// counter that always agrees with it. Lists are handed between the merge
/// steps by value, so a list that has been split or spliced onto another can
/// no longer be read.
#[derive(Debug)]
pub struct LinkedList<T> {
    length: u32,
    vals: Vec<T>,
}

impl<T> View for LinkedList<T> {
    type V = Seq<T>;

    /// The values of the list, from head to tail.
    closed spec fn view(&self) -> Seq<T> {
        self.vals@
    }
}

impl<T> LinkedList<T> {
    /// The length counter agrees with the chain it describes.
    pub closed spec fn wf(&self) -> bool {
        self.length as int == self.vals@.len()
    }

    /// An empty list.
    pub fn new() -> (r: Self)
        ensures
            r.wf(),
            r@ == Seq::<T>::empty(),
    {
        LinkedList { length: 0, vals: Vec::new() }
    }

    /// The number of values in the list.
    pub fn length(&self) -> (r: u32)
        requires
            self.wf(),
        ensures
            r as int == self@.len(),
    {
        self.length
    }

    /// Appends `obj` after the current tail.
    pub fn add(&mut self, obj: T)
        requires
            old(self).wf(),
            old(self)@.len() < u32::MAX,
        ensures
            final(self).wf(),
            final(self)@ == old(self)@.push(obj),
    {
        self.vals.push(obj);
        self.length = self.length + 1;
    }

    /// The value at zero-based position `index`, or `None` when `index` is
    /// negative or not below the length.
    pub fn get(&self, index: i32) -> (r: Option<&T>)
        requires
            self.wf(),
        ensures
            (0 <= index < self@.len()) ==> r == Some(&self@[index as int]),
            !(0 <= index < self@.len()) ==> r.is_none(),
    {
        if index < 0 || index as u32 >= self.length {
            None
        } else {
            Some(&self.vals[index as usize])
        }
    }

    /// Moves the values of `rhs`, in order, after the tail of `self`; `rhs`
    /// is consumed. This takes time in the length of `rhs`.
    pub fn concat(&mut self, rhs: Self)
        requires
            old(self).wf(),
            rhs.wf(),
            old(self)@.len() + rhs@.len() <= u32::MAX,
        ensures
            final(self).wf(),
            final(self)@ == old(self)@ + rhs@,
    {
        if rhs.length == 0 {
            proof {
                assert(self@ + rhs@ =~= self@);
            }
            return;
        }
        let mut rhs = rhs;
        self.length = self.length + rhs.length;
        self.vals.append(&mut rhs.vals);
    }
}

impl<T> Default for LinkedList<T> {
    /// An empty list, as `new` gives.
    fn default() -> (r: Self)
        ensures
            r.wf(),
            r@ == Seq::<T>::empty(),
    {
        Self::new()
    }
}

/// The pieces of text `parts` joined with a comma and a space between
/// neighbours; no pieces give the empty text.
pub open spec fn joined(parts: Seq<Seq<char>>) -> Seq<char>
    decreases parts.len(),
{
    if parts.len() == 0 {
        Seq::empty()
    } else if parts.len() == 1 {
        parts[0]
    } else {
        joined(parts.drop_last()) + seq![',', ' '] + parts.last()
    }
}

/// `r` is the rendering of `vals`: each value as its `Display` text, in
/// order, joined with ", ".
pub open spec fn renders<T: std::fmt::Display>(vals: Seq<T>, r: Seq<char>) -> bool {
    exists|parts: Seq<String>|
        {
            &&& parts.len() == vals.len()
            &&& forall|i: int|
                0 <= i < vals.len() ==> to_string_from_display_ensures::<T>(
                    &vals[i],
                    #[trigger] parts[i],
                )
            &&& r == joined(parts.map_values(|p: String| p@))
        }
}

/// The values of a list that starts empty and has each of `vs` appended in
/// turn, as `new` and `add` describe them.
pub open spec fn appended<T>(vs: Seq<T>) -> Seq<T>
    decreases vs.len(),
{
    if vs.len() == 0 {
        Seq::empty()
    } else {
        appended(vs.drop_last()).push(vs.last())
    }
}

/// Appending `v1 .. vn` to an empty list and reading positions `0 .. n-1`
/// back gives `v1 .. vn` exactly.
pub proof fn lemma_append_then_get<T>(vs: Seq<T>)
    ensures
        appended(vs) == vs,
        forall|i: int| 0 <= i < vs.len() ==> #[trigger] appended(vs)[i] == vs[i],
    decreases vs.len(),
{
    if vs.len() > 0 {
        lemma_append_then_get(vs.drop_last());
        assert(vs.drop_last().push(vs.last()) =~= vs);
    } else {
        assert(vs =~= Seq::<T>::empty());
    }
}

/// The values of an optional list; none when it is absent.
pub open spec fn opt_view<T>(o: Option<LinkedList<T>>) -> Seq<T> {
    match o {
        Some(l) => l@,
        None => Seq::empty(),
    }
}

/// An optional list is absent, or a well-formed list with at least one value.
pub open spec fn opt_wf<T>(o: Option<LinkedList<T>>) -> bool {
    match o {
        Some(l) => l.wf() && l@.len() > 0,
        None => true,
    }
}

/// Every value of `lo` is at most every value of `hi`.
pub open spec fn all_le<T: Ord>(lo: Seq<T>, hi: Seq<T>) -> bool {
    forall|i: int, j: int| 0 <= i < lo.len() && 0 <= j < hi.len() ==> leq(lo[i], hi[j])
}

/// `run`, `rest` and `other` are the division of `small` against the head
/// of `large`: `run` is the longest prefix of `small` whose values are at
/// most that head, `rest` what is left of `small` (absent when nothing is),
/// and `other` is `large` untouched.
pub open spec fn divides<T: Ord>(
    small: Seq<T>,
    large: Seq<T>,
    run: LinkedList<T>,
    rest: Option<LinkedList<T>>,
    other: Option<LinkedList<T>>,
) -> bool {
    let k = run@.len();
    &&& run.wf()
    &&& k <= small.len()
    &&& run@ == small.subrange(0, k as int)
    &&& forall|i: int| 0 <= i < k ==> #[trigger] leq(small[i], large[0])
    &&& k < small.len() ==> !leq(small[k as int], large[0])
    &&& opt_wf(rest)
    &&& opt_view(rest) == small.subrange(k as int, small.len() as int)
    &&& opt_wf(other)
    &&& other is Some
    &&& opt_view(other) == large
}

impl<T: std::fmt::Display> LinkedList<T> {
    /// The values from head to tail as text, separated by ", "; an empty
    /// list renders as the empty string.
    pub fn render(&self) -> (r: String)
        requires
            self.wf(),
        ensures
            renders(self@, r@),
    {
        let mut out = String::new();
        let ghost mut parts: Seq<String> = Seq::empty();
        let n = self.vals.len();
        let mut i: usize = 0;
        while i < n
            invariant
                n == self@.len(),
                i <= n,
                parts.len() == i,
                forall|j: int|
                    0 <= j < i ==> to_string_from_display_ensures::<T>(
                        &self@[j],
                        #[trigger] parts[j],
                    ),
                out@ == joined(parts.map_values(|p: String| p@)),
            decreases n - i,
        {
            let piece = self.vals[i].to_string();
            let ghost before = out@;
            if i > 0 {
                out.append(", ");
                proof {
                    reveal_strlit(", ");
                }
            }
            out.append(piece.as_str());
            proof {
                let old_parts = parts;
                parts = parts.push(piece);
                let views = parts.map_values(|p: String| p@);
                assert(views.drop_last() =~= old_parts.map_values(|p: String| p@));
                if i == 0 {
                    assert(before =~= Seq::<char>::empty());
                    assert(out@ =~= views[0]);
                } else {
                    assert(out@ =~= before + seq![',', ' '] + views.last());
                }
            }
            i = i + 1;
        }
        proof {
            assert(parts.len() == self@.len());
        }
        out
    }
}

impl<T: Ord> LinkedList<T> {
    /// Carves off `list_a` its longest prefix of values at most the head of
    /// `list_b`. Returns that prefix, the rest of `list_a` if any, and
    /// `list_b` as it was.
    pub fn divide_by(list_a: Self, list_b: Self) -> (r: (Self, Option<Self>, Option<Self>))
        requires
            total_order::<T>(),
            list_a.wf(),
            list_b.wf(),
            list_b@.len() > 0,
        ensures
            divides(list_a@, list_b@, r.0, r.1, r.2),
    {
        proof {
            lemma_leq_laws::<T>();
        }
        let n = list_a.vals.len();
        let mut length: usize = 0;
        {
            let value = &list_b.vals[0];
            while length < n && list_a.vals[length] <= *value
                invariant
                    T::obeys_partial_cmp_spec(),
                    n == list_a@.len(),
                    length <= n,
                    *value == list_b@[0],
                    forall|i: int| 0 <= i < length ==> #[trigger] leq(list_a@[i], list_b@[0]),
                decreases n - length,
            {
                length = length + 1;
            }
        }
        let ghost whole = list_a@;
        let mut list_a = list_a;
        let rest = list_a.vals.split_off(length);
        let prefix = LinkedList { length: length as u32, vals: list_a.vals };
        assert(prefix@ =~= whole.subrange(0, length as int));
        if length == n {
            assert(whole.subrange(length as int, n as int) =~= Seq::<T>::empty());
            (prefix, None, Some(list_b))
        } else {
            let rest_len = (n - length) as u32;
            (prefix, Some(LinkedList { length: rest_len, vals: rest }), Some(list_b))
        }
    }

    /// Takes the run that comes first in the merge of two non-empty lists:
    /// the list whose head is smaller (`list_a` on a tie) is divided against
    /// the other one, as `divide_by` does. Returns the run, then what is left
    /// of `list_a`, then what is left of `list_b`: each leftover stays in the
    /// slot of the list it came from, and the list that was not divided comes
    /// back whole.
    pub fn split(list_a: Self, list_b: Self) -> (r: (Self, Option<Self>, Option<Self>))
        requires
            total_order::<T>(),
            list_a.wf(),
            list_b.wf(),
            list_a@.len() > 0,
            list_b@.len() > 0,
        ensures
            leq(list_a@[0], list_b@[0]) ==> divides(list_a@, list_b@, r.0, r.1, r.2),
            !leq(list_a@[0], list_b@[0]) ==> divides(list_b@, list_a@, r.0, r.2, r.1),
    {
        proof {
            lemma_leq_laws::<T>();
        }
        if list_a.vals[0] <= list_b.vals[0] {
            Self::divide_by(list_a, list_b)
        } else {
            let (run, rest_b, a) = Self::divide_by(list_b, list_a);
            (run, a, rest_b)
        }
    }

    /// Merges two sorted lists into one sorted list holding exactly the
    /// values of both. The merge goes run by run: each step carves off one
    /// side the longest prefix that is at most the other side's head, and
    /// appends it to the result. An empty operand gives the other list back
    /// unchanged.
    pub fn merge(list_a: Self, list_b: Self) -> (r: Self)
        requires
            total_order::<T>(),
            list_a.wf(),
            list_b.wf(),
            sorted(list_a@),
            sorted(list_b@),
            list_a@.len() + list_b@.len() <= u32::MAX,
        ensures
            r.wf(),
            r@.len() == list_a@.len() + list_b@.len(),
            sorted(r@),
            r@.to_multiset() == list_a@.to_multiset().add(list_b@.to_multiset()),
            list_b@.len() == 0 ==> r@ == list_a@,
            list_a@.len() == 0 ==> r@ == list_b@,
    {
        broadcast use vstd::seq_lib::lemma_multiset_commutative;
        broadcast use vstd::seq_lib::group_to_multiset_ensures;
        broadcast use vstd::multiset::group_multiset_axioms;
        broadcast use vstd::multiset::group_multiset_properties;

        if list_b.length == 0 {
            proof {
                assert(list_b@.to_multiset().len() == 0);
                assert(list_b@.to_multiset() =~= Multiset::empty());
            }
            return list_a;
        }
        if list_a.length == 0 {
            proof {
                assert(list_a@.to_multiset().len() == 0);
                assert(list_a@.to_multiset() =~= Multiset::empty());
            }
            return list_b;
        }
        proof {
            lemma_leq_laws::<T>();
        }
        let ghost total = list_a@.to_multiset().add(list_b@.to_multiset());
        let ghost total_len = list_a@.len() + list_b@.len();
        let ghost (a0, b0) = (list_a@, list_b@);
        let (mut merged, mut rem_a, mut rem_b) = Self::split(list_a, list_b);
        proof {
            if leq(a0[0], b0[0]) {
                lemma_run_step(Seq::empty(), a0, b0, merged@, opt_view(rem_a));
            } else {
                lemma_run_step(Seq::empty(), b0, a0, merged@, opt_view(rem_b));
            }
        }
        while rem_a.is_some() && rem_b.is_some()
            invariant
                total_order::<T>(),
                merged.wf(),
                opt_wf(rem_a),
                opt_wf(rem_b),
                sorted(merged@),
                sorted(opt_view(rem_a)),
                sorted(opt_view(rem_b)),
                all_le(merged@, opt_view(rem_a)),
                all_le(merged@, opt_view(rem_b)),
                merged@.len() + opt_view(rem_a).len() + opt_view(rem_b).len() == total_len,
                merged@.to_multiset().add(opt_view(rem_a).to_multiset()).add(
                    opt_view(rem_b).to_multiset(),
                ) == total,
                total_len <= u32::MAX,
            decreases opt_view(rem_a).len() + opt_view(rem_b).len(),
        {
            proof {
                lemma_leq_laws::<T>();
            }
            let a = rem_a.unwrap();
            let b = rem_b.unwrap();
            let ghost (m0, a0, b0) = (merged@, a@, b@);
            let (run, next_a, next_b) = Self::split(a, b);
            proof {
                let a_small = leq(a0[0], b0[0]);
                let small = if a_small { a0 } else { b0 };
                let large = if a_small { b0 } else { a0 };
                let rest = if a_small { opt_view(next_a) } else { opt_view(next_b) };
                lemma_run_step(m0, small, large, run@, rest);
                assert(((m0 + run@) + rest).to_multiset() == (m0 + small).to_multiset());
                vstd::seq_lib::lemma_multiset_commutative(m0 + run@, rest);
                vstd::seq_lib::lemma_multiset_commutative(m0, small);
                assert((m0 + run@).to_multiset().add(rest.to_multiset()) == (m0
                    + small).to_multiset());
                assert((m0 + small).to_multiset() == m0.to_multiset().add(small.to_multiset()));
                if !a_small {
                    assert(opt_view(next_a) == a0);
                    let x = (m0 + run@).to_multiset();
                    assert(x.add(a0.to_multiset()).add(rest.to_multiset()) =~= x.add(
                        rest.to_multiset(),
                    ).add(a0.to_multiset()));
                    assert(m0.to_multiset().add(b0.to_multiset()).add(a0.to_multiset())
                        =~= m0.to_multiset().add(a0.to_multiset()).add(b0.to_multiset()));
                    assert((m0 + run@).to_multiset().add(a0.to_multiset()).add(rest.to_multiset())
                        =~= m0.to_multiset().add(a0.to_multiset()).add(b0.to_multiset()));
                }
            }
            merged.concat(run);
            rem_a = next_a;
            rem_b = next_b;
        }
        if let Some(a) = rem_a {
            proof {
                lemma_tail_step(merged@, a@);
            }
            merged.concat(a);
        } else if let Some(b) = rem_b {
            proof {
                lemma_tail_step(merged@, b@);
            }
            merged.concat(b);
        } else {
            proof {
                assert(merged@.to_multiset().add(Seq::<T>::empty().to_multiset()).add(
                    Seq::<T>::empty().to_multiset(),
                ) =~= merged@.to_multiset());
            }
        }
        merged
    }
}

/// One merge step keeps the loop's facts: `run` and `rest` divide `small`
/// against the head of `large`, and everything merged so far (`m`) is at
/// most both operands.
proof fn lemma_run_step<T: Ord>(m: Seq<T>, small: Seq<T>, large: Seq<T>, run: Seq<T>, rest: Seq<T>)
    requires
        total_order::<T>(),
        sorted(m),
        sorted(small),
        sorted(large),
        all_le(m, small),
        all_le(m, large),
        small.len() > 0,
        large.len() > 0,
        leq(small[0], large[0]),
        run.len() <= small.len(),
        run == small.subrange(0, run.len() as int),
        rest == small.subrange(run.len() as int, small.len() as int),
        forall|i: int| 0 <= i < run.len() ==> #[trigger] leq(small[i], large[0]),
        run.len() < small.len() ==> !leq(small[run.len() as int], large[0]),
    ensures
        run.len() > 0,
        sorted(m + run),
        sorted(rest),
        all_le(m + run, rest),
        all_le(m + run, large),
        (m + run) + rest == m + small,
{
    lemma_leq_laws::<T>();
    assert(run.len() > 0);
    assert(run + rest =~= small);
    assert((m + run) + rest =~= m + small);
    let mr = m + run;
    assert forall|i: int, j: int| 0 <= i < j < mr.len() implies leq(mr[i], mr[j]) by {
        if j >= m.len() {
            assert(mr[j] == small[j - m.len()]);
            if i >= m.len() {
                assert(mr[i] == small[i - m.len()]);
            }
        }
    }
    assert forall|i: int, j: int| 0 <= i < j < rest.len() implies leq(rest[i], rest[j]) by {
        assert(rest[i] == small[run.len() + i]);
        assert(rest[j] == small[run.len() + j]);
    }
    assert forall|i: int, j: int| 0 <= i < mr.len() && 0 <= j < rest.len() implies leq(
        mr[i],
        rest[j],
    ) by {
        assert(rest[j] == small[run.len() + j]);
        if i >= m.len() {
            assert(mr[i] == small[i - m.len()]);
        }
    }
    assert forall|i: int, j: int| 0 <= i < mr.len() && 0 <= j < large.len() implies leq(
        mr[i],
        large[j],
    ) by {
        if i >= m.len() {
            assert(mr[i] == small[i - m.len()]);
            assert(leq(small[i - m.len()], large[0]));
            if j > 0 {
                assert(leq(large[0], large[j]));
            }
        }
    }
}

/// Splicing a last remainder that is at least everything merged so far keeps
/// the result sorted.
proof fn lemma_tail_step<T: Ord>(m: Seq<T>, rest: Seq<T>)
    requires
        sorted(m),
        sorted(rest),
        all_le(m, rest),
    ensures
        sorted(m + rest),
        (m + rest).to_multiset() == m.to_multiset().add(rest.to_multiset()),
{
    broadcast use vstd::seq_lib::lemma_multiset_commutative;

    let mr = m + rest;
    assert forall|i: int, j: int| 0 <= i < j < mr.len() implies leq(mr[i], mr[j]) by {
        if j >= m.len() {
            assert(mr[j] == rest[j - m.len()]);
            if i >= m.len() {
                assert(mr[i] == rest[i - m.len()]);
            }
        }
    }
}

} // verus!
