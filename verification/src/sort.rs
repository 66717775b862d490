use vstd::prelude::*;

verus! {

/// Whether the keyed entries of `s` are in ascending key order.
pub open spec fn sorted_by_key<T>(s: Seq<(i64, T)>) -> bool {
    forall|a: int, b: int| 0 <= a <= b < s.len() ==> (#[trigger] s[a]).0 <= (#[trigger] s[b]).0
}

/// Sorts the entries ascending by key, keeping exactly the same entries
/// (as a multiset); used to order offset tables by squared magnitude.
pub fn sort_by_key<T: Copy>(v: &mut Vec<(i64, T)>)
    ensures
        final(v)@.len() == old(v)@.len(),
        sorted_by_key(final(v)@),
        final(v)@.to_multiset() == old(v)@.to_multiset(),
{
    let len = v.len();
    let mut i: usize = 0;
    while i < len
        invariant
            v@.len() == len,
            0 <= i <= len,
            v@.to_multiset() == old(v)@.to_multiset(),
            forall|a: int, b: int| 0 <= a <= b < i ==> (#[trigger] v@[a]).0 <= (#[trigger] v@[b]).0,
        decreases len - i,
    {
        let mut j: usize = i;
        while j > 0 && v[j - 1].0 > v[j].0
            invariant
                v@.len() == len,
                0 <= j <= i < len,
                v@.to_multiset() == old(v)@.to_multiset(),
                forall|a: int, b: int| 0 <= a <= b < j ==> (#[trigger] v@[a]).0 <= (#[trigger] v@[b]).0,
                forall|a: int, b: int| j < a <= b <= i ==> (#[trigger] v@[a]).0 <= (#[trigger] v@[b]).0,
                forall|a: int| j < a <= i ==> (#[trigger] v@[a]).0 > v@[j as int].0,
                forall|a: int, b: int|
                    0 <= a < j && j < b <= i ==> (#[trigger] v@[a]).0 <= (#[trigger] v@[b]).0,
            decreases j,
        {
            let ghost s0 = v@;
            let lo = v[j - 1];
            let hi = v[j];
            v.set(j - 1, hi);
            v.set(j, lo);
            proof {
                broadcast use vstd::seq_lib::to_multiset_update;
                broadcast use vstd::seq_lib::group_to_multiset_ensures;
                broadcast use vstd::multiset::group_multiset_axioms;

                assert(s0.contains(s0[j - 1]));
                assert(v@ == s0.update(j - 1, s0[j as int]).update(j as int, s0[j - 1]));
                assert(v@.to_multiset() =~= s0.to_multiset());
            }
            j = j - 1;
        }
        i = i + 1;
    }
}

} // verus!
