//! The sortedness predicate.
use vstd::prelude::*;
use vstd::laws_cmp::*;
use crate::order::{lemma_natural_order, nat_lt};
use vstd::std_specs::cmp::OrdSpec;
use std::cmp::Ordering;

verus! {

/// Every element is strictly smaller than the next one in the natural order.
pub open spec fn strictly_ascending<T: Ord>(s: Seq<T>) -> bool {
    forall|i: int| 0 < i < s.len() ==> #[trigger] nat_lt(s[i - 1], s[i])
}

/// A strictly ascending sequence has every earlier element strictly below every later one.
pub proof fn lemma_strictly_ascending_pairwise<T: Ord>(s: Seq<T>, i: int, j: int)
    requires
        obeys_cmp::<T>(),
        strictly_ascending(s),
        0 <= i < j < s.len(),
    ensures
        nat_lt(s[i], s[j]),
    decreases j - i,
{
    lemma_natural_order::<T>();
    assert(nat_lt(s[j - 1], s[j]));
    if i + 1 < j {
        lemma_strictly_ascending_pairwise(s, i, j - 1);
    }
}

/// Tells whether each adjacent pair is in strictly ascending natural order.
/// Empty and single-element slices are sorted.
pub fn is_sorted<T: Ord>(arr: &[T]) -> (r: bool)
    requires
        obeys_cmp::<T>(),
    ensures
        r == strictly_ascending(arr@),
{
    proof {
        lemma_natural_order::<T>();
    }
    let mut i: usize = 1;
    while i < arr.len()
        invariant
            obeys_cmp::<T>(),
            1 <= i,
            forall|k: int| 0 < k < i && k < arr@.len() ==> #[trigger] nat_lt(arr@[k - 1], arr@[k]),
        decreases arr.len() - i,
    {
        proof {
            lemma_natural_order::<T>();
        }
        let o = arr[i - 1].cmp(&arr[i]);
        match o {
            Ordering::Less => {},
            _ => {
                assert(!nat_lt(arr@[i - 1], arr@[i as int]));
                return false;
            },
        }
        i = i + 1;
    }
    true
}

} // verus!
