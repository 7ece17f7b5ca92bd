//! Linear search over any slice, and binary search over a strictly ascending one.
use vstd::prelude::*;
use vstd::laws_cmp::obeys_cmp;
use vstd::std_specs::cmp::{OrdSpec, PartialEqSpec};
use std::cmp::Ordering;
use crate::order::{lemma_natural_order, nat_lt};
use crate::util::{is_sorted, lemma_strictly_ascending_pairwise, strictly_ascending};

verus! {

/// Some position of `s` holds a value equal to `t`.
pub open spec fn occurs<T: PartialEq>(s: Seq<T>, t: T) -> bool {
    exists|j: int| 0 <= j < s.len() && #[trigger] s[j].eq_spec(&t)
}

/// The position of the first element equal to `element`, scanning from the front;
/// `None` when no element is equal to it.
pub fn linear_search<T: Eq>(arr: &[T], element: &T) -> (r: Option<usize>)
    requires
        T::obeys_eq_spec(),
    ensures
        match r {
            Some(i) => i < arr@.len() && arr@[i as int].eq_spec(element) && forall|j: int|
                0 <= j < i ==> !(#[trigger] arr@[j]).eq_spec(element),
            None => !occurs(arr@, *element),
        },
{
    let mut i: usize = 0;
    while i < arr.len()
        invariant
            T::obeys_eq_spec(),
            i <= arr@.len(),
            forall|j: int| 0 <= j < i ==> !(#[trigger] arr@[j]).eq_spec(element),
        decreases arr.len() - i,
    {
        if arr[i] == *element {
            return Some(i);
        }
        i = i + 1;
    }
    None
}

/// Halving search on a slice in strictly ascending natural order. A slice that is
/// not strictly ascending is rejected up front and gives `None`, as does a value
/// that does not occur.
pub fn binary_search<T: Ord>(arr: &[T], element: &T) -> (r: Option<usize>)
    requires
        obeys_cmp::<T>(),
    ensures
        !strictly_ascending(arr@) ==> r is None,
        strictly_ascending(arr@) ==> match r {
            Some(i) => i < arr@.len() && arr@[i as int].eq_spec(element),
            None => !occurs(arr@, *element),
        },
{
    if !is_sorted(arr) {
        return None;
    }
    if arr.len() == 0 {
        return None;
    }
    let mut low: usize = 0;
    let mut high: usize = arr.len() - 1;

    while low <= high
        invariant
            obeys_cmp::<T>(),
            strictly_ascending(arr@),
            high < arr@.len(),
            low <= high + 1,
            forall|j: int| 0 <= j < low ==> #[trigger] nat_lt(arr@[j], *element),
            forall|j: int| high < j < arr@.len() ==> #[trigger] nat_lt(*element, arr@[j]),
        decreases high + 1 - low,
    {
        proof {
            lemma_natural_order::<T>();
        }
        let mid: usize = low + (high - low) / 2;
        let o = T::cmp(element, &arr[mid]);
        assert(o == element.cmp_spec(&arr@[mid as int]));
        match o {
            Ordering::Less => {
                proof {
                    assert(nat_lt(*element, arr@[mid as int]));
                    assert forall|j: int| mid <= j < arr@.len() implies #[trigger] nat_lt(
                        *element,
                        arr@[j],
                    ) by {
                        if mid < j {
                            lemma_strictly_ascending_pairwise(arr@, mid as int, j);
                        }
                    }
                }
                if mid == 0 {
                    proof {
                        assert forall|j: int| 0 <= j < arr@.len() implies !(
                        #[trigger] arr@[j]).eq_spec(element) by {
                            assert(nat_lt(*element, arr@[j]));
                        }
                    }
                    return None;
                } else {
                    high = mid - 1;
                }
            },
            Ordering::Greater => {
                proof {
                    assert(arr@[mid as int].cmp_spec(element) == Ordering::Less);
                    assert(nat_lt(arr@[mid as int], *element));
                    assert forall|j: int| 0 <= j <= mid implies #[trigger] nat_lt(
                        arr@[j],
                        *element,
                    ) by {
                        if j < mid {
                            lemma_strictly_ascending_pairwise(arr@, j, mid as int);
                        }
                    }
                }
                if mid == usize::MAX {
                    return None;
                } else {
                    low = mid + 1;
                }
            },
            Ordering::Equal => {
                return Some(mid);
            },
        }
    }
    proof {
        lemma_natural_order::<T>();
        assert forall|j: int| 0 <= j < arr@.len() implies !(#[trigger] arr@[j]).eq_spec(
            element,
        ) by {
            if j < low {
                assert(nat_lt(arr@[j], *element));
            } else {
                assert(nat_lt(*element, arr@[j]));
            }
        }
    }
    None
}

} // verus!
