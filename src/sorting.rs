//! In-place sorts driven by a caller-supplied comparator `cmp`, where
//! `cmp(a, b)` says that `a` is to be placed before `b`, and a selection sort
//! in the natural order.
use vstd::prelude::*;
use vstd::laws_cmp::obeys_cmp;
use std::cmp::Ordering;
use crate::order::{
    ascending, keeps_rank_order, lemma_merged, lemma_natural_order, lemma_permutes_concat3,
    lemma_permutes_contains, lemma_swap_keeps_rank_order, lemma_swap_permutes,
    lemma_swap_permutes_range, merged, nat_lt, orders, permutes, precedes, rank_of, sorted_by, swapped,
    valid_comparator,
};

verus! {

/// Relies on slice::swap: exchanges the elements at the two positions, both in bounds.
pub assume_specification<E>[ <[E]>::swap ](s: &mut [E], a: usize, b: usize)
    requires
        a < old(s)@.len(),
        b < old(s)@.len(),
    ensures
        final(s)@ == old(s)@.update(a as int, old(s)@[b as int]).update(b as int, old(s)@[a as int]),
;

/// What holds under `lt` between passes of bubble sort: the last `n - m`
/// positions are sorted and hold no element to be placed before one of the rest.
spec fn bubble_settled<T>(lt: spec_fn(T, T) -> bool, orig: Seq<T>, s: Seq<T>, n: int, m: int) -> bool {
    &&& keeps_rank_order(lt, orig, s)
    &&& forall|a: int, b: int| m <= a < b < n ==> !#[trigger] precedes(lt, s[b], s[a])
    &&& forall|k: int, j: int| 0 <= k < m <= j < n ==> !#[trigger] precedes(lt, s[j], s[k])
}

/// What holds under `lt` within a pass of bubble sort, before the pair `(i, i + 1)`.
spec fn bubble_pass<T>(
    lt: spec_fn(T, T) -> bool,
    orig: Seq<T>,
    s: Seq<T>,
    n: int,
    m: int,
    i: int,
    swapped_any: bool,
) -> bool {
    &&& bubble_settled(lt, orig, s, n, m)
    &&& n > 0 ==> forall|k: int| 0 <= k <= i ==> !#[trigger] precedes(lt, s[i], s[k])
    &&& m >= 1 && i >= m - 1 ==> forall|k: int|
        0 <= k < m - 1 ==> !#[trigger] precedes(lt, s[m - 1], s[k])
    &&& !swapped_any ==> forall|a: int, b: int|
        0 <= a < b <= i ==> !#[trigger] precedes(lt, s[b], s[a])
}

/// Repeated passes over the whole slice that exchange each neighbouring pair whose
/// second element is to be placed before the first, until a pass exchanges nothing.
pub fn bubble_sort<T: Ord, F: Fn(&T, &T) -> bool>(arr: &mut [T], cmp: &F)
    requires
        valid_comparator(cmp),
    ensures
        permutes(old(arr)@, final(arr)@),
        forall|lt: spec_fn(T, T) -> bool| #[trigger] orders(cmp, lt) ==> {
            &&& sorted_by(lt, final(arr)@)
            &&& keeps_rank_order(lt, old(arr)@, final(arr)@)
        },
{
    let n: usize = arr.len();
    let ghost orig = arr@;
    let ghost lt0 = choose|lt: spec_fn(T, T) -> bool| orders(cmp, lt);
    let ghost mut passes: int = 0;
    loop
        invariant
            valid_comparator(cmp),
            orders(cmp, lt0),
            arr@.len() == n,
            0 <= passes <= n,
            permutes(orig, arr@),
            forall|lt: spec_fn(T, T) -> bool| #[trigger] orders(cmp, lt) ==> bubble_settled(
                lt, orig, arr@, n as int, n - passes),
        ensures
            forall|lt: spec_fn(T, T) -> bool| #[trigger] orders(cmp, lt) ==> {
                &&& sorted_by(lt, arr@)
                &&& keeps_rank_order(lt, orig, arr@)
            },
        decreases n - passes,
    {
        let ghost m: int = n - passes;
        let ghost start = arr@;
        let mut swapped_any = false;
        let mut i: usize = 0;
        while i + 1 < n
            invariant
                valid_comparator(cmp),
                orders(cmp, lt0),
                arr@.len() == n,
                m == n - passes,
                0 <= passes <= n,
                i <= n,
                n > 0 ==> i < n,
                permutes(orig, arr@),
                forall|lt: spec_fn(T, T) -> bool| #[trigger] orders(cmp, lt) ==> bubble_pass(
                    lt, orig, arr@, n as int, m, i as int, swapped_any),
                !swapped_any ==> arr@ == start,
                swapped_any ==> m >= 2,
            decreases n - i,
        {
            let ghost prev = arr@;
            let c = cmp(&arr[i + 1], &arr[i]);
            if c {
                proof {
                    assert(bubble_pass(lt0, orig, prev, n as int, m, i as int, swapped_any));
                    assert(precedes(lt0, prev[i + 1], prev[i as int]));
                    assert(i + 1 < m) by {
                        if i >= m {
                            assert(!precedes(lt0, prev[i + 1], prev[i as int]));
                        } else if i + 1 >= m {
                            assert(!precedes(lt0, prev[i + 1], prev[i as int]));
                        }
                    }
                    lemma_swap_permutes(prev, i as int, i + 1);
                }
                arr.swap(i, i + 1);
                swapped_any = true;
                proof {
                    assert(arr@ == swapped(prev, i as int, i + 1));
                    assert forall|lt: spec_fn(T, T) -> bool| #[trigger] orders(cmp, lt) implies bubble_pass(
                        lt, orig, arr@, n as int, m, i + 1, true) by {
                        assert(bubble_pass(lt, orig, prev, n as int, m, i as int, false) || bubble_pass(lt, orig, prev, n as int, m, i as int, true));
                        assert(precedes(lt, prev[i + 1], prev[i as int]));
                        lemma_swap_keeps_rank_order(lt, prev, i as int);
                        assert forall|x: T| #[trigger] arr@.filter(rank_of(lt, x))
                            == orig.filter(rank_of(lt, x)) by {
                            assert(arr@.filter(rank_of(lt, x)) == prev.filter(rank_of(lt, x)));
                            assert(prev.filter(rank_of(lt, x)) == orig.filter(rank_of(lt, x)));
                        }
                        assert forall|k: int, j: int| 0 <= k < m <= j < n implies !#[trigger] precedes(
                            lt,
                            arr@[j],
                            arr@[k],
                        ) by {
                            if k == i {
                                assert(!precedes(lt, prev[j], prev[i + 1]));
                            } else if k == i + 1 {
                                assert(!precedes(lt, prev[j], prev[i as int]));
                            } else {
                                assert(!precedes(lt, prev[j], prev[k]));
                            }
                        }
                        assert forall|k: int| 0 <= k <= i + 1 implies !#[trigger] precedes(
                            lt,
                            arr@[i + 1],
                            arr@[k],
                        ) by {
                            if k < i {
                                assert(!precedes(lt, prev[i as int], prev[k]));
                            }
                        }
                    }
                }
            } else {
                proof {
                    assert forall|lt: spec_fn(T, T) -> bool| #[trigger] orders(cmp, lt) implies bubble_pass(
                        lt, orig, arr@, n as int, m, i + 1, swapped_any) by {
                        assert(bubble_pass(lt, orig, prev, n as int, m, i as int, swapped_any));
                        assert(!precedes(lt, prev[i + 1], prev[i as int]));
                        assert forall|k: int| 0 <= k <= i + 1 implies !#[trigger] precedes(
                            lt,
                            arr@[i + 1],
                            arr@[k],
                        ) by {
                            if k <= i {
                                assert(!precedes(lt, arr@[i as int], arr@[k]));
                            }
                        }
                        if !swapped_any {
                            assert forall|a: int, b: int| 0 <= a < b <= i + 1 implies !#[trigger] precedes(
                                lt,
                                arr@[b],
                                arr@[a],
                            ) by {
                                if b == i + 1 && a < i {
                                    assert(!precedes(lt, arr@[i as int], arr@[a]));
                                }
                            }
                        }
                    }
                }
            }
            i = i + 1;
        }
        if !swapped_any {
            proof {
                assert forall|lt: spec_fn(T, T) -> bool| #[trigger] orders(cmp, lt) implies {
                    &&& sorted_by(lt, arr@)
                    &&& keeps_rank_order(lt, orig, arr@)
                } by {
                    assert(bubble_pass(lt, orig, arr@, n as int, m, i as int, false));
                }
            }
            break;
        }
        proof {
            assert forall|lt: spec_fn(T, T) -> bool| #[trigger] orders(cmp, lt) implies bubble_settled(
                lt, orig, arr@, n as int, m - 1) by {
                assert(bubble_pass(lt, orig, arr@, n as int, m, i as int, true));
                assert forall|a: int, b: int|
                    m - 1 <= a < b < n implies !#[trigger] precedes(lt, arr@[b], arr@[a]) by {
                }
                assert forall|k: int, j: int|
                    0 <= k < m - 1 <= j < n implies !#[trigger] precedes(lt, arr@[j], arr@[k]) by {
                }
            }
            passes = passes + 1;
        }
    }
}

/// What holds under `lt` while the element at `j` moves left within `[0, i]`:
/// the other elements of `[0, i]` are sorted, and the moving one is to be placed
/// before each element to its right.
spec fn insertion_step<T>(lt: spec_fn(T, T) -> bool, orig: Seq<T>, s: Seq<T>, i: int, j: int) -> bool {
    &&& keeps_rank_order(lt, orig, s)
    &&& forall|a: int, b: int|
        0 <= a < b <= i && a != j && b != j ==> !#[trigger] precedes(lt, s[b], s[a])
    &&& forall|k: int| j < k <= i ==> #[trigger] precedes(lt, s[j], s[k])
    &&& j == 0 ==> forall|a: int, b: int| 0 <= a < b <= i ==> !#[trigger] precedes(lt, s[b], s[a])
}

/// For each position from the second on, moves its element left past the
/// elements that it is to be placed before, stopping at the first that it is not.
pub fn insertion_sort<T: Ord, F: Fn(&T, &T) -> bool>(arr: &mut [T], cmp: &F)
    requires
        valid_comparator(cmp),
    ensures
        permutes(old(arr)@, final(arr)@),
        forall|lt: spec_fn(T, T) -> bool| #[trigger] orders(cmp, lt) ==> {
            &&& sorted_by(lt, final(arr)@)
            &&& keeps_rank_order(lt, old(arr)@, final(arr)@)
        },
{
    let n: usize = arr.len();
    let ghost orig = arr@;
    let mut i: usize = 1;
    while i < n
        invariant
            valid_comparator(cmp),
            arr@.len() == n,
            1 <= i,
            n > 0 ==> i <= n,
            permutes(orig, arr@),
            forall|lt: spec_fn(T, T) -> bool| #[trigger] orders(cmp, lt) ==> {
                &&& keeps_rank_order(lt, orig, arr@)
                &&& forall|a: int, b: int|
                    0 <= a < b < i && b < n ==> !#[trigger] precedes(lt, arr@[b], arr@[a])
            },
        decreases n - i,
    {
        let mut j: usize = i;
        while j > 0
            invariant_except_break
                valid_comparator(cmp),
                arr@.len() == n,
                0 <= j <= i < n,
                permutes(orig, arr@),
                forall|lt: spec_fn(T, T) -> bool| #[trigger] orders(cmp, lt) ==> insertion_step(
                    lt, orig, arr@, i as int, j as int),
            ensures
                valid_comparator(cmp),
                arr@.len() == n,
                permutes(orig, arr@),
                forall|lt: spec_fn(T, T) -> bool| #[trigger] orders(cmp, lt) ==> {
                    &&& keeps_rank_order(lt, orig, arr@)
                    &&& forall|a: int, b: int|
                        0 <= a < b <= i ==> !#[trigger] precedes(lt, arr@[b], arr@[a])
                },
            decreases j,
        {
            let c = cmp(&arr[j], &arr[j - 1]);
            if !c {
                proof {
                    assert forall|lt: spec_fn(T, T) -> bool| #[trigger] orders(cmp, lt) implies {
                        &&& keeps_rank_order(lt, orig, arr@)
                        &&& forall|a: int, b: int|
                            0 <= a < b <= i ==> !#[trigger] precedes(lt, arr@[b], arr@[a])
                    } by {
                        assert(insertion_step(lt, orig, arr@, i as int, j as int));
                        assert(!precedes(lt, arr@[j as int], arr@[j - 1]));
                        assert forall|a: int, b: int| 0 <= a < b <= i implies !#[trigger] precedes(
                            lt,
                            arr@[b],
                            arr@[a],
                        ) by {
                            if b == j && a < j - 1 {
                                assert(!precedes(lt, arr@[j - 1], arr@[a]));
                            }
                            if a == j {
                                assert(precedes(lt, arr@[j as int], arr@[b]));
                            }
                        }
                    }
                }
                break;
            }
            let ghost prev = arr@;
            proof {
                lemma_swap_permutes(prev, j - 1, j as int);
                assert(swapped(prev, j - 1, j as int) =~= swapped(prev, j as int, j - 1));
            }
            arr.swap(j, j - 1);
            j = j - 1;
            proof {
                assert forall|lt: spec_fn(T, T) -> bool| #[trigger] orders(cmp, lt) implies insertion_step(
                    lt, orig, arr@, i as int, j as int) by {
                    let j1 = j + 1;
                    assert(insertion_step(lt, orig, prev, i as int, j1));
                    assert(precedes(lt, prev[j1], prev[j as int]));
                    lemma_swap_keeps_rank_order(lt, prev, j as int);
                    assert forall|x: T| #[trigger] arr@.filter(rank_of(lt, x))
                        == orig.filter(rank_of(lt, x)) by {
                        assert(arr@.filter(rank_of(lt, x)) == prev.filter(rank_of(lt, x)));
                        assert(prev.filter(rank_of(lt, x)) == orig.filter(rank_of(lt, x)));
                    }
                    assert forall|a: int, b: int|
                        0 <= a < b <= i && a != j && b != j implies !#[trigger] precedes(
                        lt,
                        arr@[b],
                        arr@[a],
                    ) by {
                        if a == j1 {
                            assert(!precedes(lt, prev[b], prev[j as int]));
                        } else if b == j1 {
                            assert(!precedes(lt, prev[j as int], prev[a]));
                        } else {
                            assert(!precedes(lt, prev[b], prev[a]));
                        }
                    }
                    assert forall|k: int| j < k <= i implies #[trigger] precedes(lt, arr@[j as int], arr@[k]) by {
                        if k > j1 {
                            assert(precedes(lt, prev[j1], prev[k]));
                        }
                    }
                    if j == 0 {
                        assert forall|a: int, b: int| 0 <= a < b <= i implies !#[trigger] precedes(
                            lt,
                            arr@[b],
                            arr@[a],
                        ) by {
                            if a == 0 {
                                assert(precedes(lt, arr@[0], arr@[b]));
                            }
                        }
                    }
                }
            }
        }
        i = i + 1;
    }
}

/// `t` equals `s` outside of the range `[lo, hi)`.
pub open spec fn same_outside<T>(s: Seq<T>, t: Seq<T>, lo: int, hi: int) -> bool {
    &&& t.len() == s.len()
    &&& forall|k: int| 0 <= k < s.len() && !(lo <= k < hi) ==> #[trigger] t[k] == s[k]
}

/// Lomuto partition of `[lo, hi)` around its middle element: returns the pivot's
/// final position `p`, with the elements that are to be placed before the pivot
/// in `[lo, p)` and the others in `(p, hi)`.
fn partition<T: Ord, F: Fn(&T, &T) -> bool>(arr: &mut [T], lo: usize, hi: usize, cmp: &F) -> (p: usize)
    requires
        valid_comparator(cmp),
        lo < hi <= old(arr)@.len(),
    ensures
        lo <= p < hi,
        final(arr)@[p as int] == old(arr)@[lo + (hi - lo) / 2],
        same_outside(old(arr)@, final(arr)@, lo as int, hi as int),
        permutes(old(arr)@.subrange(lo as int, hi as int), final(arr)@.subrange(lo as int, hi as int)),
        forall|lt: spec_fn(T, T) -> bool| #[trigger] orders(cmp, lt) ==> {
            &&& forall|k: int| lo <= k < p ==> #[trigger] precedes(lt, final(arr)@[k], final(arr)@[p as int])
            &&& forall|k: int| p < k < hi ==> !#[trigger] precedes(lt, final(arr)@[k], final(arr)@[p as int])
        },
{
    let ghost orig = arr@;
    let pivot_index: usize = lo + (hi - lo) / 2;
    let last_index: usize = hi - 1;
    proof {
        lemma_swap_permutes_range(arr@, lo as int, hi as int, pivot_index as int, last_index as int);
    }
    arr.swap(pivot_index, last_index);
    let ghost pv = arr@[last_index as int];
    let mut store_index: usize = lo;
    let mut i: usize = lo;
    while i < last_index
        invariant
            valid_comparator(cmp),
            lo <= store_index <= i <= last_index,
            last_index + 1 == hi <= arr@.len(),
            pv == orig[lo + (hi - lo) / 2],
            arr@[last_index as int] == pv,
            same_outside(orig, arr@, lo as int, hi as int),
            permutes(orig.subrange(lo as int, hi as int), arr@.subrange(lo as int, hi as int)),
            forall|lt: spec_fn(T, T) -> bool| #[trigger] orders(cmp, lt) ==> {
                &&& forall|k: int| lo <= k < store_index ==> #[trigger] precedes(lt, arr@[k], pv)
                &&& forall|k: int| store_index <= k < i ==> !#[trigger] precedes(lt, arr@[k], pv)
            },
        decreases last_index - i,
    {
        let c = cmp(&arr[i], &arr[last_index]);
        if c {
            let ghost prev = arr@;
            proof {
                lemma_swap_permutes_range(prev, lo as int, hi as int, i as int, store_index as int);
            }
            arr.swap(i, store_index);
            proof {
                assert(arr@ == swapped(prev, i as int, store_index as int));
                assert forall|lt: spec_fn(T, T) -> bool| #[trigger] orders(cmp, lt) implies {
                    &&& forall|k: int| lo <= k < store_index + 1 ==> #[trigger] precedes(lt, arr@[k], pv)
                    &&& forall|k: int| store_index + 1 <= k < i + 1 ==> !#[trigger] precedes(lt, arr@[k], pv)
                } by {
                    assert(precedes(lt, prev[i as int], pv));
                    assert forall|k: int| lo <= k < store_index + 1 implies #[trigger] precedes(lt, arr@[k], pv) by {
                        if k < store_index {
                            assert(precedes(lt, prev[k], pv));
                        }
                    }
                    assert forall|k: int| store_index + 1 <= k < i + 1 implies !#[trigger] precedes(
                        lt,
                        arr@[k],
                        pv,
                    ) by {
                        if k == i {
                            assert(!precedes(lt, prev[store_index as int], pv));
                        } else {
                            assert(!precedes(lt, prev[k], pv));
                        }
                    }
                }
            }
            store_index = store_index + 1;
        }
        i = i + 1;
    }
    let ghost prev = arr@;
    proof {
        lemma_swap_permutes_range(prev, lo as int, hi as int, store_index as int, last_index as int);
    }
    arr.swap(store_index, last_index);
    proof {
        assert(arr@[store_index as int] == pv);
        assert forall|lt: spec_fn(T, T) -> bool| #[trigger] orders(cmp, lt) implies {
            &&& forall|k: int| lo <= k < store_index ==> #[trigger] precedes(lt, arr@[k], arr@[store_index as int])
            &&& forall|k: int| store_index < k < hi ==> !#[trigger] precedes(lt, arr@[k], arr@[store_index as int])
        } by {
            assert forall|k: int| lo <= k < store_index implies #[trigger] precedes(lt, arr@[k], arr@[store_index as int]) by {
                assert(precedes(lt, prev[k], pv));
            }
            assert forall|k: int| store_index < k < hi implies !#[trigger] precedes(
                lt,
                arr@[k],
                arr@[store_index as int],
            ) by {
                if k == last_index {
                    if store_index < last_index {
                        assert(!precedes(lt, prev[store_index as int], pv));
                    }
                } else {
                    assert(!precedes(lt, prev[k], pv));
                }
            }
        }
    }
    store_index
}

/// Quick sort of the range `[lo, hi)`, leaving the rest of the slice as it is.
fn quick_sort_range<T: Ord, F: Fn(&T, &T) -> bool>(arr: &mut [T], lo: usize, hi: usize, cmp: &F)
    requires
        valid_comparator(cmp),
        lo <= hi <= old(arr)@.len(),
    ensures
        same_outside(old(arr)@, final(arr)@, lo as int, hi as int),
        permutes(old(arr)@.subrange(lo as int, hi as int), final(arr)@.subrange(lo as int, hi as int)),
        forall|lt: spec_fn(T, T) -> bool| #[trigger] orders(cmp, lt) ==> sorted_by(
            lt, final(arr)@.subrange(lo as int, hi as int)),
    decreases hi - lo,
{
    if hi - lo >= 2 {
        let p = partition(arr, lo, hi, cmp);
        let ghost s1 = arr@;
        let ghost pv = s1[p as int];
        quick_sort_range(arr, lo, p, cmp);
        let ghost s2 = arr@;
        quick_sort_range(arr, p + 1, hi, cmp);
        let ghost s3 = arr@;
        proof {
            assert(s3[p as int] == pv);
            let r = s3.subrange(lo as int, hi as int);
            assert forall|lt: spec_fn(T, T) -> bool| #[trigger] orders(cmp, lt) implies sorted_by(lt, r) by {
                assert forall|k: int| lo <= k < p implies #[trigger] precedes(lt, s3[k], pv) by {
                    assert(s3[k] == s2[k]);
                    let j = lemma_permutes_contains(s1.subrange(lo as int, p as int), s2.subrange(lo as int, p as int), k - lo);
                    assert(precedes(lt, s1[lo + j], pv));
                }
                assert forall|k: int| p < k < hi implies !#[trigger] precedes(lt, s3[k], pv) by {
                    let j = lemma_permutes_contains(s2.subrange(p + 1, hi as int), s3.subrange(p + 1, hi as int), k - p - 1);
                    assert(s2[p + 1 + j] == s1[p + 1 + j]);
                    assert(!precedes(lt, s1[p + 1 + j], pv));
                }
                assert(sorted_by(lt, s2.subrange(lo as int, p as int)));
                assert(sorted_by(lt, s3.subrange(p + 1, hi as int)));
                assert forall|a: int, b: int| 0 <= a < b < r.len() implies !#[trigger] precedes(lt, r[b], r[a]) by {
                    if b + lo < p {
                        assert(s3.subrange(lo as int, p as int)[b] == s2.subrange(lo as int, p as int)[b]);
                        assert(s3.subrange(lo as int, p as int)[a] == s2.subrange(lo as int, p as int)[a]);
                        assert(!precedes(lt, s2.subrange(lo as int, p as int)[b], s2.subrange(lo as int, p as int)[a]));
                    } else if a + lo > p {
                        assert(!precedes(lt, s3.subrange(p + 1, hi as int)[b + lo - p - 1], s3.subrange(p + 1, hi as int)[a + lo - p - 1]));
                    } else if a + lo == p {
                        assert(!precedes(lt, r[b], pv));
                    } else if b + lo == p {
                        assert(precedes(lt, r[a], pv));
                    } else {
                        assert(precedes(lt, r[a], pv));
                        assert(!precedes(lt, r[b], pv));
                    }
                }
            }
            assert(s1.subrange(lo as int, hi as int) =~= s1.subrange(lo as int, p as int) + s1.subrange(p as int, p + 1) + s1.subrange(p + 1, hi as int));
            assert(s3.subrange(lo as int, hi as int) =~= s3.subrange(lo as int, p as int) + s3.subrange(p as int, p + 1) + s3.subrange(p + 1, hi as int));
            assert(s3.subrange(lo as int, p as int) =~= s2.subrange(lo as int, p as int));
            assert(s2.subrange(p + 1, hi as int) =~= s1.subrange(p + 1, hi as int));
            assert(s3.subrange(p as int, p + 1) =~= s1.subrange(p as int, p + 1));
            lemma_permutes_concat3(
                s1.subrange(lo as int, p as int), s1.subrange(p as int, p + 1), s1.subrange(p + 1, hi as int),
                s3.subrange(lo as int, p as int), s3.subrange(p as int, p + 1), s3.subrange(p + 1, hi as int),
            );
        }
    }
}

/// Quick sort: partitions around the middle element, then sorts each side.
pub fn quick_sort<T: Ord, F: Fn(&T, &T) -> bool>(arr: &mut [T], cmp: &F)
    requires
        valid_comparator(cmp),
    ensures
        permutes(old(arr)@, final(arr)@),
        forall|lt: spec_fn(T, T) -> bool| #[trigger] orders(cmp, lt) ==> sorted_by(lt, final(arr)@),
{
    let n = arr.len();
    quick_sort_range(arr, 0, n, cmp);
    proof {
        assert(old(arr)@.subrange(0, n as int) =~= old(arr)@);
        assert(arr@.subrange(0, n as int) =~= arr@);
    }
}

/// For each position but the last, exchanges it with the first smallest element
/// of the rest of the slice, in the natural order.
pub fn selection_sort<T: Ord>(arr: &mut [T])
    requires
        obeys_cmp::<T>(),
    ensures
        ascending(final(arr)@),
        permutes(old(arr)@, final(arr)@),
        ascending(old(arr)@) ==> final(arr)@ == old(arr)@,
{
    let n: usize = arr.len();
    let ghost orig = arr@;
    let mut i: usize = 0;
    while i + 1 < n
        invariant
            obeys_cmp::<T>(),
            arr@.len() == n,
            i <= n,
            n > 0 ==> i < n,
            permutes(orig, arr@),
            orig.len() == n,
            ascending(orig) ==> arr@ == orig,
            forall|a: int, b: int| 0 <= a < b <= i && b < n ==> !#[trigger] nat_lt(arr@[b], arr@[a]),
            forall|a: int, b: int| 0 <= a < i <= b < n ==> !#[trigger] nat_lt(arr@[b], arr@[a]),
        decreases n - i,
    {
        let mut min_index: usize = i;
        let mut j: usize = i + 1;
        proof {
            lemma_natural_order::<T>();
        }
        while j < n
            invariant
                obeys_cmp::<T>(),
                arr@.len() == n,
                i <= min_index < j <= n,
                arr@.len() == orig.len(),
                ascending(orig) ==> arr@ == orig && min_index == i,
                forall|k: int| i <= k < j ==> !#[trigger] nat_lt(arr@[k], arr@[min_index as int]),
            decreases n - j,
        {
            proof {
                lemma_natural_order::<T>();
            }
            match arr[j].cmp(&arr[min_index]) {
                Ordering::Less => {
                    proof {
                        assert(nat_lt(arr@[j as int], arr@[min_index as int]));
                        assert forall|k: int| i <= k < j + 1 implies !#[trigger] nat_lt(
                            arr@[k],
                            arr@[j as int],
                        ) by {
                            if k < j {
                                assert(!nat_lt(arr@[k], arr@[min_index as int]));
                            }
                        }
                    }
                    min_index = j;
                },
                _ => {
                    proof {
                        assert(!nat_lt(arr@[j as int], arr@[min_index as int]));
                    }
                },
            }
            j = j + 1;
        }
        let ghost prev = arr@;
        proof {
            lemma_swap_permutes(prev, i as int, min_index as int);
        }
        arr.swap(i, min_index);
        proof {
            assert(arr@ == swapped(prev, i as int, min_index as int));
            assert forall|a: int, b: int| 0 <= a < i + 1 <= b < n implies !#[trigger] nat_lt(
                arr@[b],
                arr@[a],
            ) by {
                if a == i {
                    if b == min_index {
                        assert(!nat_lt(prev[i as int], prev[min_index as int]));
                    } else {
                        assert(!nat_lt(prev[b], prev[min_index as int]));
                    }
                } else if b == min_index {
                    assert(!nat_lt(prev[i as int], prev[a]));
                } else {
                    assert(!nat_lt(prev[b], prev[a]));
                }
            }
            assert forall|a: int, b: int| 0 <= a < b <= i + 1 && b < n implies !#[trigger] nat_lt(
                arr@[b],
                arr@[a],
            ) by {
                if b == i + 1 {
                } else if b == i {
                    assert(!nat_lt(prev[min_index as int], prev[a]));
                } else {
                    assert(!nat_lt(prev[b], prev[a]));
                }
            }
        }
        i = i + 1;
    }
}

/// Merges the ranges `[lo, mid)` and `[mid, hi)` into `[lo, hi)`, working from
/// copies of the two halves; on ties the element of the left half goes first.
fn merge<T: Ord + Copy, F: Fn(&T, &T) -> bool>(arr: &mut [T], lo: usize, mid: usize, hi: usize, cmp: &F)
    requires
        valid_comparator(cmp),
        lo <= mid <= hi <= old(arr)@.len(),
    ensures
        same_outside(old(arr)@, final(arr)@, lo as int, hi as int),
        forall|lt: spec_fn(T, T) -> bool| #[trigger] orders(cmp, lt) ==> final(arr)@.subrange(
            lo as int,
            hi as int,
        ) == merged(
            lt,
            old(arr)@.subrange(lo as int, mid as int),
            old(arr)@.subrange(mid as int, hi as int),
        ),
{
    let ghost orig = arr@;
    let mut left: Vec<T> = Vec::new();
    let mut k: usize = lo;
    while k < mid
        invariant
            lo <= k <= mid <= hi <= arr@.len(),
            arr@ == orig,
            left@ == orig.subrange(lo as int, k as int),
        decreases mid - k,
    {
        left.push(arr[k]);
        proof {
            assert(left@ =~= orig.subrange(lo as int, k + 1));
        }
        k = k + 1;
    }
    let mut right: Vec<T> = Vec::new();
    while k < hi
        invariant
            lo <= mid <= k <= hi <= arr@.len(),
            arr@ == orig,
            right@ == orig.subrange(mid as int, k as int),
        decreases hi - k,
    {
        right.push(arr[k]);
        proof {
            assert(right@ =~= orig.subrange(mid as int, k + 1));
        }
        k = k + 1;
    }
    let mut li: usize = 0;
    let mut ri: usize = 0;
    k = lo;
    proof {
        assert(left@.skip(0) =~= left@);
        assert(right@.skip(0) =~= right@);
        assert forall|lt: spec_fn(T, T) -> bool| #[trigger] orders(cmp, lt) implies arr@.subrange(
            lo as int,
            lo as int,
        ) + merged(lt, left@.skip(0), right@.skip(0)) == merged(lt, left@, right@) by {
            assert(arr@.subrange(lo as int, lo as int) + merged(lt, left@, right@) =~= merged(lt, left@, right@));
        }
    }
    while k < hi
        invariant
            valid_comparator(cmp),
            lo <= k <= hi <= arr@.len(),
            hi <= orig.len(),
            left@ == orig.subrange(lo as int, mid as int),
            right@ == orig.subrange(mid as int, hi as int),
            left@.len() == mid - lo,
            right@.len() == hi - mid,
            li <= left@.len(),
            ri <= right@.len(),
            k == lo + li + ri,
            same_outside(orig, arr@, lo as int, hi as int),
            forall|lt: spec_fn(T, T) -> bool| #[trigger] orders(cmp, lt) ==> arr@.subrange(
                lo as int,
                k as int,
            ) + merged(lt, left@.skip(li as int), right@.skip(ri as int)) == merged(lt, left@, right@),
        decreases hi - k,
    {
        let ghost ls = left@.skip(li as int);
        let ghost rs = right@.skip(ri as int);
        let ghost before = arr@;
        let take_right: bool;
        if li == left.len() {
            take_right = true;
        } else if ri == right.len() {
            take_right = false;
        } else {
            take_right = cmp(&right[ri], &left[li]);
        }
        if take_right {
            let x: T = right[ri];
            arr[k] = x;
            proof {
                assert(rs[0] == x);
                assert(rs.drop_first() =~= right@.skip(ri + 1));
                assert(arr@.subrange(lo as int, k + 1) =~= before.subrange(lo as int, k as int) + seq![x]);
                assert forall|lt: spec_fn(T, T) -> bool| #[trigger] orders(cmp, lt) implies arr@.subrange(
                    lo as int,
                    k + 1,
                ) + merged(lt, ls, right@.skip(ri + 1)) == merged(lt, left@, right@) by {
                    assert(merged(lt, ls, rs) == seq![x] + merged(lt, ls, right@.skip(ri + 1))) by {
                        if ls.len() == 0 {
                            assert(merged(lt, ls, right@.skip(ri + 1)) == right@.skip(ri + 1));
                            assert(rs =~= seq![x] + right@.skip(ri + 1));
                        }
                    }
                    assert(before.subrange(lo as int, k as int) + merged(lt, ls, rs) == merged(lt, left@, right@));
                    assert(arr@.subrange(lo as int, k + 1) + merged(lt, ls, right@.skip(ri + 1))
                        =~= before.subrange(lo as int, k as int) + merged(lt, ls, rs));
                }
            }
            ri = ri + 1;
        } else {
            let x: T = left[li];
            arr[k] = x;
            proof {
                assert(ls[0] == x);
                assert(ls.drop_first() =~= left@.skip(li + 1));
                assert(arr@.subrange(lo as int, k + 1) =~= before.subrange(lo as int, k as int) + seq![x]);
                assert forall|lt: spec_fn(T, T) -> bool| #[trigger] orders(cmp, lt) implies arr@.subrange(
                    lo as int,
                    k + 1,
                ) + merged(lt, left@.skip(li + 1), rs) == merged(lt, left@, right@) by {
                    assert(merged(lt, ls, rs) == seq![x] + merged(lt, left@.skip(li + 1), rs)) by {
                        if rs.len() == 0 {
                            assert(merged(lt, left@.skip(li + 1), rs) == left@.skip(li + 1));
                            assert(ls =~= seq![x] + left@.skip(li + 1));
                        }
                    }
                    assert(before.subrange(lo as int, k as int) + merged(lt, ls, rs) == merged(lt, left@, right@));
                    assert(arr@.subrange(lo as int, k + 1) + merged(lt, left@.skip(li + 1), rs)
                        =~= before.subrange(lo as int, k as int) + merged(lt, ls, rs));
                }
            }
            li = li + 1;
        }
        k = k + 1;
    }
    proof {
        assert(left@.skip(li as int) =~= Seq::<T>::empty());
        assert(right@.skip(ri as int) =~= Seq::<T>::empty());
        assert forall|lt: spec_fn(T, T) -> bool| #[trigger] orders(cmp, lt) implies arr@.subrange(
            lo as int,
            hi as int,
        ) == merged(lt, left@, right@) by {
            assert(merged(lt, left@.skip(li as int), right@.skip(ri as int)) == Seq::<T>::empty());
            assert(arr@.subrange(lo as int, hi as int) =~= arr@.subrange(lo as int, hi as int) + Seq::<T>::empty());
        }
    }
}

/// Merge sort of the range `[lo, hi)`, leaving the rest of the slice as it is.
fn merge_sort_range<T: Ord + Copy, F: Fn(&T, &T) -> bool>(arr: &mut [T], lo: usize, hi: usize, cmp: &F)
    requires
        valid_comparator(cmp),
        lo <= hi <= old(arr)@.len(),
    ensures
        same_outside(old(arr)@, final(arr)@, lo as int, hi as int),
        permutes(old(arr)@.subrange(lo as int, hi as int), final(arr)@.subrange(lo as int, hi as int)),
        forall|lt: spec_fn(T, T) -> bool| #[trigger] orders(cmp, lt) ==> {
            &&& sorted_by(lt, final(arr)@.subrange(lo as int, hi as int))
            &&& keeps_rank_order(
                lt,
                old(arr)@.subrange(lo as int, hi as int),
                final(arr)@.subrange(lo as int, hi as int),
            )
        },
    decreases hi - lo,
{
    if hi - lo >= 2 {
        let ghost s0 = arr@;
        let mid: usize = lo + (hi - lo) / 2;
        merge_sort_range(arr, lo, mid, cmp);
        let ghost s1 = arr@;
        merge_sort_range(arr, mid, hi, cmp);
        let ghost s2 = arr@;
        merge(arr, lo, mid, hi, cmp);
        proof {
            let a0 = s0.subrange(lo as int, mid as int);
            let b0 = s0.subrange(mid as int, hi as int);
            let a2 = s2.subrange(lo as int, mid as int);
            let b2 = s2.subrange(mid as int, hi as int);
            assert(a2 =~= s1.subrange(lo as int, mid as int));
            assert(s1.subrange(mid as int, hi as int) =~= b0);
            assert(s0.subrange(lo as int, hi as int) =~= a0 + b0);
            vstd::seq_lib::lemma_multiset_commutative(a0, b0);
            vstd::seq_lib::lemma_multiset_commutative(a2, b2);
            let lt0 = choose|lt: spec_fn(T, T) -> bool| orders(cmp, lt);
            lemma_merged(lt0, a2, b2);
            assert forall|lt: spec_fn(T, T) -> bool| #[trigger] orders(cmp, lt) implies {
                &&& sorted_by(lt, arr@.subrange(lo as int, hi as int))
                &&& keeps_rank_order(lt, s0.subrange(lo as int, hi as int), arr@.subrange(lo as int, hi as int))
            } by {
                lemma_merged(lt, a2, b2);
                assert forall|x: T| #[trigger] arr@.subrange(lo as int, hi as int).filter(rank_of(lt, x))
                    == s0.subrange(lo as int, hi as int).filter(rank_of(lt, x)) by {
                    Seq::filter_distributes_over_add(a0, b0, rank_of(lt, x));
                }
            }
        }
    }
}

/// Merge sort: sorts each half, then merges them, the left half winning ties.
pub fn merge_sort<T: Ord + Copy + Clone, F: Fn(&T, &T) -> bool>(arr: &mut [T], cmp: &F)
    requires
        valid_comparator(cmp),
    ensures
        permutes(old(arr)@, final(arr)@),
        forall|lt: spec_fn(T, T) -> bool| #[trigger] orders(cmp, lt) ==> {
            &&& sorted_by(lt, final(arr)@)
            &&& keeps_rank_order(lt, old(arr)@, final(arr)@)
        },
{
    let n = arr.len();
    merge_sort_range(arr, 0, n, cmp);
    proof {
        assert(old(arr)@.subrange(0, n as int) =~= old(arr)@);
        assert(arr@.subrange(0, n as int) =~= arr@);
    }
}

} // verus!
