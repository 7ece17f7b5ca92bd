//! Orderings used by the routines: the natural order of an `Ord` type, and
//! caller-supplied comparators.
use vstd::prelude::*;
use vstd::laws_cmp::*;
use vstd::laws_eq::*;
use std::cmp::Ordering;
use vstd::std_specs::cmp::{OrdSpec, PartialEqSpec, PartialOrdSpec};

verus! {

/// `a` comes strictly before `b` in the natural order of `T`.
pub open spec fn nat_lt<T: Ord>(a: T, b: T) -> bool {
    a.cmp_spec(&b) == Ordering::Less
}

/// No element of `s` is strictly below an element that comes earlier, in the natural order.
pub open spec fn ascending<T: Ord>(s: Seq<T>) -> bool {
    forall|i: int, j: int| 0 <= i < j < s.len() ==> !#[trigger] nat_lt(s[j], s[i])
}

/// The natural order of `T` is a total order whose equality is `==`.
pub proof fn lemma_natural_order<T: Ord>()
    requires
        obeys_cmp::<T>(),
    ensures
        T::obeys_cmp_spec(),
        T::obeys_eq_spec(),
        forall|a: T, b: T| #[trigger] a.partial_cmp_spec(&b) == Some(a.cmp_spec(&b)),
        forall|a: T, b: T| #[trigger] a.cmp_spec(&b) == Ordering::Equal <==> a.eq_spec(&b),
        forall|a: T, b: T|
            #[trigger] a.cmp_spec(&b) == Ordering::Less <==> b.cmp_spec(&a) == Ordering::Greater,
        forall|a: T, b: T, c: T| #[trigger]
            nat_lt(a, b) && #[trigger] nat_lt(b, c) ==> nat_lt(a, c),
        forall|a: T, b: T, c: T| #[trigger]
            a.eq_spec(&b) && #[trigger] b.eq_spec(&c) ==> a.eq_spec(&c),
        forall|a: T, b: T| #[trigger] a.eq_spec(&b) <==> b.eq_spec(&a),
        forall|a: T| !#[trigger] nat_lt(a, a),
{
    reveal(obeys_cmp_partial_ord);
    reveal(obeys_cmp_ord);
    reveal(obeys_partial_cmp_spec_properties);
    reveal(obeys_eq_spec_properties);
    assert forall|a: T, b: T, c: T| #[trigger]
        nat_lt(a, b) && #[trigger] nat_lt(b, c) implies nat_lt(a, c) by {
        assert(a.partial_cmp_spec(&b) == Some(a.cmp_spec(&b)));
        assert(b.partial_cmp_spec(&c) == Some(b.cmp_spec(&c)));
        assert(a.partial_cmp_spec(&c) == Some(a.cmp_spec(&c)));
    }
    assert forall|a: T, b: T|
        #[trigger] a.cmp_spec(&b) == Ordering::Less <==> b.cmp_spec(&a) == Ordering::Greater by {
        assert(a.partial_cmp_spec(&b) == Some(a.cmp_spec(&b)));
        assert(b.partial_cmp_spec(&a) == Some(b.cmp_spec(&a)));
    }
    assert forall|a: T, b: T| #[trigger] a.cmp_spec(&b) == Ordering::Equal <==> a.eq_spec(&b) by {
        assert(a.partial_cmp_spec(&b) == Some(a.cmp_spec(&b)));
    }
}

/// `a` is to be placed before `b` under the relation `lt`.
pub open spec fn precedes<T>(lt: spec_fn(T, T) -> bool, a: T, b: T) -> bool {
    lt(a, b)
}

/// `lt` is a strict weak order: irreflexive, transitive, and with transitive
/// incomparability.
pub open spec fn strict_weak_order<T>(lt: spec_fn(T, T) -> bool) -> bool {
    &&& forall|a: T| !#[trigger] precedes(lt, a, a)
    &&& forall|a: T, b: T, c: T|
        #[trigger] precedes(lt, a, b) && #[trigger] precedes(lt, b, c) ==> precedes(lt, a, c)
    &&& forall|a: T, b: T, c: T|
        !#[trigger] precedes(lt, a, b) && !#[trigger] precedes(lt, b, c) ==> !precedes(lt, a, c)
}

/// Whatever `cmp(&a, &b)` returns is `lt(a, b)`.
pub open spec fn agrees<T, F: Fn(&T, &T) -> bool>(cmp: &F, lt: spec_fn(T, T) -> bool) -> bool {
    forall|a: T, b: T, o: bool| #[trigger] call_ensures(*cmp, (&a, &b), o) ==> o == lt(a, b)
}

/// `cmp` answers as the strict weak order `lt` does.
pub open spec fn orders<T, F: Fn(&T, &T) -> bool>(cmp: &F, lt: spec_fn(T, T) -> bool) -> bool {
    agrees(cmp, lt) && strict_weak_order(lt)
}

/// `cmp` can be called on any two elements, and answers as some strict weak order does.
pub open spec fn valid_comparator<T, F: Fn(&T, &T) -> bool>(cmp: &F) -> bool {
    &&& forall|a: T, b: T| #[trigger] call_requires(*cmp, (&a, &b))
    &&& exists|lt: spec_fn(T, T) -> bool| orders(cmp, lt)
}

/// No element of `s` is to be placed before an element that comes earlier.
pub open spec fn sorted_by<T>(lt: spec_fn(T, T) -> bool, s: Seq<T>) -> bool {
    forall|i: int, j: int| 0 <= i < j < s.len() ==> !#[trigger] precedes(lt, s[j], s[i])
}

/// Neither of `a` and `b` is to be placed before the other.
pub open spec fn same_rank<T>(lt: spec_fn(T, T) -> bool, a: T, b: T) -> bool {
    !precedes(lt, a, b) && !precedes(lt, b, a)
}

/// The elements of the same rank as `x`.
pub open spec fn rank_of<T>(lt: spec_fn(T, T) -> bool, x: T) -> spec_fn(T) -> bool {
    |y: T| same_rank(lt, y, x)
}

/// Within every rank, `t` holds the same elements in the same order as `s`.
pub open spec fn keeps_rank_order<T>(lt: spec_fn(T, T) -> bool, s: Seq<T>, t: Seq<T>) -> bool {
    forall|x: T| #[trigger] t.filter(rank_of(lt, x)) == s.filter(rank_of(lt, x))
}

/// `t` holds the same elements as `s`, each as many times.
pub open spec fn permutes<T>(s: Seq<T>, t: Seq<T>) -> bool {
    t.to_multiset() == s.to_multiset()
}

/// `s` with the elements at `i` and `j` exchanged.
pub open spec fn swapped<T>(s: Seq<T>, i: int, j: int) -> Seq<T> {
    s.update(i, s[j]).update(j, s[i])
}

/// Exchanging two elements keeps the multiset of elements.
pub proof fn lemma_swap_permutes<T>(s: Seq<T>, i: int, j: int)
    requires
        0 <= i < s.len(),
        0 <= j < s.len(),
    ensures
        permutes(s, swapped(s, i, j)),
{
    broadcast use vstd::seq_lib::group_to_multiset_ensures;
    broadcast use vstd::multiset::group_multiset_axioms;

    let s1 = s.update(i, s[j]);
    assert(s1.to_multiset() == s.to_multiset().insert(s[j]).remove(s[i]));
    assert(s1.update(j, s[i]).to_multiset() == s1.to_multiset().insert(s[i]).remove(s1[j]));
    if i == j {
        assert(swapped(s, i, j) =~= s);
    } else {
        assert(s1[j] == s[j]);
        assert(swapped(s, i, j).to_multiset() =~= s.to_multiset());
    }
}

/// Exchanging two elements inside `[lo, hi)` keeps the multiset of that range.
pub proof fn lemma_swap_permutes_range<T>(s: Seq<T>, lo: int, hi: int, i: int, j: int)
    requires
        0 <= lo <= i < hi <= s.len(),
        lo <= j < hi,
    ensures
        permutes(s.subrange(lo, hi), swapped(s, i, j).subrange(lo, hi)),
{
    let r = s.subrange(lo, hi);
    assert(swapped(s, i, j).subrange(lo, hi) =~= swapped(r, i - lo, j - lo));
    lemma_swap_permutes(r, i - lo, j - lo);
}

/// An element of a permutation of `s` is an element of `s`.
pub proof fn lemma_permutes_contains<T>(s: Seq<T>, t: Seq<T>, k: int) -> (j: int)
    requires
        permutes(s, t),
        0 <= k < t.len(),
    ensures
        0 <= j < s.len(),
        s[j] == t[k],
{
    broadcast use vstd::seq_lib::group_to_multiset_ensures;

    assert(t.contains(t[k]));
    assert(t.to_multiset().count(t[k]) > 0);
    assert(s.to_multiset().count(t[k]) > 0);
    assert(s.contains(t[k]));
    choose|j: int| 0 <= j < s.len() && s[j] == t[k]
}

/// The multiset of a concatenation of three parts is the sum of theirs.
pub proof fn lemma_permutes_concat3<T>(a1: Seq<T>, b1: Seq<T>, c1: Seq<T>, a2: Seq<T>, b2: Seq<T>, c2: Seq<T>)
    requires
        permutes(a1, a2),
        permutes(b1, b2),
        permutes(c1, c2),
    ensures
        permutes(a1 + b1 + c1, a2 + b2 + c2),
{
    vstd::seq_lib::lemma_multiset_commutative(a1, b1);
    vstd::seq_lib::lemma_multiset_commutative(a1 + b1, c1);
    vstd::seq_lib::lemma_multiset_commutative(a2, b2);
    vstd::seq_lib::lemma_multiset_commutative(a2 + b2, c2);
}

/// The stable merge of `l` and `r`: repeatedly the head of `r` when it is to be
/// placed before the head of `l`, else the head of `l`.
pub open spec fn merged<T>(lt: spec_fn(T, T) -> bool, l: Seq<T>, r: Seq<T>) -> Seq<T>
    decreases l.len() + r.len(),
{
    if l.len() == 0 {
        r
    } else if r.len() == 0 {
        l
    } else if precedes(lt, r[0], l[0]) {
        seq![r[0]] + merged(lt, l, r.drop_first())
    } else {
        seq![l[0]] + merged(lt, l.drop_first(), r)
    }
}

/// Merging two sorted sequences gives a sorted permutation of their
/// concatenation that keeps, within each rank, the elements of `l` before those of `r`.
pub proof fn lemma_merged<T>(lt: spec_fn(T, T) -> bool, l: Seq<T>, r: Seq<T>)
    requires
        strict_weak_order(lt),
        sorted_by(lt, l),
        sorted_by(lt, r),
    ensures
        permutes(l + r, merged(lt, l, r)),
        sorted_by(lt, merged(lt, l, r)),
        forall|x: T| #[trigger] merged(lt, l, r).filter(rank_of(lt, x))
            == l.filter(rank_of(lt, x)) + r.filter(rank_of(lt, x)),
    decreases l.len() + r.len(),
{
    let m = merged(lt, l, r);
    if l.len() == 0 {
        assert(l + r =~= r);
        assert forall|x: T| #[trigger] m.filter(rank_of(lt, x))
            == l.filter(rank_of(lt, x)) + r.filter(rank_of(lt, x)) by {
            Seq::filter_distributes_over_add(l, r, rank_of(lt, x));
        }
    } else if r.len() == 0 {
        assert(l + r =~= l);
        assert forall|x: T| #[trigger] m.filter(rank_of(lt, x))
            == l.filter(rank_of(lt, x)) + r.filter(rank_of(lt, x)) by {
            Seq::filter_distributes_over_add(l, r, rank_of(lt, x));
        }
    } else if precedes(lt, r[0], l[0]) {
        let r1 = r.drop_first();
        let x0 = r[0];
        let rest = merged(lt, l, r1);
        assert(sorted_by(lt, r1)) by {
            assert forall|i: int, j: int| 0 <= i < j < r1.len() implies !#[trigger] precedes(
                lt,
                r1[j],
                r1[i],
            ) by {
                assert(!precedes(lt, r[j + 1], r[i + 1]));
            }
        }
        lemma_merged(lt, l, r1);
        assert(m == seq![x0] + rest);
        assert forall|k: int| 0 <= k < rest.len() implies !#[trigger] precedes(lt, rest[k], x0) by {
            let j = lemma_permutes_contains(l + r1, rest, k);
            if j < l.len() {
                assert(!precedes(lt, l[j], l[0]) || j == 0);
            } else {
                assert(!precedes(lt, r[j - l.len() + 1], r[0]));
            }
        }
        assert forall|i: int, j: int| 0 <= i < j < m.len() implies !#[trigger] precedes(
            lt,
            m[j],
            m[i],
        ) by {
            if i == 0 {
                assert(m[j] == rest[j - 1]);
            } else {
                assert(m[j] == rest[j - 1] && m[i] == rest[i - 1]);
            }
        }
        assert(r =~= seq![x0] + r1);
        vstd::seq_lib::lemma_multiset_commutative(l, r);
        vstd::seq_lib::lemma_multiset_commutative(seq![x0], r1);
        vstd::seq_lib::lemma_multiset_commutative(l, r1);
        vstd::seq_lib::lemma_multiset_commutative(seq![x0], rest);
        vstd::seq_lib::lemma_multiset_commutative(seq![x0], l + r1);
        assert(permutes(l + r, m)) by {
            broadcast use vstd::multiset::group_multiset_axioms;

            assert((l + r).to_multiset() =~= m.to_multiset());
        }
        assert forall|x: T| #[trigger] m.filter(rank_of(lt, x))
            == l.filter(rank_of(lt, x)) + r.filter(rank_of(lt, x)) by {
            let f = rank_of(lt, x);
            rest.lemma_filter_prepend(x0, f);
            r1.lemma_filter_prepend(x0, f);
            assert(r.filter(f) == (if f(x0) { seq![x0] } else { Seq::empty() }) + r1.filter(f));
            if f(x0) {
                assert forall|i: int| 0 <= i < l.len() implies !f(#[trigger] l[i]) by {
                    if f(l[i]) {
                        lemma_same_rank_transitive(lt, l[i], x0, x);
                        if i > 0 {
                            assert(!precedes(lt, l[i], l[0]));
                        }
                    }
                }
                l.lemma_all_neg_filter_empty(f);
                assert(l.filter(f) =~= Seq::empty());
                assert(m.filter(f) =~= l.filter(f) + r.filter(f));
            } else {
                assert(m.filter(f) =~= l.filter(f) + r.filter(f));
            }
        }
    } else {
        let l1 = l.drop_first();
        let x0 = l[0];
        let rest = merged(lt, l1, r);
        assert(sorted_by(lt, l1)) by {
            assert forall|i: int, j: int| 0 <= i < j < l1.len() implies !#[trigger] precedes(
                lt,
                l1[j],
                l1[i],
            ) by {
                assert(!precedes(lt, l[j + 1], l[i + 1]));
            }
        }
        lemma_merged(lt, l1, r);
        assert(m == seq![x0] + rest);
        assert forall|k: int| 0 <= k < rest.len() implies !#[trigger] precedes(lt, rest[k], x0) by {
            let j = lemma_permutes_contains(l1 + r, rest, k);
            if j < l1.len() {
                assert(!precedes(lt, l[j + 1], l[0]));
            } else {
                assert(!precedes(lt, r[j - l1.len()], r[0]) || j == l1.len());
            }
        }
        assert forall|i: int, j: int| 0 <= i < j < m.len() implies !#[trigger] precedes(
            lt,
            m[j],
            m[i],
        ) by {
            if i == 0 {
                assert(m[j] == rest[j - 1]);
            } else {
                assert(m[j] == rest[j - 1] && m[i] == rest[i - 1]);
            }
        }
        assert(l + r =~= seq![x0] + (l1 + r));
        vstd::seq_lib::lemma_multiset_commutative(seq![x0], l1 + r);
        vstd::seq_lib::lemma_multiset_commutative(seq![x0], rest);
        assert forall|x: T| #[trigger] m.filter(rank_of(lt, x))
            == l.filter(rank_of(lt, x)) + r.filter(rank_of(lt, x)) by {
            let f = rank_of(lt, x);
            rest.lemma_filter_prepend(x0, f);
            l1.lemma_filter_prepend(x0, f);
            assert(l =~= seq![x0] + l1);
            assert(m.filter(f) =~= l.filter(f) + r.filter(f));
        }
    }
}

/// Two elements that each have the rank of `x` have the same rank.
pub proof fn lemma_same_rank_transitive<T>(lt: spec_fn(T, T) -> bool, a: T, b: T, x: T)
    requires
        strict_weak_order(lt),
        same_rank(lt, a, x),
        same_rank(lt, b, x),
    ensures
        same_rank(lt, a, b),
{
}

/// Exchanging two neighbours of different rank keeps the order within each rank.
pub proof fn lemma_swap_keeps_rank_order<T>(lt: spec_fn(T, T) -> bool, s: Seq<T>, i: int)
    requires
        strict_weak_order(lt),
        0 <= i,
        i + 1 < s.len(),
        precedes(lt, s[i + 1], s[i]),
    ensures
        keeps_rank_order(lt, s, swapped(s, i, i + 1)),
{
    let t = swapped(s, i, i + 1);
    let p = s.subrange(0, i);
    let q = s.subrange(i + 2, s.len() as int);
    let a = s[i];
    let b = s[i + 1];
    assert(s =~= p + seq![a, b] + q);
    assert(t =~= p + seq![b, a] + q);
    assert forall|x: T| #[trigger] t.filter(rank_of(lt, x)) == s.filter(rank_of(lt, x)) by {
        let f = rank_of(lt, x);
        Seq::filter_distributes_over_add(p + seq![a, b], q, f);
        Seq::filter_distributes_over_add(p, seq![a, b], f);
        Seq::filter_distributes_over_add(p + seq![b, a], q, f);
        Seq::filter_distributes_over_add(p, seq![b, a], f);
        reveal_with_fuel(Seq::filter, 3);
        assert(seq![a, b].drop_last() =~= seq![a]);
        assert(seq![b, a].drop_last() =~= seq![b]);
        assert(seq![a].drop_last() =~= Seq::<T>::empty());
        assert(seq![b].drop_last() =~= Seq::<T>::empty());
        if f(a) && f(b) {
            lemma_same_rank_transitive(lt, a, b, x);
        }
        assert(seq![a, b].filter(f) =~= seq![b, a].filter(f));
    }
}

} // verus!
