//! Laws relating several runs of the sorts.
use vstd::prelude::*;
use vstd::laws_cmp::obeys_cmp;
use vstd::std_specs::cmp::PartialEqSpec;
use crate::order::{
    ascending, keeps_rank_order, lemma_natural_order, lemma_permutes_contains, nat_lt, permutes,
    precedes, rank_of, same_rank, sorted_by, strict_weak_order,
};

verus! {

/// An element of the same rank as `b` is ordered against `c` as `b` is.
proof fn lemma_rank_compat<T>(lt: spec_fn(T, T) -> bool, a: T, b: T, c: T)
    requires
        strict_weak_order(lt),
        same_rank(lt, a, b),
    ensures
        precedes(lt, b, c) ==> precedes(lt, a, c),
        precedes(lt, c, b) ==> precedes(lt, c, a),
{
}

/// A sorted sequence without its first element is sorted.
proof fn lemma_sorted_drop_first<T>(lt: spec_fn(T, T) -> bool, s: Seq<T>)
    requires
        sorted_by(lt, s),
        s.len() > 0,
    ensures
        sorted_by(lt, s.drop_first()),
{
    let d = s.drop_first();
    assert forall|i: int, j: int| 0 <= i < j < d.len() implies !#[trigger] precedes(lt, d[j], d[i]) by {
        assert(d[j] == s[j + 1] && d[i] == s[i + 1]);
    }
}

/// Two sorted sequences that hold the same elements in the same order within
/// every rank are equal.
pub proof fn lemma_sorted_same_rank_order_equal<T>(lt: spec_fn(T, T) -> bool, s: Seq<T>, t: Seq<T>)
    requires
        strict_weak_order(lt),
        sorted_by(lt, s),
        sorted_by(lt, t),
        keeps_rank_order(lt, s, t),
    ensures
        t == s,
    decreases s.len() + t.len(),
{
    if s.len() == 0 || t.len() == 0 {
        if t.len() > 0 {
            let f = rank_of(lt, t[0]);
            assert(t =~= seq![t[0]] + t.drop_first());
            t.drop_first().lemma_filter_prepend(t[0], f);
            assert(t.filter(f).len() > 0);
            assert(s.filter(f) == t.filter(f));
            s.lemma_filter_len(f);
        }
        if s.len() > 0 {
            let f = rank_of(lt, s[0]);
            assert(s =~= seq![s[0]] + s.drop_first());
            s.drop_first().lemma_filter_prepend(s[0], f);
            assert(s.filter(f).len() > 0);
            assert(s.filter(f) == t.filter(f));
            t.lemma_filter_len(f);
        }
        assert(s =~= t);
    } else {
        let a = s[0];
        let b = t[0];
        let s1 = s.drop_first();
        let t1 = t.drop_first();
        assert(s =~= seq![a] + s1);
        assert(t =~= seq![b] + t1);
        let fa = rank_of(lt, a);
        let fb = rank_of(lt, b);
        s1.lemma_filter_prepend(a, fa);
        t1.lemma_filter_prepend(b, fb);
        assert(same_rank(lt, b, a)) by {
            if precedes(lt, b, a) {
                assert(s.filter(fb) == t.filter(fb));
                assert(s.filter(fb).len() > 0);
                s.lemma_filter_pred(fb, 0);
                let y = s.filter(fb)[0];
                assert(fb(y));
                lemma_filter_member(s, fb, 0);
                let j = choose|j: int| 0 <= j < s.len() && s[j] == y;
                lemma_rank_compat(lt, y, b, a);
                if j > 0 {
                    assert(!precedes(lt, s[j], s[0]));
                }
            }
            if precedes(lt, a, b) {
                assert(s.filter(fa) == t.filter(fa));
                assert(t.filter(fa).len() > 0);
                t.lemma_filter_pred(fa, 0);
                let y = t.filter(fa)[0];
                assert(fa(y));
                lemma_filter_member(t, fa, 0);
                let j = choose|j: int| 0 <= j < t.len() && t[j] == y;
                lemma_rank_compat(lt, y, a, b);
                if j > 0 {
                    assert(!precedes(lt, t[j], t[0]));
                }
            }
        }
        assert(fa(b));
        t1.lemma_filter_prepend(b, fa);
        assert(t.filter(fa) == s.filter(fa));
        assert(t.filter(fa)[0] == b);
        assert(s.filter(fa)[0] == a);
        assert(a == b);
        assert forall|x: T| #[trigger] t1.filter(rank_of(lt, x)) == s1.filter(rank_of(lt, x)) by {
            let f = rank_of(lt, x);
            s1.lemma_filter_prepend(a, f);
            t1.lemma_filter_prepend(a, f);
            assert(t.filter(f) == s.filter(f));
            let p = if f(a) { seq![a] } else { Seq::<T>::empty() };
            assert(t1.filter(f) =~= (p + t1.filter(f)).subrange(p.len() as int, (p + t1.filter(f)).len() as int));
            assert(s1.filter(f) =~= (p + s1.filter(f)).subrange(p.len() as int, (p + s1.filter(f)).len() as int));
        }
        lemma_sorted_drop_first(lt, s);
        lemma_sorted_drop_first(lt, t);
        lemma_sorted_same_rank_order_equal(lt, s1, t1);
    }
}

/// The element at position `i` of `s.filter(f)` occurs in `s`.
proof fn lemma_filter_member<T>(s: Seq<T>, f: spec_fn(T) -> bool, i: int)
    requires
        0 <= i < s.filter(f).len(),
    ensures
        exists|j: int| 0 <= j < s.len() && s[j] == s.filter(f)[i],
    decreases s.len(),
{
    reveal(Seq::filter);
    if s.len() > 0 {
        let d = s.drop_last();
        if f(s.last()) && i == s.filter(f).len() - 1 {
            assert(s[s.len() - 1] == s.filter(f)[i]);
        } else {
            assert(s.filter(f)[i] == d.filter(f)[i]);
            lemma_filter_member(d, f, i);
            let j = choose|j: int| 0 <= j < d.len() && d[j] == d.filter(f)[i];
            assert(s[j] == d[j]);
        }
    }
}

/// A stable sort of an already sorted sequence returns it unchanged: any sorted
/// result that keeps the order within every rank is the input itself.
pub proof fn lemma_stable_sort_of_sorted<T>(lt: spec_fn(T, T) -> bool, s: Seq<T>, t: Seq<T>)
    requires
        strict_weak_order(lt),
        sorted_by(lt, s),
        sorted_by(lt, t),
        permutes(s, t),
        keeps_rank_order(lt, s, t),
    ensures
        t == s,
{
    lemma_sorted_same_rank_order_equal(lt, s, t);
}

/// Sorting twice with a stable sort gives what sorting once gave.
pub proof fn lemma_stable_sort_twice<T>(
    lt: spec_fn(T, T) -> bool,
    s: Seq<T>,
    once: Seq<T>,
    twice: Seq<T>,
)
    requires
        strict_weak_order(lt),
        sorted_by(lt, once),
        permutes(s, once),
        keeps_rank_order(lt, s, once),
        sorted_by(lt, twice),
        permutes(once, twice),
        keeps_rank_order(lt, once, twice),
    ensures
        twice == once,
{
    lemma_sorted_same_rank_order_equal(lt, once, twice);
}

/// Where elements of equal rank are equal values, two sorted sequences holding
/// the same elements are equal; so an unstable sort of a sorted sequence returns
/// it unchanged, and sorting twice gives what sorting once gave.
pub proof fn lemma_sorted_permutations_equal<T>(lt: spec_fn(T, T) -> bool, s: Seq<T>, t: Seq<T>)
    requires
        strict_weak_order(lt),
        forall|a: T, b: T| #[trigger] same_rank(lt, a, b) ==> a == b,
        sorted_by(lt, s),
        sorted_by(lt, t),
        permutes(s, t),
    ensures
        t == s,
    decreases s.len(),
{
    broadcast use vstd::seq_lib::group_to_multiset_ensures;

    assert(s.len() == s.to_multiset().len() && t.len() == t.to_multiset().len());
    if s.len() == 0 {
        assert(t.len() == 0);
        assert(s =~= t);
    } else {
        let a = s[0];
        let b = t[0];
        let jb = lemma_permutes_contains(s, t, 0);
        let ja = lemma_permutes_contains(t, s, 0);
        if jb > 0 {
            assert(!precedes(lt, s[jb], s[0]));
        }
        if ja > 0 {
            assert(!precedes(lt, t[ja], t[0]));
        }
        assert(same_rank(lt, a, b));
        assert(a == b);
        assert(s.remove(0) =~= s.drop_first());
        assert(t.remove(0) =~= t.drop_first());
        assert(permutes(s.drop_first(), t.drop_first()));
        lemma_sorted_drop_first(lt, s);
        lemma_sorted_drop_first(lt, t);
        lemma_sorted_permutations_equal(lt, s.drop_first(), t.drop_first());
        assert(s =~= seq![a] + s.drop_first());
        assert(t =~= seq![a] + t.drop_first());
    }
}

/// In the natural order of a type whose `==` is identity, two ascending
/// sequences holding the same elements are equal; so sorting an ascending
/// sequence by selection returns it unchanged, and sorting twice gives what
/// sorting once gave.
pub proof fn lemma_ascending_permutations_equal<T: Ord>(s: Seq<T>, t: Seq<T>)
    requires
        obeys_cmp::<T>(),
        forall|a: T, b: T| #[trigger] a.eq_spec(&b) ==> a == b,
        ascending(s),
        ascending(t),
        permutes(s, t),
    ensures
        t == s,
    decreases s.len(),
{
    broadcast use vstd::seq_lib::group_to_multiset_ensures;

    lemma_natural_order::<T>();
    assert(s.len() == s.to_multiset().len() && t.len() == t.to_multiset().len());
    if s.len() == 0 {
        assert(s =~= t);
    } else {
        let a = s[0];
        let b = t[0];
        let jb = lemma_permutes_contains(s, t, 0);
        let ja = lemma_permutes_contains(t, s, 0);
        if jb > 0 {
            assert(!nat_lt(s[jb], s[0]));
        }
        if ja > 0 {
            assert(!nat_lt(t[ja], t[0]));
        }
        assert(!nat_lt(a, b) && !nat_lt(b, a));
        assert(a.eq_spec(&b));
        assert(a == b);
        assert(s.remove(0) =~= s.drop_first());
        assert(t.remove(0) =~= t.drop_first());
        assert(permutes(s.drop_first(), t.drop_first()));
        let s1 = s.drop_first();
        let t1 = t.drop_first();
        assert forall|i: int, j: int| 0 <= i < j < s1.len() implies !#[trigger] nat_lt(s1[j], s1[i]) by {
            assert(s1[j] == s[j + 1] && s1[i] == s[i + 1]);
        }
        assert forall|i: int, j: int| 0 <= i < j < t1.len() implies !#[trigger] nat_lt(t1[j], t1[i]) by {
            assert(t1[j] == t[j + 1] && t1[i] == t[i + 1]);
        }
        lemma_ascending_permutations_equal(s1, t1);
        assert(s =~= seq![a] + s1);
        assert(t =~= seq![a] + t1);
    }
}

} // verus!
