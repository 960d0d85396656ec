//! Order predicates, and what it means for a sequence to be sorted by one.
use core::cmp::Ordering;
use vstd::prelude::*;
use vstd::std_specs::cmp::PartialOrdSpec;

verus! {

/// The values of `T` take up memory. A sort leaves elements that take up none where they
/// are, and asks nothing about them.
pub open spec fn sized<T>() -> bool {
    vstd::layout::size_of::<T>() != 0
}

/// The predicate accepts every pair of elements of `s`.
pub open spec fn callable<T, F: Fn(&T, &T) -> bool>(is_less: &F, s: Seq<T>) -> bool {
    forall|a: T, b: T| s.contains(a) && s.contains(b) ==> #[trigger] is_less.requires((&a, &b))
}

/// What accepts the elements of a sequence accepts them in any arrangement.
pub proof fn lemma_callable_rearranged<T, F: Fn(&T, &T) -> bool>(
    is_less: &F,
    a: Seq<T>,
    b: Seq<T>,
)
    requires
        callable(is_less, a),
        a.to_multiset() == b.to_multiset(),
    ensures
        callable(is_less, b),
{
    assert forall|x: T, y: T| b.contains(x) && b.contains(y) implies #[trigger] is_less.requires(
        (&x, &y),
    ) by {
        vstd::seq_lib::to_multiset_contains(a, x);
        vstd::seq_lib::to_multiset_contains(b, x);
        vstd::seq_lib::to_multiset_contains(a, y);
        vstd::seq_lib::to_multiset_contains(b, y);
    }
}

/// What accepts the elements of a sequence accepts those of each part of it.
pub proof fn lemma_callable_part<T, F: Fn(&T, &T) -> bool>(
    is_less: &F,
    s: Seq<T>,
    lo: int,
    hi: int,
)
    requires
        callable(is_less, s),
        0 <= lo <= hi <= s.len(),
    ensures
        callable(is_less, s.subrange(lo, hi)),
{
    let part = s.subrange(lo, hi);
    assert forall|x: T, y: T|
        part.contains(x) && part.contains(y) implies #[trigger] is_less.requires((&x, &y)) by {
        let i = choose|i: int| 0 <= i < part.len() && part[i] == x;
        let j = choose|j: int| 0 <= j < part.len() && part[j] == y;
        assert(s[lo + i] == x);
        assert(s[lo + j] == y);
    }
}

/// The relation `lt` is what the predicate answers: whenever `is_less(a, b)` returns, it
/// returns `lt(a, b)`.
pub open spec fn computes<T, F: Fn(&T, &T) -> bool>(is_less: &F, lt: spec_fn(T, T) -> bool) -> bool {
    forall|a: T, b: T, r: bool| #[trigger] is_less.ensures((&a, &b), r) ==> r == lt(a, b)
}

/// `lt` is a strict weak order: nothing is before itself or both before and after another
/// element, and "not before" is transitive.
pub open spec fn strict_weak_order<T>(lt: spec_fn(T, T) -> bool) -> bool {
    &&& forall|a: T, b: T| #[trigger] lt(a, b) ==> !lt(b, a)
    &&& forall|a: T, b: T, c: T| !#[trigger] lt(a, b) && !#[trigger] lt(b, c) ==> !lt(a, c)
}

/// The predicate answers by `lt`, and `lt` is a strict weak order.
pub open spec fn orders<T, F: Fn(&T, &T) -> bool>(is_less: &F, lt: spec_fn(T, T) -> bool) -> bool {
    computes(is_less, lt) && strict_weak_order(lt)
}

/// The three-way comparator accepts every pair of elements of `s`.
pub open spec fn comparable<T, F: Fn(&T, &T) -> Ordering>(compare: &F, s: Seq<T>) -> bool {
    forall|a: T, b: T| s.contains(a) && s.contains(b) ==> #[trigger] compare.requires((&a, &b))
}

/// The relation `lt` is where the three-way comparator answers `Less`: whenever
/// `compare(a, b)` returns, it returns `Less` if `lt(a, b)` and something else if not.
pub open spec fn computes_three_way<T, F: Fn(&T, &T) -> Ordering>(
    compare: &F,
    lt: spec_fn(T, T) -> bool,
) -> bool {
    forall|a: T, b: T, o: Ordering| #[trigger]
        compare.ensures((&a, &b), o) ==> lt(a, b) == (o == Ordering::Less)
}

/// The three-way comparator answers by `lt`, and `lt` is a strict weak order.
pub open spec fn orders_three_way<T, F: Fn(&T, &T) -> Ordering>(
    compare: &F,
    lt: spec_fn(T, T) -> bool,
) -> bool {
    computes_three_way(compare, lt) && strict_weak_order(lt)
}

/// The key function accepts every element of `s`.
pub open spec fn extractable<T, K, F: Fn(&T) -> K>(f: &F, s: Seq<T>) -> bool {
    forall|a: T| s.contains(a) ==> #[trigger] f.requires((&a,))
}

/// `key` is what the key function answers: whenever `f(a)` returns, it returns `key(a)`.
pub open spec fn extracts<T, K, F: Fn(&T) -> K>(f: &F, key: spec_fn(T) -> K) -> bool {
    forall|a: T, k: K| #[trigger] f.ensures((&a,), k) ==> k == key(a)
}

/// The order of the elements by `<` on their keys.
pub open spec fn key_order<T, K: PartialOrd>(key: spec_fn(T) -> K) -> spec_fn(T, T) -> bool {
    |a: T, b: T| natural_order::<K>()(key(a), key(b))
}

/// The order that `<` gives to the values of `T`.
pub open spec fn natural_order<T: PartialOrd>() -> spec_fn(T, T) -> bool {
    |a: T, b: T| a.partial_cmp_spec(&b) == Some(Ordering::Less)
}

/// No element of `s` is ordered before one that stands earlier in `s`.
pub open spec fn sorted_by<T>(s: Seq<T>, lt: spec_fn(T, T) -> bool) -> bool {
    forall|i: int, j: int| 0 <= i < j < s.len() ==> !lt(#[trigger] s[j], #[trigger] s[i])
}

/// Elements of `s` of which neither is before the other are one and the same.
pub open spec fn ties_are_equal<T>(s: Seq<T>, lt: spec_fn(T, T) -> bool) -> bool {
    forall|a: T, b: T|
        s.contains(a) && s.contains(b) && !#[trigger] lt(a, b) && !lt(b, a) ==> a == b
}

/// Where ties among the elements are equal, a multiset of elements has only one sorted
/// arrangement: two sorted sequences of the same elements are the same sequence.
pub proof fn lemma_sorted_unique<T>(a: Seq<T>, b: Seq<T>, lt: spec_fn(T, T) -> bool)
    requires
        strict_weak_order(lt),
        ties_are_equal(a, lt),
        sorted_by(a, lt),
        sorted_by(b, lt),
        a.to_multiset() == b.to_multiset(),
    ensures
        a == b,
    decreases a.len(),
{
    a.to_multiset_ensures();
    b.to_multiset_ensures();
    if a.len() == 0 {
        assert(a =~= b);
    } else {
        let n = a.len() as int;
        let x = a[n - 1];
        let y = b[n - 1];
        assert(a.contains(x));
        vstd::seq_lib::to_multiset_contains(a, x);
        vstd::seq_lib::to_multiset_contains(b, x);
        let j = choose|j: int| 0 <= j < n && b[j] == x;
        assert(!lt(y, x)) by {
            if j < n - 1 {
                assert(!lt(b[n - 1], b[j]));
            }
        }
        assert(b.contains(y));
        vstd::seq_lib::to_multiset_contains(a, y);
        vstd::seq_lib::to_multiset_contains(b, y);
        let k = choose|k: int| 0 <= k < n && a[k] == y;
        assert(!lt(x, y)) by {
            if k < n - 1 {
                assert(!lt(a[n - 1], a[k]));
            }
        }
        assert(x == y);
        let a2 = a.drop_last();
        let b2 = b.drop_last();
        assert forall|p: T, q: T|
            a2.contains(p) && a2.contains(q) && !#[trigger] lt(p, q) && !lt(q, p) implies p
            == q by {
            let i = choose|i: int| 0 <= i < a2.len() && a2[i] == p;
            let j = choose|j: int| 0 <= j < a2.len() && a2[j] == q;
            assert(a[i] == p && a[j] == q);
        }
        vstd::seq_lib::to_multiset_remove(a, n - 1);
        vstd::seq_lib::to_multiset_remove(b, n - 1);
        assert(a.remove(n - 1) =~= a2);
        assert(b.remove(n - 1) =~= b2);
        assert forall|i: int, j: int| 0 <= i < j < a2.len() implies !lt(
            #[trigger] a2[j],
            #[trigger] a2[i],
        ) by {
            assert(a2[j] == a[j] && a2[i] == a[i]);
        }
        assert forall|i: int, j: int| 0 <= i < j < b2.len() implies !lt(
            #[trigger] b2[j],
            #[trigger] b2[i],
        ) by {
            assert(b2[j] == b[j] && b2[i] == b[i]);
        }
        lemma_sorted_unique(a2, b2, lt);
        assert(a =~= a2.push(x));
        assert(b =~= b2.push(y));
    }
}

/// `s` with the elements at `a` and `b` exchanged.
pub open spec fn exchanged<T>(s: Seq<T>, a: int, b: int) -> Seq<T> {
    s.update(a, s[b]).update(b, s[a])
}

/// Exchanging two elements keeps the multiset of elements.
pub proof fn lemma_exchanged_multiset<T>(s: Seq<T>, a: int, b: int)
    requires
        0 <= a < s.len(),
        0 <= b < s.len(),
    ensures
        exchanged(s, a, b).to_multiset() == s.to_multiset(),
{
    broadcast use vstd::seq_lib::to_multiset_update;
    broadcast use vstd::seq_lib::to_multiset_contains;
    let m = s.to_multiset();
    let s1 = s.update(a, s[b]);
    assert(s1.to_multiset() == m.insert(s[b]).remove(s[a]));
    assert(s1[b] == s[b] || a == b);
    assert(s.contains(s[a]));
    assert(s.contains(s[b]));
    assert(exchanged(s, a, b).to_multiset() =~= m);
}

/// Exchanges the elements at `a` and `b` with `<[T]>::swap`: afterwards each of the two
/// positions holds what the other held, and every other position is as it was. Both indices
/// are within the slice, so that `swap` does not panic; with `a == b` nothing changes.
///
/// This contract is what the documentation of `swap` says; it is assumed, not proved.
#[verifier::external_body]
pub(crate) fn swap_at<T>(v: &mut [T], a: usize, b: usize)
    requires
        a < old(v)@.len(),
        b < old(v)@.len(),
    ensures
        final(v)@ == exchanged(old(v)@, a as int, b as int),
{
    v.swap(a, b)
}

} // verus!
