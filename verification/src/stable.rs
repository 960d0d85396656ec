//! Top-down merge sort: elements of which neither is before the other keep their order.
use crate::order::{
    callable, comparable, computes, computes_three_way, exchanged, extractable, extracts,
    key_order, lemma_callable_part, lemma_callable_rearranged, lemma_exchanged_multiset, natural_order, orders, orders_three_way, sorted_by,
    sized, strict_weak_order, swap_at,
};
use core::cmp::Ordering;
use vstd::prelude::*;
use vstd::std_specs::cmp::PartialOrdSpec;

verus! {

/// The elements that `lt` puts neither before nor after `x`.
pub open spec fn tied_with<T>(lt: spec_fn(T, T) -> bool, x: T) -> spec_fn(T) -> bool {
    |y: T| !lt(x, y) && !lt(y, x)
}

/// Whatever element is taken, the elements tied with it stand in `a` in the order in which
/// they stand in `b`.
pub open spec fn same_ties<T>(a: Seq<T>, b: Seq<T>, lt: spec_fn(T, T) -> bool) -> bool {
    forall|x: T| #[trigger] a.filter(tied_with(lt, x)) == b.filter(tied_with(lt, x))
}

/// The two-way merge: the next element is the first of `right` where that is before the first
/// of `left`, and the first of `left` otherwise.
pub open spec fn merged<T>(left: Seq<T>, right: Seq<T>, lt: spec_fn(T, T) -> bool) -> Seq<T>
    decreases left.len() + right.len(),
{
    if left.len() == 0 {
        right
    } else if right.len() == 0 {
        left
    } else if lt(right[0], left[0]) {
        seq![right[0]] + merged(left, right.skip(1), lt)
    } else {
        seq![left[0]] + merged(left.skip(1), right, lt)
    }
}

/// What the merge sort makes of `s`: the halves are sorted and merged, a pair is exchanged
/// where its second element is before its first.
pub open spec fn merge_sorted<T>(s: Seq<T>, lt: spec_fn(T, T) -> bool) -> Seq<T>
    decreases s.len(),
{
    if s.len() > 2 {
        let mid = s.len() as int / 2;
        merged(
            merge_sorted(s.subrange(0, mid), lt),
            merge_sorted(s.subrange(mid, s.len() as int), lt),
            lt,
        )
    } else if s.len() == 2 && lt(s[1], s[0]) {
        seq![s[1], s[0]]
    } else {
        s
    }
}

/// A merge has the elements of its two inputs.
pub proof fn lemma_merged_elements<T>(left: Seq<T>, right: Seq<T>, lt: spec_fn(T, T) -> bool)
    ensures
        merged(left, right, lt).len() == left.len() + right.len(),
        forall|k: int|
            0 <= k < merged(left, right, lt).len() ==> left.contains(
                #[trigger] merged(left, right, lt)[k],
            ) || right.contains(merged(left, right, lt)[k]),
    decreases left.len() + right.len(),
{
    let m = merged(left, right, lt);
    if left.len() == 0 || right.len() == 0 {
    } else if lt(right[0], left[0]) {
        let rest = merged(left, right.skip(1), lt);
        lemma_merged_elements(left, right.skip(1), lt);
        assert forall|k: int| 0 <= k < m.len() implies left.contains(#[trigger] m[k])
            || right.contains(m[k]) by {
            if k > 0 {
                assert(m[k] == rest[k - 1]);
                if right.skip(1).contains(rest[k - 1]) {
                    let j = choose|j: int| 0 <= j < right.skip(1).len() && right.skip(1)[j] == rest[k - 1];
                    assert(right[j + 1] == m[k]);
                }
            } else {
                assert(right[0] == m[k]);
            }
        }
    } else {
        let rest = merged(left.skip(1), right, lt);
        lemma_merged_elements(left.skip(1), right, lt);
        assert forall|k: int| 0 <= k < m.len() implies left.contains(#[trigger] m[k])
            || right.contains(m[k]) by {
            if k > 0 {
                assert(m[k] == rest[k - 1]);
                if left.skip(1).contains(rest[k - 1]) {
                    let j = choose|j: int| 0 <= j < left.skip(1).len() && left.skip(1)[j] == rest[k - 1];
                    assert(left[j + 1] == m[k]);
                }
            } else {
                assert(left[0] == m[k]);
            }
        }
    }
}

/// The merge of two sorted sequences is sorted.
pub proof fn lemma_merged_sorted<T>(left: Seq<T>, right: Seq<T>, lt: spec_fn(T, T) -> bool)
    requires
        strict_weak_order(lt),
        sorted_by(left, lt),
        sorted_by(right, lt),
    ensures
        sorted_by(merged(left, right, lt), lt),
    decreases left.len() + right.len(),
{
    let m = merged(left, right, lt);
    if left.len() == 0 || right.len() == 0 {
    } else {
        let take_right = lt(right[0], left[0]);
        let l2 = if take_right { left } else { left.skip(1) };
        let r2 = if take_right { right.skip(1) } else { right };
        let head = if take_right { right[0] } else { left[0] };
        let rest = merged(l2, r2, lt);
        assert(m == seq![head] + rest);
        lemma_merged_sorted(l2, r2, lt);
        lemma_merged_elements(l2, r2, lt);
        assert(!lt(left[0], head));
        assert(!lt(right[0], head));
        assert forall|i: int, j: int| 0 <= i < j < m.len() implies !lt(
            #[trigger] m[j],
            #[trigger] m[i],
        ) by {
            assert(m[j] == rest[j - 1]);
            if i == 0 {
                if l2.contains(rest[j - 1]) {
                    let k = choose|k: int| 0 <= k < l2.len() && l2[k] == rest[j - 1];
                    let k0 = if take_right { k } else { k + 1 };
                    assert(left[k0] == m[j]);
                    assert(!lt(left[k0], left[0]));
                } else {
                    let k = choose|k: int| 0 <= k < r2.len() && r2[k] == rest[j - 1];
                    let k0 = if take_right { k + 1 } else { k };
                    assert(right[k0] == m[j]);
                    assert(!lt(right[k0], right[0]));
                }
            } else {
                assert(m[i] == rest[i - 1]);
            }
        }
    }
}

/// Where nothing in `s` satisfies `p`, the filter leaves nothing.
proof fn lemma_filter_nothing<T>(s: Seq<T>, p: spec_fn(T) -> bool)
    requires
        forall|k: int| 0 <= k < s.len() ==> !p(#[trigger] s[k]),
    ensures
        s.filter(p) == Seq::<T>::empty(),
    decreases s.len(),
{
    reveal(Seq::filter);
    if s.len() > 0 {
        lemma_filter_nothing(s.drop_last(), p);
    }
}

/// In the merge of two sorted sequences, the elements tied with `x` are those of the left
/// input, in their order, and then those of the right input, in theirs.
pub proof fn lemma_merged_ties<T>(left: Seq<T>, right: Seq<T>, lt: spec_fn(T, T) -> bool, x: T)
    requires
        strict_weak_order(lt),
        sorted_by(left, lt),
        sorted_by(right, lt),
    ensures
        merged(left, right, lt).filter(tied_with(lt, x)) == left.filter(tied_with(lt, x))
            + right.filter(tied_with(lt, x)),
    decreases left.len() + right.len(),
{
    broadcast use Seq::lemma_filter_prepend;
    let p = tied_with(lt, x);
    let m = merged(left, right, lt);
    if left.len() == 0 {
        lemma_filter_nothing(left, p);
        assert(left.filter(p) + right.filter(p) =~= right.filter(p));
    } else if right.len() == 0 {
        lemma_filter_nothing(right, p);
        assert(left.filter(p) + right.filter(p) =~= left.filter(p));
    } else if lt(right[0], left[0]) {
        let b = right[0];
        lemma_merged_ties(left, right.skip(1), lt, x);
        assert(right =~= seq![b] + right.skip(1));
        if p(b) {
            assert forall|k: int| 0 <= k < left.len() implies !p(#[trigger] left[k]) by {
                assert(!lt(left[k], left[0]));
                if !lt(x, left[k]) {
                    assert(!lt(x, left[0]));
                    assert(!lt(b, left[0]));
                }
            }
            lemma_filter_nothing(left, p);
        }
        assert(m.filter(p) =~= left.filter(p) + right.filter(p));
    } else {
        let a = left[0];
        lemma_merged_ties(left.skip(1), right, lt, x);
        assert(left =~= seq![a] + left.skip(1));
        assert(m.filter(p) =~= left.filter(p) + right.filter(p));
    }
}

/// Merging the two parts of a sorted sequence gives the sequence back.
pub proof fn lemma_merged_of_sorted<T>(left: Seq<T>, right: Seq<T>, lt: spec_fn(T, T) -> bool)
    requires
        sorted_by(left + right, lt),
    ensures
        merged(left, right, lt) == left + right,
    decreases left.len() + right.len(),
{
    let s = left + right;
    if left.len() == 0 {
        assert(s =~= right);
    } else if right.len() == 0 {
        assert(s =~= left);
    } else {
        assert(s[0] == left[0]);
        assert(s[left.len() as int] == right[0]);
        let rest = left.skip(1) + right;
        assert forall|i: int, j: int| 0 <= i < j < rest.len() implies !lt(
            #[trigger] rest[j],
            #[trigger] rest[i],
        ) by {
            assert(rest[j] == s[j + 1]);
            assert(rest[i] == s[i + 1]);
        }
        lemma_merged_of_sorted(left.skip(1), right, lt);
        assert(s =~= seq![left[0]] + rest);
    }
}

/// The filter of a pair keeps each of the two that satisfies `p`, in their order.
proof fn lemma_filter_pair<T>(a: T, b: T, p: spec_fn(T) -> bool)
    ensures
        seq![a, b].filter(p) == (if p(a) {
            seq![a]
        } else {
            Seq::empty()
        }) + (if p(b) {
            seq![b]
        } else {
            Seq::empty()
        }),
{
    broadcast use Seq::lemma_filter_prepend;
    let none = Seq::<T>::empty();
    lemma_filter_nothing(none, p);
    assert(seq![a, b] =~= seq![a] + (seq![b] + none));
    assert(seq![a, b].filter(p) == (if p(a) { seq![a] } else { none }) + (seq![b] + none).filter(p));
    assert((seq![b] + none).filter(p) =~= (if p(b) { seq![b] } else { none }));
}

/// Under a strict weak order the merge sort gives a sorted sequence in which tied elements
/// stand in the order that they had.
pub proof fn lemma_merge_sorted_stable<T>(s: Seq<T>, lt: spec_fn(T, T) -> bool)
    requires
        strict_weak_order(lt),
    ensures
        sorted_by(merge_sorted(s, lt), lt),
        same_ties(merge_sorted(s, lt), s, lt),
    decreases s.len(),
{
    let out = merge_sorted(s, lt);
    if s.len() > 2 {
        let mid = s.len() as int / 2;
        let a = s.subrange(0, mid);
        let b = s.subrange(mid, s.len() as int);
        let a2 = merge_sorted(a, lt);
        let b2 = merge_sorted(b, lt);
        lemma_merge_sorted_stable(a, lt);
        lemma_merge_sorted_stable(b, lt);
        lemma_merged_sorted(a2, b2, lt);
        assert(s =~= a + b);
        assert forall|x: T| #[trigger]
            out.filter(tied_with(lt, x)) == s.filter(tied_with(lt, x)) by {
            let p = tied_with(lt, x);
            lemma_merged_ties(a2, b2, lt, x);
            assert(a2.filter(p) == a.filter(p));
            assert(b2.filter(p) == b.filter(p));
            Seq::filter_distributes_over_add(a, b, p);
        }
    } else if s.len() == 2 && lt(s[1], s[0]) {
        assert(s =~= seq![s[0], s[1]]);
        assert forall|x: T| #[trigger]
            out.filter(tied_with(lt, x)) == s.filter(tied_with(lt, x)) by {
            let p = tied_with(lt, x);
            lemma_filter_pair(s[0], s[1], p);
            lemma_filter_pair(s[1], s[0], p);
            if p(s[0]) && p(s[1]) {
                assert(!lt(s[1], x));
                assert(!lt(x, s[0]));
            }
            assert(out.filter(p) =~= s.filter(p));
        }
    } else {
    }
}

/// The merge sort leaves a sorted sequence as it is.
pub proof fn lemma_merge_sorted_of_sorted<T>(s: Seq<T>, lt: spec_fn(T, T) -> bool)
    requires
        sorted_by(s, lt),
    ensures
        merge_sorted(s, lt) == s,
    decreases s.len(),
{
    if s.len() > 2 {
        let mid = s.len() as int / 2;
        let a = s.subrange(0, mid);
        let b = s.subrange(mid, s.len() as int);
        assert forall|i: int, j: int| 0 <= i < j < a.len() implies !lt(
            #[trigger] a[j],
            #[trigger] a[i],
        ) by {
            assert(a[j] == s[j] && a[i] == s[i]);
        }
        assert forall|i: int, j: int| 0 <= i < j < b.len() implies !lt(
            #[trigger] b[j],
            #[trigger] b[i],
        ) by {
            assert(b[j] == s[mid + j] && b[i] == s[mid + i]);
        }
        lemma_merge_sorted_of_sorted(a, lt);
        lemma_merge_sorted_of_sorted(b, lt);
        assert(s =~= a + b);
        lemma_merged_of_sorted(a, b, lt);
    }
}

/// Sorting what is sorted already changes nothing, and sorting twice is sorting once.
pub proof fn lemma_merge_sorted_twice<T>(s: Seq<T>, lt: spec_fn(T, T) -> bool)
    requires
        strict_weak_order(lt),
    ensures
        merge_sorted(merge_sorted(s, lt), lt) == merge_sorted(s, lt),
{
    lemma_merge_sorted_stable(s, lt);
    lemma_merge_sorted_of_sorted(merge_sorted(s, lt), lt);
}

/// The positions below `n` that do not hold their own index.
spec fn unplaced(pos: Seq<usize>, n: int) -> Set<int> {
    Set::new(|k: int| 0 <= k < n && pos[k] != k)
}

/// Moves every element of `v` to the position that `pos` gives for it, by exchanges alone.
/// `pos` ends as the identity.
fn place<T>(v: &mut [T], pos: &mut Vec<usize>, Ghost(target): Ghost<Seq<T>>)
    requires
        old(pos)@.len() >= old(v)@.len(),
        target.len() == old(v)@.len(),
        forall|k: int|
            0 <= k < old(v)@.len() ==> #[trigger] old(pos)@[k] < old(v)@.len()
                && target[old(pos)@[k] as int] == old(v)@[k],
        forall|j: int, k: int|
            0 <= j < k < old(v)@.len() ==> #[trigger] old(pos)@[j] != #[trigger] old(pos)@[k],
    ensures
        final(v)@ == target,
        final(pos)@.len() == old(pos)@.len(),
        final(v)@.to_multiset() == old(v)@.to_multiset(),
{
    let len: usize = v.len();
    let ghost s0 = v@;
    let ghost cap = pos@.len();
    let mut i: usize = 0;
    while i < len
        invariant
            len == v@.len(),
            len == target.len(),
            pos@.len() == cap,
            cap >= len,
            i <= len,
            v@.to_multiset() == s0.to_multiset(),
            forall|k: int|
                0 <= k < len ==> #[trigger] pos@[k] < len && target[pos@[k] as int] == v@[k],
            forall|j: int, k: int| 0 <= j < k < len ==> #[trigger] pos@[j] != #[trigger] pos@[k],
            forall|k: int| 0 <= k < i ==> #[trigger] pos@[k] == k,
        decreases len - i, unplaced(pos@, len as int).len(),
    {
        let j: usize = pos[i];
        if j == i {
            i += 1;
        } else {
            let ghost p1 = pos@;
            let ghost s1 = v@;
            assert(p1[j as int] != p1[i as int]);
            swap_at(v, i, j);
            let onward: usize = pos[j];
            pos.set(i, onward);
            pos.set(j, j);
            proof {
                lemma_exchanged_multiset(s1, i as int, j as int);
                let n = len as int;
                let u1 = unplaced(p1, n);
                let u2 = unplaced(pos@, n);
                vstd::set_lib::lemma_int_range(0, n);
                assert(u1.subset_of(vstd::set_lib::set_int_range(0, n)));
                vstd::set_lib::lemma_len_subset(u1, vstd::set_lib::set_int_range(0, n));
                assert(u1.contains(j as int));
                assert(u2.subset_of(u1.remove(j as int)));
                vstd::set_lib::lemma_len_subset(u2, u1.remove(j as int));
            }
        }
    }
    assert forall|k: int| 0 <= k < len implies v@[k] == target[k] by {
        assert(pos@[k] == k);
    }
    assert(v@ =~= target);
}

/// Exchanges the elements at `a` and `b` where `should_swap` holds, and leaves `v` as it is
/// otherwise. The same exchange runs in both cases: `should_swap` only selects its second
/// position.
pub fn branchless_swap<T>(v: &mut [T], a: usize, b: usize, should_swap: bool)
    requires
        a < old(v)@.len(),
        b < old(v)@.len(),
    ensures
        final(v)@ == (if should_swap {
            exchanged(old(v)@, a as int, b as int)
        } else {
            old(v)@
        }),
{
    let other: usize = if should_swap {
        b
    } else {
        a
    };
    swap_at(v, a, other);
    assert(exchanged(old(v)@, a as int, a as int) =~= old(v)@);
}

/// The elements taken so far, `s[..l]` and `s[mid..r]`, make up `m`: for each of them `pos`
/// holds the place in `m` where it stands, and no two of them have the same place.
spec fn recorded<T>(pos: Seq<usize>, m: Seq<T>, s: Seq<T>, l: int, mid: int, r: int) -> bool {
    &&& forall|k: int|
        (0 <= k < l || mid <= k < r) ==> #[trigger] pos[k] < m.len() && m[pos[k] as int] == s[k]
    &&& forall|j: int, k: int|
        (0 <= j < l || mid <= j < r) && (0 <= k < l || mid <= k < r) && j != k
            ==> #[trigger] pos[j] != #[trigger] pos[k]
}

/// Merges the sorted runs `v[..mid]` and `v[mid..]`.
///
/// `scratch` receives, for each element, the position that the merge gives it; the elements
/// are then moved there by exchanges. On a tie the element of the left run comes first.
pub fn merge<T, F: Fn(&T, &T) -> bool>(
    v: &mut [T],
    scratch: &mut Vec<usize>,
    is_less: &F,
    mid: usize,
)
    requires
        0 < mid < old(v)@.len(),
        old(scratch)@.len() >= old(v)@.len(),
        callable(is_less, old(v)@),
    ensures
        final(v)@.len() == old(v)@.len(),
        final(scratch)@.len() == old(scratch)@.len(),
        final(v)@.to_multiset() == old(v)@.to_multiset(),
        forall|lt: spec_fn(T, T) -> bool| #[trigger]
            computes(is_less, lt) ==> final(v)@ == merged(
                old(v)@.subrange(0, mid as int),
                old(v)@.subrange(mid as int, old(v)@.len() as int),
                lt,
            ),
{
    let len: usize = v.len();
    let ghost s0 = v@;
    let ghost left = s0.subrange(0, mid as int);
    let ghost right = s0.subrange(mid as int, len as int);
    let ghost cap = scratch@.len();
    let ghost mut m: Seq<T> = Seq::empty();
    let mut l: usize = 0;
    let mut r: usize = mid;
    let mut i: usize = 0;
    proof {
        assert(left.skip(0) =~= left);
        assert(right.skip(0) =~= right);
        assert forall|lt: spec_fn(T, T) -> bool|
            m + merged(left.skip(0), right.skip(0), lt) == #[trigger] merged(left, right, lt) by {
            assert(m + merged(left, right, lt) =~= merged(left, right, lt));
        }
    }
    // Take from the two runs in turn until one of them is used up.
    while l < mid && r < len
        invariant
            v@ == s0,
            len == s0.len(),
            0 < mid < len,
            left == s0.subrange(0, mid as int),
            right == s0.subrange(mid as int, len as int),
            scratch@.len() == cap,
            cap >= len,
            callable(is_less, s0),
            l <= mid <= r <= len,
            i == l + (r - mid),
            m.len() == i,
            recorded(scratch@, m, s0, l as int, mid as int, r as int),
            forall|lt: spec_fn(T, T) -> bool| #[trigger]
                computes(is_less, lt) ==> m + merged(
                    left.skip(l as int),
                    right.skip(r - mid),
                    lt,
                ) == merged(left, right, lt),
        decreases len - i,
    {
        let ghost m1 = m;
        let right_first: bool = is_less(&v[r], &v[l]);
        proof {
            assert forall|lt: spec_fn(T, T) -> bool| #[trigger]
                computes(is_less, lt) implies m1 + (if right_first {
                seq![s0[r as int]] + merged(left.skip(l as int), right.skip(r - mid + 1), lt)
            } else {
                seq![s0[l as int]] + merged(left.skip(l + 1), right.skip(r - mid), lt)
            }) == merged(left, right, lt) by {
                let a = left.skip(l as int);
                let b = right.skip(r - mid);
                assert(a[0] == s0[l as int]);
                assert(b[0] == s0[r as int]);
                assert(lt(b[0], a[0]) == right_first);
                assert(a.skip(1) =~= left.skip(l + 1));
                assert(b.skip(1) =~= right.skip(r - mid + 1));
            }
        }
        if right_first {
            scratch.set(r, i);
            proof {
                m = m.push(s0[r as int]);
            }
            r += 1;
        } else {
            scratch.set(l, i);
            proof {
                m = m.push(s0[l as int]);
            }
            l += 1;
        }
        i += 1;
        proof {
            assert forall|lt: spec_fn(T, T) -> bool| #[trigger]
                computes(is_less, lt) implies m + merged(
                left.skip(l as int),
                right.skip(r - mid),
                lt,
            ) == merged(left, right, lt) by {
                let rest = merged(left.skip(l as int), right.skip(r - mid), lt);
                assert(m + rest =~= m1 + (seq![m[i - 1]] + rest));
            }
        }
    }
    // One run is used up: what is left of the other follows as it stands.
    while l < mid
        invariant
            v@ == s0,
            len == s0.len(),
            0 < mid < len,
            left == s0.subrange(0, mid as int),
            right == s0.subrange(mid as int, len as int),
            scratch@.len() == cap,
            cap >= len,
            l <= mid <= r <= len,
            l < mid ==> r == len,
            i == l + (r - mid),
            m.len() == i,
            recorded(scratch@, m, s0, l as int, mid as int, r as int),
            forall|lt: spec_fn(T, T) -> bool| #[trigger]
                computes(is_less, lt) ==> m + merged(
                    left.skip(l as int),
                    right.skip(r - mid),
                    lt,
                ) == merged(left, right, lt),
        decreases mid - l,
    {
        let ghost m1 = m;
        scratch.set(l, i);
        proof {
            m = m.push(s0[l as int]);
            assert forall|lt: spec_fn(T, T) -> bool| #[trigger]
                computes(is_less, lt) implies m + merged(
                left.skip(l + 1),
                right.skip(r - mid),
                lt,
            ) == merged(left, right, lt) by {
                let a = left.skip(l as int);
                let b = right.skip(r - mid);
                assert(b.len() == 0);
                assert(merged(a, b, lt) == a);
                assert(merged(left.skip(l + 1), b, lt) =~= left.skip(l + 1));
                assert(m + left.skip(l + 1) =~= m1 + a);
            }
        }
        l += 1;
        i += 1;
    }
    while r < len
        invariant
            v@ == s0,
            len == s0.len(),
            0 < mid < len,
            left == s0.subrange(0, mid as int),
            right == s0.subrange(mid as int, len as int),
            scratch@.len() == cap,
            cap >= len,
            l == mid,
            mid <= r <= len,
            i == l + (r - mid),
            m.len() == i,
            recorded(scratch@, m, s0, l as int, mid as int, r as int),
            forall|lt: spec_fn(T, T) -> bool| #[trigger]
                computes(is_less, lt) ==> m + merged(
                    left.skip(l as int),
                    right.skip(r - mid),
                    lt,
                ) == merged(left, right, lt),
        decreases len - r,
    {
        let ghost m1 = m;
        scratch.set(r, i);
        proof {
            m = m.push(s0[r as int]);
            assert forall|lt: spec_fn(T, T) -> bool| #[trigger]
                computes(is_less, lt) implies m + merged(
                left.skip(l as int),
                right.skip(r - mid + 1),
                lt,
            ) == merged(left, right, lt) by {
                let a = left.skip(l as int);
                let b = right.skip(r - mid);
                assert(a.len() == 0);
                assert(merged(a, b, lt) == b);
                assert(merged(a, right.skip(r - mid + 1), lt) == right.skip(r - mid + 1));
                assert(m + right.skip(r - mid + 1) =~= m1 + b);
            }
        }
        r += 1;
        i += 1;
    }
    proof {
        assert forall|lt: spec_fn(T, T) -> bool| #[trigger]
            computes(is_less, lt) implies m == merged(left, right, lt) by {
            assert(merged(left.skip(l as int), right.skip(r - mid), lt).len() == 0);
            assert(m + merged(left.skip(l as int), right.skip(r - mid), lt) =~= m);
        }
    }
    place(v, scratch, Ghost(m));
}

/// Sorts `v` by the recursive merge sort, with `scratch` as the working memory of every
/// merge.
pub fn mergesort_core<T, F: Fn(&T, &T) -> bool>(
    v: &mut [T],
    scratch: &mut Vec<usize>,
    is_less: &F,
)
    requires
        old(scratch)@.len() >= old(v)@.len(),
        old(v)@.len() >= 2 ==> callable(is_less, old(v)@),
    ensures
        final(v)@.len() == old(v)@.len(),
        final(scratch)@.len() == old(scratch)@.len(),
        final(v)@.to_multiset() == old(v)@.to_multiset(),
        old(v)@.len() < 2 ==> final(v)@ == old(v)@,
        forall|lt: spec_fn(T, T) -> bool| #[trigger]
            computes(is_less, lt) ==> final(v)@ == merge_sorted(old(v)@, lt),
    decreases old(v)@.len(),
{
    let len: usize = v.len();
    let ghost s0 = v@;
    if len > 2 {
        let mid: usize = len / 2;
        let ghost a = s0.subrange(0, mid as int);
        let ghost b = s0.subrange(mid as int, len as int);
        proof {
            lemma_callable_part(is_less, s0, 0, mid as int);
            lemma_callable_part(is_less, s0, mid as int, len as int);
        }
        let (left, right) = v.split_at_mut(mid);
        mergesort_core(left, scratch, is_less);
        mergesort_core(right, scratch, is_less);
        let ghost a2 = left@;
        let ghost b2 = right@;
        proof {
            assert(s0 =~= a + b);
            vstd::seq_lib::lemma_multiset_commutative(a, b);
            vstd::seq_lib::lemma_multiset_commutative(a2, b2);
            lemma_callable_rearranged(is_less, s0, a2 + b2);
            assert((a2 + b2).subrange(0, mid as int) =~= a2);
            assert((a2 + b2).subrange(mid as int, len as int) =~= b2);
        }
        merge(v, scratch, is_less, mid);
    } else if len == 2 {
        let should_swap: bool = is_less(&v[1], &v[0]);
        branchless_swap(v, 1, 0, should_swap);
        proof {
            lemma_exchanged_multiset(s0, 1, 0);
            assert(exchanged(s0, 1, 0) =~= seq![s0[1], s0[0]]);
        }
    }
}

/// Sorts `v` by the merge sort, with working memory of its own.
pub fn mergesort_main<T, F: Fn(&T, &T) -> bool>(v: &mut [T], is_less: &F)
    requires
        old(v)@.len() >= 2 ==> callable(is_less, old(v)@),
    ensures
        final(v)@.len() == old(v)@.len(),
        final(v)@.to_multiset() == old(v)@.to_multiset(),
        old(v)@.len() < 2 ==> final(v)@ == old(v)@,
        forall|lt: spec_fn(T, T) -> bool| #[trigger]
            computes(is_less, lt) ==> final(v)@ == merge_sorted(old(v)@, lt),
{
    let mut scratch: Vec<usize> = vec![0usize; v.len()];
    mergesort_core(v, &mut scratch, is_less);
}

/// `new` is `old` sorted by `lt` with ties kept in order; it is `old` itself where that was
/// sorted already.
pub open spec fn stably_sorted<T>(old: Seq<T>, new: Seq<T>, lt: spec_fn(T, T) -> bool) -> bool {
    &&& sorted_by(new, lt)
    &&& same_ties(new, old, lt)
    &&& sorted_by(old, lt) ==> new == old
}

/// Sorts `v` by the predicate; elements of which neither is before the other keep their
/// order. A slice of fewer than two elements, or of elements that take up no memory, is left
/// alone, and the predicate is not asked.
pub fn stable_sort<T, F: Fn(&T, &T) -> bool>(v: &mut [T], is_less: &F)
    requires
        sized::<T>() && old(v)@.len() >= 2 ==> callable(is_less, old(v)@),
    ensures
        final(v)@.len() == old(v)@.len(),
        final(v)@.to_multiset() == old(v)@.to_multiset(),
        old(v)@.len() < 2 || !sized::<T>() ==> final(v)@ == old(v)@,
        forall|lt: spec_fn(T, T) -> bool| #[trigger]
            computes(is_less, lt) && sized::<T>() ==> final(v)@ == merge_sorted(old(v)@, lt),
        forall|lt: spec_fn(T, T) -> bool| #[trigger]
            orders(is_less, lt) && sized::<T>() ==> stably_sorted(old(v)@, final(v)@, lt),
{
    if core::mem::size_of::<T>() == 0 {
        return ;
    }
    if v.len() < 2 {
        return ;
    }
    mergesort_main(v, is_less);
    proof {
        assert forall|lt: spec_fn(T, T) -> bool| #[trigger]
            orders(is_less, lt) implies stably_sorted(old(v)@, v@, lt) by {
            assert(computes(is_less, lt));
            lemma_merge_sorted_stable(old(v)@, lt);
            if sorted_by(old(v)@, lt) {
                lemma_merge_sorted_of_sorted(old(v)@, lt);
            }
        }
    }
}

/// Sorts `v` by `<`, preserving the initial order of equal elements.
///
/// The elements are always kept. Where `<` on `T` is specified, the result is the merge sort
/// of the input; where it is a strict weak order too, the result is sorted and stable.
/// A slice of fewer than two elements, or of elements that take up no memory, is left alone.
pub fn sort<T: Ord>(v: &mut [T])
    ensures
        final(v)@.len() == old(v)@.len(),
        final(v)@.to_multiset() == old(v)@.to_multiset(),
        old(v)@.len() < 2 || !sized::<T>() ==> final(v)@ == old(v)@,
        T::obeys_partial_cmp_spec() && sized::<T>() ==> final(v)@ == merge_sorted(
            old(v)@,
            natural_order::<T>(),
        ),
        T::obeys_partial_cmp_spec() && sized::<T>() && strict_weak_order(natural_order::<T>())
            ==> stably_sorted(
            old(v)@,
            final(v)@,
            natural_order::<T>(),
        ),
{
    let is_less = |a: &T, b: &T| -> (r: bool)
        ensures
            T::obeys_partial_cmp_spec() ==> r == natural_order::<T>()(*a, *b),
        { a.lt(b) };
    stable_sort(v, &is_less);
    proof {
        if T::obeys_partial_cmp_spec() {
            assert(computes(&is_less, natural_order::<T>()));
            if strict_weak_order(natural_order::<T>()) {
                assert(orders(&is_less, natural_order::<T>()));
            }
        }
    }
}

/// Sorts `v` by the three-way comparator `compare`, preserving the initial order of equal
/// elements: an element is before another where `compare` answers `Less`. A slice of fewer
/// than two elements, or of elements that take up no memory, is left alone, and `compare` is
/// not asked.
pub fn sort_by<T, F: Fn(&T, &T) -> Ordering>(v: &mut [T], compare: F)
    requires
        sized::<T>() && old(v)@.len() >= 2 ==> comparable(&compare, old(v)@),
    ensures
        final(v)@.len() == old(v)@.len(),
        final(v)@.to_multiset() == old(v)@.to_multiset(),
        old(v)@.len() < 2 || !sized::<T>() ==> final(v)@ == old(v)@,
        forall|lt: spec_fn(T, T) -> bool| #[trigger]
            computes_three_way(&compare, lt) && sized::<T>() ==> final(v)@ == merge_sorted(
                old(v)@,
                lt,
            ),
        forall|lt: spec_fn(T, T) -> bool| #[trigger]
            orders_three_way(&compare, lt) && sized::<T>() ==> stably_sorted(old(v)@, final(v)@, lt),
{
    let three_way = &compare;
    let is_less = |a: &T, b: &T| -> (r: bool)
        requires
            three_way.requires((a, b)),
        ensures
            exists|o: Ordering| #[trigger]
                three_way.ensures((a, b), o) && r == (o == Ordering::Less),
        {
            match three_way(a, b) {
                Ordering::Less => true,
                _ => false,
            }
        };
    stable_sort(v, &is_less);
    proof {
        assert forall|lt: spec_fn(T, T) -> bool| #[trigger]
            computes_three_way(&compare, lt) implies computes(&is_less, lt) by {
        }
        assert forall|lt: spec_fn(T, T) -> bool| #[trigger]
            orders_three_way(&compare, lt) implies orders(&is_less, lt) by {
            assert(computes_three_way(&compare, lt));
        }
    }
}

/// Sorts `v` by `<` on the keys that `f` extracts, preserving the initial order of elements
/// with equal keys. The key of an element is extracted anew for every comparison. A slice of
/// fewer than two elements, or of elements that take up no memory, is left alone, and `f` is
/// not asked.
pub fn sort_by_key<T, K, F>(v: &mut [T], f: F) where F: Fn(&T) -> K, K: Ord
    requires
        sized::<T>() && old(v)@.len() >= 2 ==> extractable(&f, old(v)@),
    ensures
        final(v)@.len() == old(v)@.len(),
        final(v)@.to_multiset() == old(v)@.to_multiset(),
        old(v)@.len() < 2 || !sized::<T>() ==> final(v)@ == old(v)@,
        forall|key: spec_fn(T) -> K| #[trigger]
            extracts(&f, key) && K::obeys_partial_cmp_spec() && sized::<T>() ==> final(v)@
                == merge_sorted(old(v)@, key_order(key)),
        forall|key: spec_fn(T) -> K| #[trigger]
            extracts(&f, key) && K::obeys_partial_cmp_spec() && sized::<T>() && strict_weak_order(
                key_order(key),
            ) ==> stably_sorted(old(v)@, final(v)@, key_order(key)),
{
    let by_key = &f;
    let is_less = |a: &T, b: &T| -> (r: bool)
        requires
            by_key.requires((a,)),
            by_key.requires((b,)),
        ensures
            exists|ka: K, kb: K| #[trigger]
                by_key.ensures((a,), ka) && #[trigger] by_key.ensures((b,), kb) && (
                K::obeys_partial_cmp_spec() ==> r == natural_order::<K>()(ka, kb)),
        {
            let ka = by_key(a);
            let kb = by_key(b);
            ka.lt(&kb)
        };
    stable_sort(v, &is_less);
    proof {
        assert forall|key: spec_fn(T) -> K| #[trigger]
            extracts(&f, key) && K::obeys_partial_cmp_spec() implies computes(
            &is_less,
            key_order(key),
        ) by {
        }
        assert forall|key: spec_fn(T) -> K| #[trigger]
            extracts(&f, key) && K::obeys_partial_cmp_spec() && sized::<T>() && strict_weak_order(
                key_order(key),
            ) implies stably_sorted(old(v)@, v@, key_order(key)) by {
            assert(orders(&is_less, key_order(key)));
        }
    }
}

} // verus!
