//! In-place heap sort: no auxiliary memory, no promise on the order of equal elements.
use crate::order::{
    callable, comparable, computes, computes_three_way, exchanged, lemma_callable_part,
    lemma_callable_rearranged, lemma_exchanged_multiset,
    lemma_sorted_unique, natural_order, orders, orders_three_way, sorted_by, strict_weak_order,
    sized, swap_at, ties_are_equal,
};
use core::cmp::Ordering;
use vstd::prelude::*;
use vstd::std_specs::cmp::PartialOrdSpec;

verus! {

/// The parent of node `c` in the implicit binary tree.
pub open spec fn parent(c: int) -> int {
    (c - 1) / 2
}

/// `k` is `node` or stands below it in the tree.
pub open spec fn under(node: int, k: int) -> bool
    decreases k,
{
    if k <= node || k <= 0 {
        k == node
    } else {
        under(node, parent(k))
    }
}

/// Every node from `start` on is not ordered before either of its children.
pub open spec fn heap_from<T>(s: Seq<T>, lt: spec_fn(T, T) -> bool, start: int) -> bool {
    forall|c: int| 0 < c < s.len() && start <= parent(c) ==> !lt(s[parent(c)], #[trigger] s[c])
}

/// The child of `node` that goes up where `node` has to go down: the right one where both
/// exist and the left one is before it, the left one otherwise.
pub open spec fn greater_child<T>(s: Seq<T>, lt: spec_fn(T, T) -> bool, node: int) -> int {
    let left = 2 * node + 1;
    if left + 1 < s.len() && lt(s[left], s[left + 1]) {
        left + 1
    } else {
        left
    }
}

/// `s` after the element at `node` has been moved down: as long as it is before its greater
/// child, the two are exchanged.
pub open spec fn sifted<T>(s: Seq<T>, lt: spec_fn(T, T) -> bool, node: int) -> Seq<T>
    decreases s.len() - node,
{
    if node < 0 || 2 * node + 1 >= s.len() {
        s
    } else {
        let child = greater_child(s, lt, node);
        if lt(s[node], s[child]) {
            sifted(exchanged(s, node, child), lt, child)
        } else {
            s
        }
    }
}

/// `s` after the nodes below `i` have been sifted down, the last of them first.
pub open spec fn heapified<T>(s: Seq<T>, lt: spec_fn(T, T) -> bool, i: int) -> Seq<T>
    decreases i,
{
    if i <= 0 {
        s
    } else {
        heapified(sifted(s, lt, i - 1), lt, i - 1)
    }
}

/// `s` after the roots of the heaps of the first `n`, `n - 1`, ... elements have been moved
/// behind their heaps, each heap being repaired by sifting its new root down.
pub open spec fn extracted<T>(s: Seq<T>, lt: spec_fn(T, T) -> bool, n: int) -> Seq<T>
    decreases n,
{
    if n <= 1 || n > s.len() {
        s
    } else {
        let swapped = exchanged(s, 0, n - 1);
        extracted(
            sifted(swapped.subrange(0, n - 1), lt, 0) + swapped.subrange(n - 1, s.len() as int),
            lt,
            n - 1,
        )
    }
}

/// What the heap sort makes of `s`.
pub open spec fn heap_sorted<T>(s: Seq<T>, lt: spec_fn(T, T) -> bool) -> Seq<T> {
    extracted(heapified(s, lt, s.len() as int / 2), lt, s.len() as int)
}

/// The heap property from `start` on, but for the node `cur` that is being sifted; and the
/// parent of `cur` is not before the children of `cur`.
spec fn sifting<T>(s: Seq<T>, lt: spec_fn(T, T) -> bool, start: int, cur: int) -> bool {
    &&& forall|c: int|
        0 < c < s.len() && start <= parent(c) && parent(c) != cur ==> !lt(
            s[parent(c)],
            #[trigger] s[c],
        )
    &&& cur > start ==> forall|c: int|
        0 < c < s.len() && parent(c) == cur ==> !lt(s[parent(cur)], #[trigger] s[c])
}

/// Moves the element at `node` down the tree, each time below the greater of its children,
/// until it is not before either of them. Where all nodes behind `node` were in heap order,
/// all nodes from `node` on are so afterwards. Only `node` and what stands below it in the
/// tree can change. The predicate is asked only where `node` has a child.
pub fn sift_down<T, F: Fn(&T, &T) -> bool>(v: &mut [T], node: usize, is_less: &F)
    requires
        node < old(v)@.len(),
        2 * node + 1 < old(v)@.len() ==> callable(is_less, old(v)@),
    ensures
        final(v)@.len() == old(v)@.len(),
        final(v)@.to_multiset() == old(v)@.to_multiset(),
        forall|k: int|
            0 <= k < old(v)@.len() && !under(node as int, k) ==> #[trigger] final(v)@[k] == old(
                v,
            )@[k],
        2 * node + 1 >= old(v)@.len() ==> final(v)@ == old(v)@,
        forall|lt: spec_fn(T, T) -> bool| #[trigger]
            computes(is_less, lt) ==> final(v)@ == sifted(old(v)@, lt, node as int),
        forall|lt: spec_fn(T, T) -> bool| #[trigger]
            orders(is_less, lt) && heap_from(old(v)@, lt, node + 1) ==> heap_from(
                final(v)@,
                lt,
                node as int,
            ),
{
    let len: usize = v.len();
    let ghost s0 = v@;
    let mut cur: usize = node;
    let mut done: bool = false;
    while !done && cur < len / 2
        invariant
            len == v@.len(),
            len == s0.len(),
            node <= cur < len,
            under(node as int, cur as int),
            2 * node + 1 < len ==> callable(is_less, v@),
            2 * node + 1 >= len ==> v@ == s0,
            v@.to_multiset() == s0.to_multiset(),
            forall|k: int| 0 <= k < len && !under(node as int, k) ==> #[trigger] v@[k] == s0[k],
            forall|lt: spec_fn(T, T) -> bool| #[trigger]
                computes(is_less, lt) ==> if done {
                    v@ == sifted(s0, lt, node as int)
                } else {
                    sifted(v@, lt, cur as int) == sifted(s0, lt, node as int)
                },
            forall|lt: spec_fn(T, T) -> bool| #[trigger]
                orders(is_less, lt) && heap_from(s0, lt, node + 1) ==> if done {
                    heap_from(v@, lt, node as int)
                } else {
                    sifting(v@, lt, node as int, cur as int)
                },
        decreases len - cur + (if done { 0int } else { 1int }),
    {
        let ghost s1 = v@;
        let left: usize = 2 * cur + 1;
        let mut child: usize = left;
        if left + 1 < len {
            if is_less(&v[left], &v[left + 1]) {
                child = left + 1;
            }
        }
        if !is_less(&v[cur], &v[child]) {
            done = true;
            assert forall|lt: spec_fn(T, T) -> bool| #[trigger]
                computes(is_less, lt) implies v@ == sifted(s0, lt, node as int) by {
                assert(child == greater_child(s1, lt, cur as int));
                assert(sifted(s1, lt, cur as int) == s1);
            }
            assert forall|lt: spec_fn(T, T) -> bool| #[trigger]
                orders(is_less, lt) && heap_from(s0, lt, node + 1) implies heap_from(
                v@,
                lt,
                node as int,
            ) by {
                assert(sifting(s1, lt, node as int, cur as int));
                assert forall|c: int| 0 < c < s1.len() && node <= parent(c) implies !lt(
                    s1[parent(c)],
                    #[trigger] s1[c],
                ) by {
                    if parent(c) == cur {
                        assert(c == left || c == left + 1);
                    }
                }
            }
        } else {
            swap_at(v, cur, child);
            proof {
                lemma_exchanged_multiset(s1, cur as int, child as int);
                lemma_callable_rearranged(is_less, s1, v@);
                assert(parent(child as int) == cur);
                assert(under(node as int, child as int));
                assert forall|lt: spec_fn(T, T) -> bool| #[trigger]
                    computes(is_less, lt) implies sifted(v@, lt, child as int) == sifted(
                    s0,
                    lt,
                    node as int,
                ) by {
                    assert(child == greater_child(s1, lt, cur as int));
                    assert(sifted(s1, lt, cur as int) == sifted(v@, lt, child as int));
                }
            }
            assert forall|lt: spec_fn(T, T) -> bool| #[trigger]
                orders(is_less, lt) && heap_from(s0, lt, node + 1) implies sifting(
                v@,
                lt,
                node as int,
                child as int,
            ) by {
                assert(sifting(s1, lt, node as int, cur as int));
                let s2 = v@;
                assert(lt(s1[cur as int], s1[child as int]));
                assert forall|c: int|
                    0 < c < s2.len() && node <= parent(c) && parent(c) != child implies !lt(
                    s2[parent(c)],
                    #[trigger] s2[c],
                ) by {
                    if parent(c) == cur {
                        assert(c == left || c == left + 1);
                    } else if c == cur {
                        assert(parent(child as int) == cur);
                    } else {
                        assert(s2[c] == s1[c]);
                        assert(s2[parent(c)] == s1[parent(c)]);
                    }
                }
                assert forall|c: int| 0 < c < s2.len() && parent(c) == child implies !lt(
                    s2[parent(child as int)],
                    #[trigger] s2[c],
                ) by {
                    assert(s2[c] == s1[c]);
                }
            }
            cur = child;
        }
    }
    proof {
        assert forall|lt: spec_fn(T, T) -> bool| #[trigger]
            orders(is_less, lt) && heap_from(s0, lt, node + 1) implies heap_from(
            v@,
            lt,
            node as int,
        ) by {
            if !done {
                assert(sifting(v@, lt, node as int, cur as int));
            }
        }
    }
}

/// In a heap the root is not ordered before any element.
pub proof fn lemma_root_not_before<T>(s: Seq<T>, lt: spec_fn(T, T) -> bool, k: int)
    requires
        strict_weak_order(lt),
        heap_from(s, lt, 0),
        0 <= k < s.len(),
    ensures
        !lt(s[0], s[k]),
    decreases k,
{
    if k > 0 {
        lemma_root_not_before(s, lt, parent(k));
        assert(!lt(s[parent(k)], s[k]));
    }
}

/// The part of `s` below `n` is a heap, and no element from `n` on is ordered before one that
/// stands earlier in `s`.
spec fn heap_then_sorted<T>(s: Seq<T>, lt: spec_fn(T, T) -> bool, n: int) -> bool {
    &&& heap_from(s.subrange(0, n), lt, 0)
    &&& forall|a: int, b: int|
        0 <= a < b < s.len() && n <= b ==> !lt(#[trigger] s[b], #[trigger] s[a])
}

/// One extraction keeps `heap_then_sorted`: the root goes to the end of the heap, and the
/// rest of the heap is repaired.
proof fn lemma_extract<T>(
    before: Seq<T>,
    head: Seq<T>,
    after: Seq<T>,
    lt: spec_fn(T, T) -> bool,
    n: int,
)
    requires
        strict_weak_order(lt),
        0 < n < before.len(),
        heap_then_sorted(before, lt, n + 1),
        head.len() == n,
        head.to_multiset() == exchanged(before, 0, n).subrange(0, n).to_multiset(),
        heap_from(head, lt, 0),
        after == head + exchanged(before, 0, n).subrange(n, before.len() as int),
    ensures
        heap_then_sorted(after, lt, n),
{
    let top = before.subrange(0, n + 1);
    let swapped = exchanged(before, 0, n).subrange(0, n);
    assert(after.subrange(0, n) =~= head);
    assert forall|a: int, b: int| 0 <= a < b < after.len() && n <= b implies !lt(
        #[trigger] after[b],
        #[trigger] after[a],
    ) by {
        // where the element at `a` stood before the extraction
        let k = if a < n {
            assert(head.contains(head[a]));
            vstd::seq_lib::to_multiset_contains(head, head[a]);
            vstd::seq_lib::to_multiset_contains(swapped, head[a]);
            let j = choose|j: int| 0 <= j < n && swapped[j] == head[a];
            if j == 0 { n } else { j }
        } else if a == n {
            0
        } else {
            a
        };
        assert(after[a] == before[k]);
        if b == n {
            assert(after[b] == before[0]);
            lemma_root_not_before(top, lt, k);
            assert(top[k] == before[k]);
            assert(top[0] == before[0]);
        } else {
            assert(after[b] == before[b]);
            assert(!lt(before[b], before[k]));
        }
    }
}

/// `new` is sorted by `lt`; it is `old` itself where that was sorted already and the elements
/// of `old` that tie are equal.
pub open spec fn sorted_from<T>(old: Seq<T>, new: Seq<T>, lt: spec_fn(T, T) -> bool) -> bool {
    &&& sorted_by(new, lt)
    &&& ties_are_equal(old, lt) && sorted_by(old, lt) ==> new == old
}

/// Sorts `v` with heap sort.
pub fn heapsort<T, F: Fn(&T, &T) -> bool>(v: &mut [T], is_less: &F)
    requires
        old(v)@.len() >= 2 ==> callable(is_less, old(v)@),
    ensures
        final(v)@.len() == old(v)@.len(),
        final(v)@.to_multiset() == old(v)@.to_multiset(),
        old(v)@.len() < 2 ==> final(v)@ == old(v)@,
        forall|lt: spec_fn(T, T) -> bool| #[trigger]
            computes(is_less, lt) ==> final(v)@ == heap_sorted(old(v)@, lt),
        forall|lt: spec_fn(T, T) -> bool| #[trigger]
            orders(is_less, lt) ==> sorted_from(old(v)@, final(v)@, lt),
{
    let len: usize = v.len();
    let ghost s0 = v@;
    // Build the heap, from the last node that has a child up to the root.
    let mut i: usize = len / 2;
    while i > 0
        invariant
            i <= len / 2,
            len == v@.len(),
            len >= 2 ==> callable(is_less, v@),
            len < 2 ==> v@ == s0,
            v@.to_multiset() == s0.to_multiset(),
            forall|lt: spec_fn(T, T) -> bool| #[trigger]
                computes(is_less, lt) ==> heapified(v@, lt, i as int) == heapified(
                    s0,
                    lt,
                    len as int / 2,
                ),
            forall|lt: spec_fn(T, T) -> bool| #[trigger]
                orders(is_less, lt) ==> heap_from(v@, lt, i as int),
        decreases i,
    {
        let ghost before = v@;
        i -= 1;
        sift_down(v, i, is_less);
        proof {
            lemma_callable_rearranged(is_less, before, v@);
        }
    }
    // Move the root behind the heap, and repair the heap, until one element is left.
    let mut n: usize = len;
    proof {
        assert(v@.subrange(0, n as int) =~= v@);
    }
    while n > 1
        invariant
            n <= len,
            len == v@.len(),
            len >= 2 ==> callable(is_less, v@),
            len < 2 ==> v@ == s0,
            v@.to_multiset() == s0.to_multiset(),
            forall|lt: spec_fn(T, T) -> bool| #[trigger]
                computes(is_less, lt) ==> extracted(v@, lt, n as int) == heap_sorted(s0, lt),
            forall|lt: spec_fn(T, T) -> bool| #[trigger]
                orders(is_less, lt) ==> heap_then_sorted(v@, lt, n as int),
        decreases n,
    {
        let ghost before = v@;
        n -= 1;
        swap_at(v, 0, n);
        let ghost swapped = v@;
        proof {
            lemma_exchanged_multiset(before, 0, n as int);
            lemma_callable_rearranged(is_less, before, swapped);
            lemma_callable_part(is_less, swapped, 0, n as int);
        }
        let (head, _tail) = v.split_at_mut(n);
        sift_down(head, 0, is_less);
        proof {
            let top = swapped.subrange(0, n as int);
            let rest = swapped.subrange(n as int, len as int);
            assert(swapped =~= top + rest);
            vstd::seq_lib::lemma_multiset_commutative(top, rest);
            vstd::seq_lib::lemma_multiset_commutative(head@, rest);
            lemma_callable_rearranged(is_less, before, v@);
            assert forall|lt: spec_fn(T, T) -> bool| #[trigger]
                computes(is_less, lt) implies extracted(v@, lt, n as int) == heap_sorted(
                s0,
                lt,
            ) by {
                assert(exchanged(before, 0, n as int) == swapped);
                assert(head@ == sifted(top, lt, 0));
                assert(v@ == head@ + rest);
                assert(extracted(before, lt, n + 1) == extracted(v@, lt, n as int));
            }
            assert forall|lt: spec_fn(T, T) -> bool| #[trigger]
                orders(is_less, lt) implies heap_then_sorted(v@, lt, n as int) by {
                assert(heap_then_sorted(before, lt, n + 1));
                let whole = before.subrange(0, n + 1);
                assert forall|c: int| 0 < c < top.len() && 1 <= parent(c) implies !lt(
                    top[parent(c)],
                    #[trigger] top[c],
                ) by {
                    assert(!lt(whole[parent(c)], whole[c]));
                }
                lemma_extract(before, head@, v@, lt, n as int);
            }
        }
    }
    proof {
        assert forall|lt: spec_fn(T, T) -> bool| #[trigger]
            computes(is_less, lt) implies v@ == heap_sorted(s0, lt) by {
            assert(extracted(v@, lt, n as int) == v@);
        }
        assert forall|lt: spec_fn(T, T) -> bool| #[trigger]
            orders(is_less, lt) implies sorted_from(s0, v@, lt) by {
            assert(heap_then_sorted(v@, lt, n as int));
            assert forall|a: int, b: int| 0 <= a < b < v@.len() implies !lt(
                #[trigger] v@[b],
                #[trigger] v@[a],
            ) by {
            }
            if ties_are_equal(s0, lt) && sorted_by(s0, lt) {
                lemma_sorted_unique(s0, v@, lt);
            }
        }
    }
}

/// Sorts `v` by the predicate, without a promise on the order of elements of which neither is
/// before the other. A slice of fewer than two elements, or of elements that take up no
/// memory, is left alone, and the predicate is not asked.
pub fn unstable_sort<T, F: Fn(&T, &T) -> bool>(v: &mut [T], is_less: &F)
    requires
        sized::<T>() && old(v)@.len() >= 2 ==> callable(is_less, old(v)@),
    ensures
        final(v)@.len() == old(v)@.len(),
        final(v)@.to_multiset() == old(v)@.to_multiset(),
        old(v)@.len() < 2 || !sized::<T>() ==> final(v)@ == old(v)@,
        forall|lt: spec_fn(T, T) -> bool| #[trigger]
            computes(is_less, lt) && sized::<T>() ==> final(v)@ == heap_sorted(old(v)@, lt),
        forall|lt: spec_fn(T, T) -> bool| #[trigger]
            orders(is_less, lt) && sized::<T>() ==> sorted_from(old(v)@, final(v)@, lt),
{
    if core::mem::size_of::<T>() == 0 {
        return ;
    }
    if v.len() < 2 {
        proof {
            assert forall|lt: spec_fn(T, T) -> bool| heap_sorted(v@, lt) == v@ by {
                assert(heapified(v@, lt, 0) == v@);
            }
        }
        return ;
    }
    heapsort(v, is_less);
}

/// Sorts `v` by `<`, without preserving the initial order of equal elements.
///
/// The elements are always kept; the result is sorted wherever `<` on `T` is a strict weak
/// order. A slice of fewer than two elements, or of elements that take up no memory, is left
/// alone.
pub fn sort<T: Ord>(v: &mut [T])
    ensures
        final(v)@.len() == old(v)@.len(),
        final(v)@.to_multiset() == old(v)@.to_multiset(),
        old(v)@.len() < 2 || !sized::<T>() ==> final(v)@ == old(v)@,
        T::obeys_partial_cmp_spec() && sized::<T>() ==> final(v)@ == heap_sorted(
            old(v)@,
            natural_order::<T>(),
        ),
        T::obeys_partial_cmp_spec() && sized::<T>() && strict_weak_order(natural_order::<T>())
            ==> sorted_from(
            old(v)@,
            final(v)@,
            natural_order::<T>(),
        ),
{
    let is_less = |a: &T, b: &T| -> (r: bool)
        ensures
            T::obeys_partial_cmp_spec() ==> r == natural_order::<T>()(*a, *b),
        { a.lt(b) };
    unstable_sort(v, &is_less);
    proof {
        if T::obeys_partial_cmp_spec() {
            assert(computes(&is_less, natural_order::<T>()));
            if strict_weak_order(natural_order::<T>()) {
                assert(orders(&is_less, natural_order::<T>()));
            }
        }
    }
}

/// Sorts `v` by the three-way comparator `compare`, without preserving the initial order of
/// equal elements: an element is before another where `compare` answers `Less`. A slice of
/// fewer than two elements, or of elements that take up no memory, is left alone, and
/// `compare` is not asked.
pub fn sort_by<T, F: Fn(&T, &T) -> Ordering>(v: &mut [T], compare: F)
    requires
        sized::<T>() && old(v)@.len() >= 2 ==> comparable(&compare, old(v)@),
    ensures
        final(v)@.len() == old(v)@.len(),
        final(v)@.to_multiset() == old(v)@.to_multiset(),
        old(v)@.len() < 2 || !sized::<T>() ==> final(v)@ == old(v)@,
        forall|lt: spec_fn(T, T) -> bool| #[trigger]
            computes_three_way(&compare, lt) && sized::<T>() ==> final(v)@ == heap_sorted(
                old(v)@,
                lt,
            ),
        forall|lt: spec_fn(T, T) -> bool| #[trigger]
            orders_three_way(&compare, lt) && sized::<T>() ==> sorted_from(old(v)@, final(v)@, lt),
{
    let three_way = &compare;
    let is_less = |a: &T, b: &T| -> (r: bool)
        requires
            three_way.requires((a, b)),
        ensures
            exists|o: Ordering| #[trigger]
                three_way.ensures((a, b), o) && r == (o == Ordering::Less),
        {
            match three_way(a, b) {
                Ordering::Less => true,
                _ => false,
            }
        };
    unstable_sort(v, &is_less);
    proof {
        assert forall|lt: spec_fn(T, T) -> bool| #[trigger]
            computes_three_way(&compare, lt) implies computes(&is_less, lt) by {
        }
        assert forall|lt: spec_fn(T, T) -> bool| #[trigger]
            orders_three_way(&compare, lt) implies orders(&is_less, lt) by {
            assert(computes_three_way(&compare, lt));
        }
    }
}

} // verus!
