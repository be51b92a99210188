use crate::order::{cmp_of, le, lemma_le_trans, lemma_trichotomy, lt, total_order};
use vstd::prelude::*;
use vstd::std_specs::cmp::PartialOrdSpec;

verus! {

broadcast use vstd::seq_lib::group_to_multiset_ensures;

/// A binary max-heap over a growable array: the children of index `i` sit at
/// `2i + 1` and `2i + 2`.
#[derive(Debug, Clone)]
pub struct Heap<T> {
    data: Vec<T>,
}

/// The index of `i`'s parent.
pub open spec fn parent_of(i: int) -> int {
    (i - 1) / 2
}

/// The item at `i` is not above the one at its parent.
pub open spec fn below_parent<T: PartialOrd>(s: Seq<T>, i: int) -> bool {
    le(s[i], s[parent_of(i)])
}

/// Heap order holds for every non-root index below `n`.
pub open spec fn heap_ordered_upto<T: PartialOrd>(s: Seq<T>, n: int) -> bool {
    forall|i: int| 0 < i < n ==> #[trigger] below_parent(s, i)
}

/// Heap order: no item is above its parent.
pub open spec fn heap_ordered<T: PartialOrd>(s: Seq<T>) -> bool {
    heap_ordered_upto(s, s.len() as int)
}

/// `s` with the items at `i` and `j` exchanged.
pub open spec fn swapped<T>(s: Seq<T>, i: int, j: int) -> Seq<T> {
    s.update(i, s[j]).update(j, s[i])
}

/// The array after moving the item at `k` up, swapping it with its parent
/// for as long as the parent orders before it.
pub open spec fn sift_up<T: PartialOrd>(s: Seq<T>, k: int) -> Seq<T>
    decreases k,
{
    if k <= 0 {
        s
    } else if lt(s[parent_of(k)], s[k]) {
        sift_up(swapped(s, parent_of(k), k), parent_of(k))
    } else {
        s
    }
}

/// The child of `k` that an item moving down is compared with: the left one,
/// unless the right one exists and the left one is not above it.
pub open spec fn larger_child<T: PartialOrd>(s: Seq<T>, k: int) -> int {
    if 2 * k + 2 >= s.len() {
        2 * k + 1
    } else if cmp_of(s[2 * k + 1], s[2 * k + 2]) == Some(core::cmp::Ordering::Greater) {
        2 * k + 1
    } else {
        2 * k + 2
    }
}

/// The array after moving the item at `k` down, swapping it with its larger
/// child for as long as it orders before that child.
pub open spec fn sift_down<T: PartialOrd>(s: Seq<T>, k: int) -> Seq<T>
    decreases s.len() - k,
{
    if k < 0 || 2 * k + 1 >= s.len() {
        s
    } else if lt(s[k], s[larger_child(s, k)]) {
        sift_down(swapped(s, k, larger_child(s, k)), larger_child(s, k))
    } else {
        s
    }
}

/// The array after sifting up each index from `1` to `n - 1`, in turn.
pub open spec fn sifted_prefix<T: PartialOrd>(s: Seq<T>, n: int) -> Seq<T>
    decreases n,
{
    if n <= 1 {
        s
    } else {
        sift_up(sifted_prefix(s, n - 1), n - 1)
    }
}

/// Heap order within the first `n` items, except maybe between `k` and its
/// parent; `k`'s children are not above `k`'s parent either.
spec fn sifting_up<T: PartialOrd>(s: Seq<T>, k: int, n: int) -> bool {
    &&& 0 <= k < n <= s.len()
    &&& forall|i: int| 0 < i < n && i != k ==> #[trigger] below_parent(s, i)
    &&& forall|c: int|
        0 < k && 0 < c < n && #[trigger] parent_of(c) == k ==> le(s[c], s[parent_of(k)])
}

/// Heap order, except maybe between `k` and its children; `k`'s children are
/// not above `k`'s parent.
spec fn sifting_down<T: PartialOrd>(s: Seq<T>, k: int) -> bool {
    &&& 0 <= k
    &&& forall|i: int| 0 < i < s.len() && parent_of(i) != k ==> #[trigger] below_parent(s, i)
    &&& forall|c: int|
        0 < k && 0 < c < s.len() && #[trigger] parent_of(c) == k ==> le(s[c], s[parent_of(k)])
}

/// Index `i` lies in the subtree rooted at index `k`: `k` is `i` or one of
/// its ancestors.
pub open spec fn in_subtree(k: int, i: int) -> bool
    decreases i,
{
    if i == k {
        true
    } else if i <= 0 || i < k {
        false
    } else {
        in_subtree(k, parent_of(i))
    }
}

/// The subtree of a child lies within the subtree of its parent.
proof fn lemma_subtree_of_child(k: int, c: int, i: int)
    requires
        0 <= k,
        0 < c,
        parent_of(c) == k,
        in_subtree(c, i),
    ensures
        in_subtree(k, i),
    decreases i,
{
    assert(c > k);
    if i == c {
        assert(in_subtree(k, k));
        assert(in_subtree(k, parent_of(c)));
    } else {
        assert(i > 0 && i >= c && in_subtree(c, parent_of(i)));
        lemma_subtree_of_child(k, c, parent_of(i));
        assert(i > k);
    }
}

/// The root of a heap is not below any of its items.
pub proof fn lemma_root_is_max<T: PartialOrd>(s: Seq<T>, i: int)
    requires
        total_order::<T>(),
        heap_ordered(s),
        0 <= i < s.len(),
    ensures
        le(s[i], s[0]),
    decreases i,
{
    if i == 0 {
        lemma_trichotomy(s[0], s[0]);
    } else {
        assert(below_parent(s, i));
        lemma_root_is_max(s, parent_of(i));
        lemma_le_trans(s[i], s[parent_of(i)], s[0]);
    }
}

/// Relies on `<[T]>::swap`: exchanges the items at `i` and `j`.
#[verifier::external_body]
fn swap_items<T>(v: &mut Vec<T>, i: usize, j: usize)
    requires
        i < old(v).len(),
        j < old(v).len(),
    ensures
        final(v)@ == old(v)@.update(i as int, old(v)@[j as int]).update(j as int, old(v)@[i as int]),
{
    v.swap(i, j)
}

impl<T> View for Heap<T> {
    type V = Seq<T>;

    /// The backing array, in its current order.
    closed spec fn view(&self) -> Seq<T> {
        self.data@
    }
}

impl<T: PartialOrd> Heap<T> {
    /// The empty heap.
    pub fn new() -> (r: Self)
        ensures
            r@ == Seq::<T>::empty(),
            heap_ordered(r@),
    {
        Heap { data: Vec::new() }
    }

    /// Takes `data` and brings it into heap order by moving each item after
    /// the first up to its place, from the front.
    pub fn from_vec(data: Vec<T>) -> (r: Self)
        requires
            total_order::<T>(),
        ensures
            r@ == sifted_prefix(data@, data@.len() as int),
            heap_ordered(r@),
            r@.to_multiset() == data@.to_multiset(),
            r@.len() == data@.len(),
    {
        let mut heap = Heap { data };
        let len = heap.data.len();
        let mut i: usize = 1;
        while i < len
            invariant
                total_order::<T>(),
                1 <= i,
                i <= len || len == 0,
                heap@.len() == len,
                heap_ordered_upto(heap@, i as int),
                heap@ == sifted_prefix(data@, i as int),
                heap@.to_multiset() == data@.to_multiset(),
            decreases len - i,
        {
            proof {
                assert forall|j: int| 0 < j < i + 1 && j != i implies #[trigger] below_parent(heap@, j) by {}
            }
            heap.trickle_up(i, Ghost(i + 1));
            i += 1;
        }
        proof {
            assert forall|j: int| 0 < j < len implies #[trigger] below_parent(heap@, j) by {}
            if len == 0 {
                assert(sifted_prefix(data@, 0) == data@);
            }
        }
        heap
    }

    /// The backing array, in heap order (not sorted).
    pub fn into_vec(self) -> (r: Vec<T>)
        ensures
            r@ == self@,
    {
        self.data
    }

    /// Exchanges the items at `i` and `j`, which keeps the multiset of items.
    fn swap(&mut self, i: usize, j: usize)
        requires
            i < old(self)@.len(),
            j < old(self)@.len(),
        ensures
            final(self)@ == old(self)@.update(i as int, old(self)@[j as int]).update(
                j as int,
                old(self)@[i as int],
            ),
            final(self)@.to_multiset() == old(self)@.to_multiset(),
    {
        swap_items(&mut self.data, i, j);
        proof {
            let s = old(self)@;
            let u = s.update(i as int, s[j as int]);
            assert(u.to_multiset() == s.to_multiset().insert(s[j as int]).remove(s[i as int]));
            assert(self@.to_multiset() == u.to_multiset().insert(s[i as int]).remove(u[j as int]));
            assert(self@.to_multiset() =~= s.to_multiset());
        }
    }

    /// Moves the item at `node` up past every parent it is above. Only
    /// `node` and its ancestors change, and nothing does at the root. From
    /// heap order within the first `n` items but at `node`, this restores
    /// heap order there.
    fn trickle_up(&mut self, node: usize, Ghost(n): Ghost<int>)
        requires
            node == 0 || node < old(self)@.len(),
        ensures
            final(self)@.len() == old(self)@.len(),
            final(self)@.to_multiset() == old(self)@.to_multiset(),
            forall|i: int|
                0 <= i < old(self)@.len() && !in_subtree(i, node as int) ==> final(self)@[i] == old(
                    self,
                )@[i],
            node == 0 ==> final(self)@ == old(self)@,
            T::obeys_partial_cmp_spec() ==> final(self)@ == sift_up(old(self)@, node as int),
            total_order::<T>() && sifting_up(old(self)@, node as int, n) ==> heap_ordered_upto(
                final(self)@,
                n,
            ),
        decreases node,
    {
        if node == 0 {
            return;
        }
        let p = self.parent(node);
        let ghost pre = total_order::<T>() && sifting_up(self@, node as int, n);
        if self.data[p] < self.data[node] {
            let ghost s = self@;
            self.swap(p, node);
            proof {
                let t = self@;
                let k = node as int;
                let pi = p as int;
                if pre {
                    lemma_trichotomy(s[pi], s[k]);
                    assert forall|i: int| 0 < i < n && i != pi implies #[trigger] below_parent(t, i) by {
                        if i == k {
                        } else if parent_of(i) == k {
                            assert(le(s[i], s[pi]));
                        } else if parent_of(i) == pi {
                            assert(below_parent(s, i));
                            lemma_le_trans(s[i], s[pi], s[k]);
                        } else {
                            assert(below_parent(s, i));
                        }
                    }
                    assert forall|c: int|
                        0 < pi && 0 < c < n && #[trigger] parent_of(c) == pi implies le(
                        t[c],
                        t[parent_of(pi)],
                    ) by {
                        assert(below_parent(s, pi));
                        if c != k {
                            assert(below_parent(s, c));
                            lemma_le_trans(s[c], s[pi], s[parent_of(pi)]);
                        }
                    }
                }
            }
            self.trickle_up(p, Ghost(n));
            proof {
                let k = node as int;
                assert forall|i: int|
                    0 <= i < s.len() && !in_subtree(i, k) implies self@[i] == s[i] by {
                    assert(in_subtree(k, k));
                    if in_subtree(i, p as int) {
                        assert(in_subtree(i, k));
                    }
                }
            }
        } else {
            proof {
                if pre {
                    assert forall|i: int| 0 < i < n implies #[trigger] below_parent(self@, i) by {
                        if i == node as int {
                            lemma_trichotomy(self@[p as int], self@[i]);
                        }
                    }
                }
            }
        }
    }

    /// Moves the item at `node` down past every child it is below, always
    /// into the larger child. Only `node`'s subtree changes, and nothing does
    /// when `node` has no child. From near-heap order, this restores heap
    /// order.
    fn trickle_down(&mut self, node: usize)
        ensures
            final(self)@.len() == old(self)@.len(),
            final(self)@.to_multiset() == old(self)@.to_multiset(),
            forall|i: int|
                0 <= i < old(self)@.len() && !in_subtree(node as int, i) ==> final(self)@[i] == old(
                    self,
                )@[i],
            2 * node + 1 >= old(self)@.len() ==> final(self)@ == old(self)@,
            T::obeys_partial_cmp_spec() ==> final(self)@ == sift_down(old(self)@, node as int),
            total_order::<T>() && sifting_down(old(self)@, node as int) ==> heap_ordered(
                final(self)@,
            ),
        decreases old(self)@.len() - node,
    {
        let len = self.data.len();
        if node >= len / 2 {
            proof {
                if total_order::<T>() && sifting_down(self@, node as int) {
                    assert forall|i: int| 0 < i < len implies #[trigger] below_parent(self@, i) by {
                        assert(parent_of(i) != node as int);
                    }
                }
            }
            return;
        }
        let (l, r) = self.children(node);
        let child;
        if r >= len {
            child = l;
        } else if self.data[l] > self.data[r] {
            child = l;
        } else {
            child = r;
        }
        let ghost pre = total_order::<T>() && sifting_down(self@, node as int);
        proof {
            let s = self@;
            if T::obeys_partial_cmp_spec() {
                assert(child == larger_child(s, node as int));
            }
            if pre {
                if r < len {
                    lemma_trichotomy(s[l as int], s[r as int]);
                }
                assert(r < len ==> le(s[l as int], s[child as int]) && le(
                    s[r as int],
                    s[child as int],
                )) by {
                    lemma_trichotomy(s[child as int], s[child as int]);
                }
            }
        }
        if self.data[node] < self.data[child] {
            let ghost s = self@;
            self.swap(node, child);
            proof {
                let t = self@;
                let k = node as int;
                let ch = child as int;
                assert(parent_of(ch) == k);
                if pre {
                    lemma_trichotomy(s[k], s[ch]);
                    assert forall|i: int|
                        0 < i < len && parent_of(i) != ch implies #[trigger] below_parent(t, i) by {
                        if i == ch {
                            assert(le(s[k], s[ch]));
                        } else if parent_of(i) == k {
                            assert(i == l || i == r);
                            assert(le(s[i], s[ch]));
                        } else if i == k {
                            assert(le(s[ch], s[parent_of(k)]));
                        } else {
                            assert(below_parent(s, i));
                        }
                    }
                    assert forall|c: int|
                        0 < ch && 0 < c < len && #[trigger] parent_of(c) == ch implies le(
                        t[c],
                        t[parent_of(ch)],
                    ) by {
                        assert(below_parent(s, c));
                    }
                }
            }
            self.trickle_down(child);
            proof {
                let k = node as int;
                let ch = child as int;
                assert(in_subtree(k, k));
                assert(in_subtree(k, ch));
                assert forall|i: int|
                    0 <= i < len && !in_subtree(k, i) implies self@[i] == s[i] by {
                    if in_subtree(ch, i) {
                        lemma_subtree_of_child(k, ch, i);
                    }
                }
            }
        } else {
            proof {
                if pre {
                    let s = self@;
                    let k = node as int;
                    lemma_trichotomy(s[k], s[child as int]);
                    assert forall|i: int| 0 < i < len implies #[trigger] below_parent(s, i) by {
                        if parent_of(i) == k {
                            lemma_le_trans(s[i], s[child as int], s[k]);
                        }
                    }
                }
            }
        }
    }

    /// Takes the root, the largest item, out of the heap: the last item takes
    /// its place and moves down. `None` when the heap is empty.
    pub fn pop(&mut self) -> (r: Option<T>)
        requires
            total_order::<T>(),
            heap_ordered(old(self)@),
        ensures
            heap_ordered(final(self)@),
            old(self)@.len() == 0 ==> r is None && final(self)@ == old(self)@,
            old(self)@.len() > 0 ==> {
                &&& r == Some(old(self)@[0])
                &&& final(self)@ == sift_down(old(self)@.update(0, old(self)@.last()).drop_last(), 0)
                &&& final(self)@.to_multiset() == old(self)@.to_multiset().remove(old(self)@[0])
                &&& final(self)@.len() == old(self)@.len() - 1
                &&& forall|i: int| 0 <= i < old(self)@.len() ==> le(#[trigger] old(self)@[i], old(self)@[0])
            },
    {
        if self.data.is_empty() {
            None
        } else {
            proof {
                assert forall|i: int| 0 <= i < old(self)@.len() implies le(#[trigger] old(self)@[i], old(self)@[0]) by {
                    lemma_root_is_max(old(self)@, i);
                }
            }
            let value = self.data.swap_remove(0);
            proof {
                let s = old(self)@;
                let u = s.update(0, s.last());
                assert(self@ == u.remove(u.len() - 1));
                assert(self@.to_multiset() =~= s.to_multiset().remove(s[0]));
                assert forall|i: int| 0 < i < self@.len() && parent_of(i) != 0 implies #[trigger] below_parent(self@, i) by {
                    assert(below_parent(s, i));
                }
            }
            self.trickle_down(0);
            Some(value)
        }
    }

    /// Adds `item`, then moves it up to its place.
    pub fn push(&mut self, item: T)
        requires
            total_order::<T>(),
            heap_ordered(old(self)@),
        ensures
            final(self)@ == sift_up(old(self)@.push(item), old(self)@.len() as int),
            heap_ordered(final(self)@),
            final(self)@.to_multiset() == old(self)@.to_multiset().insert(item),
            final(self)@.len() == old(self)@.len() + 1,
    {
        let new_node = self.data.len();
        self.data.push(item);
        proof {
            let s = self@;
            let k = new_node as int;
            assert(s.drop_last() == old(self)@);
            assert forall|i: int| 0 < i < s.len() && i != k implies #[trigger] below_parent(s, i) by {
                assert(below_parent(old(self)@, i));
            }
        }
        self.trickle_up(new_node, Ghost(self@.len() as int));
    }

    /// The index of `node`'s parent.
    fn parent(&self, node: usize) -> (r: usize)
        requires
            node > 0,
        ensures
            r == parent_of(node as int),
    {
        (node - 1) / 2
    }

    /// The indices of `node`'s two children.
    fn children(&self, node: usize) -> (r: (usize, usize))
        requires
            2 * node + 2 <= usize::MAX,
        ensures
            r.0 == 2 * node + 1,
            r.1 == 2 * node + 2,
    {
        (node * 2 + 1, node * 2 + 2)
    }
}

} // verus!
