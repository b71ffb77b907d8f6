//! The binary heap itself: an array-backed, 1-indexed heap over a
//! pluggable priority predicate.

use vstd::prelude::*;
use crate::order::{Comparator, GreaterThan, LessThan, priority_sorted, strict_ordering};

verus! {

/// Parent position of the element at position `j` of a heap's view
/// (0-indexed live elements).
pub open spec fn parent_index(j: int) -> int {
    (j - 1) / 2
}

/// The heap property over a sequence of live elements: no element comes
/// before its parent.
pub open spec fn heap_ordered<T, P: Comparator<T>>(s: Seq<T>) -> bool {
    forall|j: int| 1 <= j < s.len() ==> !P::comes_before(#[trigger] s[j], s[parent_index(j)])
}

/// Swapping two live positions leaves the live elements' multiset unchanged.
proof fn lemma_swap_live_multiset<T>(s: Seq<T>, n: int, i: int, j: int)
    requires
        0 <= n < s.len(),
        1 <= i <= n,
        1 <= j <= n,
        i != j,
    ensures
        s.update(i, s[j]).update(j, s[i]).subrange(1, n + 1).to_multiset()
            == s.subrange(1, n + 1).to_multiset(),
{
    broadcast use vstd::seq_lib::group_to_multiset_ensures;
    broadcast use vstd::multiset::group_multiset_axioms;

    let a = s.subrange(1, n + 1);
    let b = s.update(i, s[j]).update(j, s[i]).subrange(1, n + 1);
    let m1 = a.update(i - 1, a[j - 1]);
    assert(b =~= m1.update(j - 1, a[i - 1]));
    assert(a.contains(a[i - 1]));
    assert(a.contains(a[j - 1]));
    assert(m1.to_multiset() == a.to_multiset().insert(a[j - 1]).remove(a[i - 1]));
    assert(m1[j - 1] == a[j - 1]);
    assert(b.to_multiset() == m1.to_multiset().insert(a[i - 1]).remove(a[j - 1]));
    assert(b.to_multiset() =~= a.to_multiset());
}

/// An array-backed binary heap. The backing vector is 1-indexed: position 0
/// holds an unused placeholder so that the index arithmetic `parent = i / 2`,
/// `left = 2 * i`, `right = 2 * i + 1` works uniformly; the live elements
/// occupy positions `1..=count`, and positions beyond `count` are stale.
///
/// The view `self@` is the sequence of live elements in array order.
pub struct Heap<T, P> where T: Default, P: Comparator<T> {
    count: usize,
    items: Vec<T>,
    comparator: P,
}

impl<T: Default, P: Comparator<T>> View for Heap<T, P> {
    type V = Seq<T>;

    closed spec fn view(&self) -> Seq<T> {
        self.items@.subrange(1, self.count as int + 1)
    }
}

impl<T: Default, P: Comparator<T>> Heap<T, P> {
    /// The heap property over the raw backing sequence, whose live elements
    /// sit at positions `1..=n`.
    spec fn raw_ordered(s: Seq<T>, n: int) -> bool {
        forall|i: int| 2 <= i <= n ==> !P::comes_before(#[trigger] s[i], s[i / 2])
    }

    /// A valid heap: the backing vector has room for the placeholder and the
    /// live elements, and — whenever the comparator decides a strict
    /// ordering — the live elements satisfy the heap property.
    pub closed spec fn wf(self) -> bool {
        &&& (self.count as int) < self.items@.len()
        &&& (P::obeys() && strict_ordering::<T, P>() ==> heap_ordered::<T, P>(self@))
    }

    /// The raw heap property and the one over the view say the same thing.
    proof fn lemma_raw_view(self)
        requires
            (self.count as int) < self.items@.len(),
        ensures
            Self::raw_ordered(self.items@, self.count as int) <==> heap_ordered::<T, P>(
                self@,
            ),
    {
        let s = self.items@;
        let n = self.count as int;
        let v = self@;
        if Self::raw_ordered(s, n) {
            assert forall|j: int| 1 <= j < v.len() implies !P::comes_before(
                #[trigger] v[j],
                v[parent_index(j)],
            ) by {
                let i = j + 1;
                assert(v[j] == s[i]);
                assert(parent_index(j) == i / 2 - 1);
                assert(v[parent_index(j)] == s[i / 2]);
                assert(!P::comes_before(s[i], s[i / 2]));
            }
        }
        if heap_ordered::<T, P>(v) {
            assert forall|i: int| 2 <= i <= n implies !P::comes_before(
                #[trigger] s[i],
                s[i / 2],
            ) by {
                let j = i - 1;
                assert(v[j] == s[i]);
                assert(parent_index(j) == i / 2 - 1);
                assert(v[parent_index(j)] == s[i / 2]);
            }
        }
    }

    /// In a raw-ordered heap, no live element comes before the root.
    proof fn lemma_path_to_root(s: Seq<T>, n: int, i: int)
        requires
            crate::order::co_transitive::<T, P>(),
            Self::raw_ordered(s, n),
            2 <= i <= n,
        ensures
            !P::comes_before(s[i], s[1]),
        decreases i,
    {
        if i / 2 >= 2 {
            Self::lemma_path_to_root(s, n, i / 2);
        }
    }

    /// Build an empty heap around the given priority predicate.
    pub fn new(comparator: P) -> (h: Self)
        ensures
            h.wf(),
            h@ == Seq::<T>::empty(),
    {
        let mut items: Vec<T> = Vec::new();
        items.push(T::default());
        let h = Heap { count: 0, items, comparator };
        proof {
            assert(h@ =~= Seq::<T>::empty());
        }
        h
    }

    /// The number of live elements.
    pub fn len(&self) -> (n: usize)
        requires
            self.wf(),
        ensures
            n == self@.len(),
    {
        self.count
    }

    /// Whether the heap holds no live element.
    pub fn is_empty(&self) -> (b: bool)
        requires
            self.wf(),
        ensures
            b <==> self@.len() == 0,
    {
        self.len() == 0
    }

    fn parent_idx(&self, idx: usize) -> (r: usize)
        ensures
            r as int == idx as int / 2,
    {
        idx / 2
    }

    /// Whether the element at `idx` has at least one live child. Phrased by
    /// division so that the doubled index cannot overflow.
    fn children_present(&self, idx: usize) -> (r: bool)
        ensures
            r <==> 2 * (idx as int) <= self.count as int,
    {
        idx <= self.count / 2
    }

    fn left_child_idx(&self, idx: usize) -> (r: usize)
        requires
            2 * (idx as int) <= usize::MAX as int,
        ensures
            r as int == 2 * (idx as int),
    {
        idx * 2
    }

    fn right_child_idx(&self, idx: usize) -> (r: usize)
        requires
            2 * (idx as int) + 1 <= usize::MAX as int,
        ensures
            r as int == 2 * (idx as int) + 1,
    {
        self.left_child_idx(idx) + 1
    }

    /// The live child of `idx` that must come first: the only live child if
    /// there is one, otherwise whichever of the two the comparator prefers.
    /// Yields `idx` itself when no child is live. The childless and
    /// one-child cases are told apart before the child indices are formed,
    /// so that the doubled index cannot overflow.
    fn smallest_child_idx(&self, idx: usize) -> (r: usize)
        requires
            (self.count as int) < self.items@.len(),
            1 <= idx,
        ensures
            2 * (idx as int) > self.count as int ==> r == idx,
            2 * (idx as int) == self.count as int ==> r as int == 2 * (idx as int),
            2 * (idx as int) < self.count as int ==> (r as int == 2 * (idx as int) || r as int == 2
                * (idx as int) + 1),
            P::obeys() && 2 * (idx as int) < self.count as int ==> r as int == (if P::comes_before(
                self.items@[2 * (idx as int)],
                self.items@[2 * (idx as int) + 1],
            ) {
                2 * (idx as int)
            } else {
                2 * (idx as int) + 1
            }),
    {
        if !self.children_present(idx) {
            return idx;
        }
        let left_idx = self.left_child_idx(idx);
        if left_idx == self.count {
            return left_idx;
        }
        let right_idx = self.right_child_idx(idx);
        if self.comparator.compare(&self.items[left_idx], &self.items[right_idx]) {
            left_idx
        } else {
            right_idx
        }
    }

    /// Exchange the elements at two distinct backing positions.
    fn swap_items(&mut self, i: usize, j: usize)
        requires
            1 <= i < old(self).items@.len(),
            1 <= j < old(self).items@.len(),
            i != j,
        ensures
            final(self).items@ == old(self).items@.update(
                i as int,
                old(self).items@[j as int],
            ).update(j as int, old(self).items@[i as int]),
            final(self).count == old(self).count,
            final(self).comparator == old(self).comparator,
    {
        let mut tmp = T::default();
        self.items.set_and_swap(i, &mut tmp);
        self.items.set_and_swap(j, &mut tmp);
        self.items.set(i, tmp);
        proof {
            assert(self.items@ =~= old(self).items@.update(
                i as int,
                old(self).items@[j as int],
            ).update(j as int, old(self).items@[i as int]));
        }
    }

    /// Insert `value` as a new live element and restore the heap property by
    /// bubbling it up towards the root.
    pub fn add(&mut self, value: T)
        requires
            old(self).wf(),
        ensures
            final(self).wf(),
            final(self)@.len() == old(self)@.len() + 1,
            final(self)@.to_multiset() == old(self)@.to_multiset().insert(value),
    {
        broadcast use vstd::seq_lib::group_to_multiset_ensures;

        let ghost h0 = *self;
        let ghost old_live = self@;
        let n = self.items.len();
        self.count = self.count + 1;
        if self.count >= n {
            self.items.push(value);
        } else {
            self.items.set(self.count, value);
        }
        proof {
            assert(self@ =~= old_live.push(value));
            if P::obeys() && strict_ordering::<T, P>() {
                h0.lemma_raw_view();
                assert forall|i: int|
                    2 <= i <= self.count as int && i != self.count as int
                        implies !P::comes_before(
                    #[trigger] self.items@[i],
                    self.items@[i / 2],
                ) by {
                    assert(self.items@[i] == h0.items@[i]);
                    assert(self.items@[i / 2] == h0.items@[i / 2]);
                }
            }
        }

        let mut idx: usize = self.count;
        while idx > 1
            invariant_except_break
                1 <= idx as int <= self.count as int,
                (self.count as int) < self.items@.len(),
                self.count == old(self).count + 1,
                self@.to_multiset() == old_live.to_multiset().insert(value),
                P::obeys() && strict_ordering::<T, P>() ==> {
                    &&& (forall|i: int|
                        2 <= i <= self.count as int && i != idx as int ==> !P::comes_before(
                            #[trigger] self.items@[i],
                            self.items@[i / 2],
                        ))
                    &&& (idx > 1 && 2 * (idx as int) <= self.count as int ==> !P::comes_before(
                        self.items@[2 * (idx as int)],
                        self.items@[idx as int / 2],
                    ))
                    &&& (idx > 1 && 2 * (idx as int) + 1 <= self.count as int
                        ==> !P::comes_before(
                        self.items@[2 * (idx as int) + 1],
                        self.items@[idx as int / 2],
                    ))
                },
            ensures
                (self.count as int) < self.items@.len(),
                self.count == old(self).count + 1,
                self@.to_multiset() == old_live.to_multiset().insert(value),
                P::obeys() && strict_ordering::<T, P>() ==> Self::raw_ordered(
                    self.items@,
                    self.count as int,
                ),
            decreases idx,
        {
            let pidx = self.parent_idx(idx);
            if self.comparator.compare(&self.items[pidx], &self.items[idx]) {
                proof {
                    if P::obeys() && strict_ordering::<T, P>() {
                        assert(P::comes_before(self.items@[pidx as int], self.items@[idx as int]));
                        assert(!P::comes_before(self.items@[idx as int], self.items@[pidx as int]));
                    }
                }
                break ;
            }
            let ghost s = self.items@;
            let ghost k = idx as int;
            let ghost p = pidx as int;
            let ghost nn = self.count as int;
            self.swap_items(pidx, idx);
            proof {
                lemma_swap_live_multiset(s, nn, p, k);
                assert(self@ == self.items@.subrange(1, nn + 1));
                if P::obeys() && strict_ordering::<T, P>() {
                    let s2 = self.items@;
                    assert(!P::comes_before(s[p], s[k]));
                    assert forall|i: int|
                        2 <= i <= nn && i != p implies !P::comes_before(
                        #[trigger] s2[i],
                        s2[i / 2],
                    ) by {
                        if i == k {
                            assert(s2[k] == s[p] && s2[p] == s[k]);
                        } else if i / 2 == k {
                            assert(s2[i] == s[i] && s2[k] == s[p]);
                            assert(!P::comes_before(s[i], s[k / 2]));
                        } else if i / 2 == p {
                            // the sibling of the bubbling element
                            assert(s2[i] == s[i] && s2[p] == s[k]);
                            assert(!P::comes_before(s[i], s[p]));
                        } else {
                            assert(s2[i] == s[i] && s2[i / 2] == s[i / 2]);
                        }
                    }
                    if p > 1 {
                        assert(s2[p / 2] == s[p / 2]);
                        assert(!P::comes_before(s[p], s[p / 2]));
                    }
                }
            }
            idx = pidx;
        }
        proof {
            if P::obeys() && strict_ordering::<T, P>() {
                self.lemma_raw_view();
            }
        }
    }

    /// Remove and return the element that comes first, or nothing when the
    /// heap is empty. The last live element replaces the root and is bubbled
    /// down towards the leaves; over a strict ordering no remaining element
    /// comes before the one returned, so repeated calls drain the heap in
    /// priority order.
    pub fn next(&mut self) -> (r: Option<T>)
        requires
            old(self).wf(),
        ensures
            final(self).wf(),
            old(self)@.len() == 0 ==> r is None && final(self)@ == old(self)@,
            old(self)@.len() > 0 ==> {
                &&& r == Some(old(self)@[0])
                &&& final(self)@.len() == old(self)@.len() - 1
                &&& final(self)@.to_multiset() == old(self)@.to_multiset().remove(old(self)@[0])
                &&& (P::obeys() && strict_ordering::<T, P>() ==> (forall|x: T|
                    final(self)@.to_multiset().count(x) > 0 ==> !P::comes_before(
                        x,
                        old(self)@[0],
                    )))
            },
    {
        broadcast use vstd::seq_lib::group_to_multiset_ensures;
        broadcast use vstd::multiset::group_multiset_axioms;

        let ghost h0 = *self;
        if self.is_empty() {
            return None;
        }
        let ghost n0: int = self.count as int;
        let ghost s0 = self.items@;
        let ghost v1 = s0[1];

        let mut root_value = T::default();
        self.items.set_and_swap(1, &mut root_value);
        let mut last = T::default();
        self.items.set_and_swap(self.count, &mut last);
        self.items.set(1, last);
        self.count = self.count - 1;

        let ghost target_ms = h0@.to_multiset().remove(v1);
        proof {
            let ol = h0@;
            let nl = self@;
            assert(ol[0] == v1);
            if n0 >= 2 {
                let t = ol.update(0, ol[n0 - 1]);
                assert(nl =~= t.remove(n0 - 1));
                assert(ol.contains(ol[n0 - 1]));
                assert(ol.contains(ol[0]));
                assert(t.to_multiset() == ol.to_multiset().insert(ol[n0 - 1]).remove(ol[0]));
                assert(t[n0 - 1] == ol[n0 - 1]);
                assert(nl.to_multiset() =~= ol.to_multiset().remove(v1));
            } else {
                assert(nl =~= Seq::<T>::empty());
                assert(ol =~= Seq::<T>::empty().push(v1));
                assert(nl.to_multiset() =~= ol.to_multiset().remove(v1));
            }
            assert(self@.to_multiset() == target_ms);
            if P::obeys() && strict_ordering::<T, P>() {
                h0.lemma_raw_view();
                assert(Self::raw_ordered(s0, n0));
                assert forall|x: T| target_ms.count(x) > 0 implies !P::comes_before(x, v1) by {
                    assert(nl.contains(x));
                    let k = choose|k: int| 0 <= k < nl.len() && nl[k] == x;
                    if k == 0 {
                        assert(nl[0] == s0[n0]);
                        Self::lemma_path_to_root(s0, n0, n0);
                    } else {
                        assert(nl[k] == s0[k + 1]);
                        Self::lemma_path_to_root(s0, n0, k + 1);
                    }
                }
                assert forall|i: int|
                    2 <= i <= n0 - 1 && i / 2 != 1 implies !P::comes_before(
                    #[trigger] self.items@[i],
                    self.items@[i / 2],
                ) by {
                    assert(self.items@[i] == s0[i]);
                    assert(self.items@[i / 2] == s0[i / 2]);
                }
            }
        }
        if self.count == 0 {
            return Some(root_value);
        }

        let mut idx: usize = 1;
        while self.children_present(idx)
            invariant_except_break
                1 <= idx as int <= self.count as int,
                (self.count as int) < self.items@.len(),
                self.count as int == n0 - 1,
                self@.to_multiset() == target_ms,
                P::obeys() && strict_ordering::<T, P>() ==> {
                    &&& (forall|i: int|
                        2 <= i <= self.count as int && i / 2 != idx as int ==> !P::comes_before(
                            #[trigger] self.items@[i],
                            self.items@[i / 2],
                        ))
                    &&& (idx > 1 && 2 * (idx as int) <= self.count as int ==> !P::comes_before(
                        self.items@[2 * (idx as int)],
                        self.items@[idx as int / 2],
                    ))
                    &&& (idx > 1 && 2 * (idx as int) + 1 <= self.count as int
                        ==> !P::comes_before(
                        self.items@[2 * (idx as int) + 1],
                        self.items@[idx as int / 2],
                    ))
                },
            ensures
                (self.count as int) < self.items@.len(),
                self.count as int == n0 - 1,
                self@.to_multiset() == target_ms,
                P::obeys() && strict_ordering::<T, P>() ==> Self::raw_ordered(
                    self.items@,
                    self.count as int,
                ),
            decreases self.count as int - idx as int,
        {
            let cidx = self.smallest_child_idx(idx);
            if self.comparator.compare(&self.items[idx], &self.items[cidx]) {
                proof {
                    if P::obeys() && strict_ordering::<T, P>() {
                        let s = self.items@;
                        let k = idx as int;
                        let c = cidx as int;
                        let nn = self.count as int;
                        assert(!P::comes_before(s[c], s[k]));
                        assert forall|i: int| 2 <= i <= nn implies !P::comes_before(
                            #[trigger] s[i],
                            s[i / 2],
                        ) by {
                            if i / 2 == k {
                                if i != c {
                                    assert(2 * k < nn);
                                    assert(!P::comes_before(s[i], s[c]));
                                }
                            }
                        }
                    }
                }
                break ;
            }
            let ghost s = self.items@;
            let ghost k = idx as int;
            let ghost c = cidx as int;
            let ghost nn = self.count as int;
            self.swap_items(idx, cidx);
            proof {
                lemma_swap_live_multiset(s, nn, k, c);
                assert(self@ == self.items@.subrange(1, nn + 1));
                if P::obeys() && strict_ordering::<T, P>() {
                    let s2 = self.items@;
                    assert(!P::comes_before(s[k], s[c]));
                    assert forall|i: int|
                        2 <= i <= nn && i / 2 != c implies !P::comes_before(
                        #[trigger] s2[i],
                        s2[i / 2],
                    ) by {
                        if i == c {
                            assert(s2[c] == s[k] && s2[k] == s[c]);
                        } else if i / 2 == k {
                            // the other child of the sinking element
                            assert(2 * k < nn);
                            assert(s2[i] == s[i] && s2[k] == s[c]);
                            assert(!P::comes_before(s[i], s[c]));
                        } else if i == k {
                            assert(s2[k] == s[c] && s2[k / 2] == s[k / 2]);
                            assert(!P::comes_before(s[c], s[k / 2]));
                        } else {
                            assert(s2[i] == s[i] && s2[i / 2] == s[i / 2]);
                        }
                    }
                    assert(c > 1);
                    if 2 * c <= nn {
                        assert(s2[2 * c] == s[2 * c] && s2[c / 2] == s[c]);
                        assert(!P::comes_before(s[2 * c], s[c]));
                    }
                    if 2 * c + 1 <= nn {
                        assert(s2[2 * c + 1] == s[2 * c + 1] && s2[c / 2] == s[c]);
                        assert(!P::comes_before(s[2 * c + 1], s[c]));
                    }
                }
            }
            idx = cidx;
        }
        proof {
            if P::obeys() && strict_ordering::<T, P>() {
                self.lemma_raw_view();
            }
        }
        Some(root_value)
    }

    /// Drain the heap by repeated extraction. The result holds exactly the
    /// elements the heap held and — over a strict ordering — lists them in
    /// priority order: ascending for a min-heap, descending for a max-heap.
    pub fn into_sorted_vec(self) -> (r: Vec<T>)
        requires
            self.wf(),
        ensures
            r@.len() == self@.len(),
            r@.to_multiset() == self@.to_multiset(),
            P::obeys() && strict_ordering::<T, P>() ==> priority_sorted::<T, P>(r@),
    {
        broadcast use vstd::seq_lib::group_to_multiset_ensures;
        broadcast use vstd::multiset::group_multiset_axioms;

        let ghost orig = self@;
        let mut h = self;
        let mut r: Vec<T> = Vec::new();
        proof {
            assert(r@.to_multiset().add(h@.to_multiset()) =~= orig.to_multiset());
        }
        loop
            invariant
                h.wf(),
                r@.len() + h@.len() == orig.len(),
                r@.to_multiset().add(h@.to_multiset()) == orig.to_multiset(),
                P::obeys() && strict_ordering::<T, P>() ==> {
                    &&& priority_sorted::<T, P>(r@)
                    &&& (forall|x: T, i: int|
                        #![trigger h@.to_multiset().count(x), r@[i]]
                        h@.to_multiset().count(x) > 0 && 0 <= i < r@.len()
                            ==> !P::comes_before(x, r@[i]))
                },
            ensures
                h@.len() == 0,
                r@.len() == orig.len(),
                r@.to_multiset() == orig.to_multiset(),
                P::obeys() && strict_ordering::<T, P>() ==> priority_sorted::<T, P>(r@),
            decreases h@.len(),
        {
            let ghost hv = h@;
            let ghost rv = r@;
            match h.next() {
                Some(v) => {
                    r.push(v);
                    proof {
                        broadcast use vstd::seq_lib::group_to_multiset_ensures;
                        broadcast use vstd::multiset::group_multiset_axioms;

                        assert(hv.contains(hv[0]));
                        assert(h@.to_multiset() == hv.to_multiset().remove(hv[0]));
                        assert(r@.to_multiset().add(h@.to_multiset()) =~= orig.to_multiset());
                        if P::obeys() && strict_ordering::<T, P>() {
                            assert forall|i: int, j: int|
                                #![trigger r@[i], r@[j]]
                                0 <= i < j < r@.len() implies !P::comes_before(
                                r@[j],
                                r@[i],
                            ) by {
                                if j == r@.len() - 1 {
                                    assert(r@[j] == v);
                                    assert(hv.to_multiset().count(v) > 0);
                                    assert(r@[i] == rv[i]);
                                }
                            }
                        }
                    }
                },
                None => {
                    proof {
                        broadcast use vstd::seq_lib::group_to_multiset_ensures;
                        broadcast use vstd::multiset::group_multiset_axioms;

                        assert(h@.to_multiset().len() == 0);
                        assert(r@.to_multiset().add(h@.to_multiset()) =~= r@.to_multiset());
                    }
                    break ;
                },
            }
        }
        r
    }

    /// Heap property: in a valid heap over a strict ordering, no live
    /// element comes before its parent.
    pub proof fn lemma_heap_property(self)
        requires
            self.wf(),
            P::obeys(),
            strict_ordering::<T, P>(),
        ensures
            heap_ordered::<T, P>(self@),
    {
    }

    /// Positive form of the heap property: when the predicate also relates
    /// every two distinct elements, each live element's parent comes before
    /// it, except where the two are equal.
    pub proof fn lemma_heap_property_total(self)
        requires
            self.wf(),
            P::obeys(),
            strict_ordering::<T, P>(),
            crate::order::total_on_distinct::<T, P>(),
        ensures
            forall|j: int|
                1 <= j < self@.len() && self@[j] != self@[parent_index(j)]
                    ==> P::comes_before(self@[parent_index(j)], #[trigger] self@[j]),
    {
        assert forall|j: int|
            1 <= j < self@.len() && self@[j] != self@[parent_index(j)]
                implies P::comes_before(self@[parent_index(j)], #[trigger] self@[j]) by {
            assert(!P::comes_before(self@[j], self@[parent_index(j)]));
        }
    }
}

/// Build a min-heap or a max-heap for a totally ordered element type.
impl<T: Default + Ord> Heap<T, LessThan> {
    /// Create a new min-heap: extraction yields ascending values.
    pub fn new_min() -> (h: Self)
        ensures
            h.wf(),
            h@ == Seq::<T>::empty(),
    {
        Self::new(LessThan)
    }
}

impl<T: Default + Ord> Heap<T, GreaterThan> {
    /// Create a new max-heap: extraction yields descending values.
    pub fn new_max() -> (h: Self)
        ensures
            h.wf(),
            h@ == Seq::<T>::empty(),
    {
        Self::new(GreaterThan)
    }
}

/// Named constructor for a min-heap.
pub struct MinHeap;

impl MinHeap {
    /// Create a new min-heap over a totally ordered element type.
    pub fn new<T: Default + Ord>() -> (h: Heap<T, LessThan>)
        ensures
            h.wf(),
            h@ == Seq::<T>::empty(),
    {
        Heap::new(LessThan)
    }
}

/// Named constructor for a max-heap.
pub struct MaxHeap;

impl MaxHeap {
    /// Create a new max-heap over a totally ordered element type.
    pub fn new<T: Default + Ord>() -> (h: Heap<T, GreaterThan>)
        ensures
            h.wf(),
            h@ == Seq::<T>::empty(),
    {
        Heap::new(GreaterThan)
    }
}

} // verus!
