use vstd::prelude::*;
use vstd::pervasive::VecAdditionalExecFns;
use vstd::seq_lib::{to_multiset_build, to_multiset_remove, to_multiset_update};

use crate::heap::{
    heap_ordered, heap_ordered_to, in_subtree, lemma_in_subtree_of_root, lemma_root_dominates,
    lemma_sift_down_path_in_subtree, lemma_sift_down_spec_frame, lemma_sift_down_spec_len,
    lemma_sift_up_spec_props, on_ancestor_chain, on_sift_down_path, parent, parent_dominates,
    sift_down_spec, sift_up_dest, sift_up_spec, swap_at, value_from_range,
};
use crate::hole::Hole;
use crate::perm::lemma_swap_preserves_multiset;

verus! {

/// The optimized variant of the heap: same contracts as [`crate::heap::BinaryHeap`],
/// but `into_sorted_vec` and the bulk rebuild sift over the largest odd
/// prefix of the range. A heap restricted to an odd number of nodes has only
/// complete pairs of children, so the descent saves the per-level bounds test
/// on the right child; a single corrective comparison afterwards repairs the
/// one parent-child pair the truncation left out.
#[derive(Clone)]
pub struct BinaryHeap {
    data: Vec<i64>,
}

impl View for BinaryHeap {
    type V = Seq<i64>;

    closed spec fn view(&self) -> Seq<i64> {
        self.data@
    }
}

impl BinaryHeap {
    /// The heap-order invariant: established by both constructors, kept by
    /// `push` and `pop`.
    pub open spec fn wf(self) -> bool {
        heap_ordered(self@)
    }

    /// An empty heap.
    pub fn new() -> (h: BinaryHeap)
        ensures
            h.wf(),
            h@ == Seq::<i64>::empty(),
    {
        BinaryHeap { data: Vec::new() }
    }

    /// Number of elements held.
    pub fn len(&self) -> (n: usize)
        ensures
            n == self@.len(),
    {
        self.data.len()
    }

    /// True exactly when no element is held.
    pub fn is_empty(&self) -> (b: bool)
        ensures
            b <==> self@.len() == 0,
    {
        self.data.len() == 0
    }

    /// Bulk construction: takes the vector as the backing store and restores
    /// heap order bottom-up with the odd-truncated sift.
    pub fn from(data: Vec<i64>) -> (h: BinaryHeap)
        ensures
            h.wf(),
            h@.len() == data@.len(),
            h@.to_multiset() == data@.to_multiset(),
    {
        let mut h = BinaryHeap { data };
        h.rebuild();
        h
    }

    /// Hands the backing vector out as it stands: heap order, nothing more.
    pub fn into_vec(self) -> (r: Vec<i64>)
        ensures
            r@ == self@,
    {
        self.data
    }

    /// Appends the element and lets it rise to its place. Adds exactly one
    /// occurrence of `item` to the contents; the resulting arrangement is
    /// pinned exactly by [`sift_up_spec`].
    pub fn push(&mut self, item: i64)
        requires
            old(self).wf(),
        ensures
            final(self).wf(),
            final(self)@.len() == old(self)@.len() + 1,
            final(self)@.to_multiset() == old(self)@.to_multiset().insert(item),
            final(self)@ == sift_up_spec(old(self)@.push(item), 0, old(self)@.len() as int),
    {
        let ghost s0 = self.data@;
        let old_len = self.data.len();
        self.data.push(item);
        proof {
            to_multiset_build(s0, item);
            assert forall|c: int|
                1 <= c < self.data@.len() && c != old_len as int implies parent_dominates(
                self.data@,
                c,
            ) by {
                assert(parent_dominates(s0, c));
            }
        }
        self.sift_up(0, old_len);
    }

    /// Removes and returns the maximum, or signals absence on an empty heap.
    /// The remainder holds the old contents minus one occurrence of the
    /// returned root, back in heap order.
    pub fn pop(&mut self) -> (r: Option<i64>)
        requires
            old(self).wf(),
        ensures
            final(self).wf(),
            old(self)@.len() == 0 ==> r == None::<i64> && final(self)@ == old(self)@,
            old(self)@.len() > 0 ==> {
                &&& r == Some(old(self)@[0])
                &&& final(self)@.len() == old(self)@.len() - 1
                &&& final(self)@.to_multiset() == old(self)@.to_multiset().remove(old(self)@[0])
                &&& forall|i: int| 0 <= i < old(self)@.len() ==> old(self)@[0] >= #[trigger] old(
                    self,
                )@[i]
            },
    {
        let ghost s0 = self.data@;
        match self.data.pop() {
            None => None,
            Some(item) => {
                proof {
                    assert forall|i: int| 0 <= i < s0.len() implies s0[0] >= #[trigger] s0[i] by {
                        lemma_root_dominates(s0, s0.len() as int, i);
                    }
                }
                if self.data.len() > 0 {
                    let ghost d1 = self.data@;
                    let root = self.data[0];
                    self.data.set(0, item);
                    proof {
                        assert(s0 =~= d1.push(item));
                        to_multiset_build(d1, item);
                        to_multiset_update(d1, 0, item);
                        assert(self.data@.to_multiset() == s0.to_multiset().remove(s0[0]));
                        assert forall|c: int|
                            1 <= c < self.data@.len() && parent(c) != 0 implies parent_dominates(
                            self.data@,
                            c,
                        ) by {
                            assert(parent_dominates(s0, c));
                        }
                    }
                    self.sift_down_to_bottom(0);
                    Some(root)
                } else {
                    proof {
                        assert(self.data@ =~= s0.remove(0));
                        to_multiset_remove(s0, 0);
                    }
                    Some(item)
                }
            },
        }
    }

    /// In-place heapsort over the odd-truncated sift: the root retires to the
    /// shrinking end, the largest odd prefix is sifted, and one corrective
    /// comparison repairs the pair the truncation skipped. The result is the
    /// contents sorted ascending.
    pub fn into_sorted_vec(self) -> (r: Vec<i64>)
        requires
            self.wf(),
        ensures
            r@.len() == self@.len(),
            r@.to_multiset() == self@.to_multiset(),
            forall|i: int, j: int| 0 <= i <= j < r@.len() ==> r@[i] <= r@[j],
    {
        let ghost s0 = self@;
        let ghost n = s0.len() as int;
        let mut heap = self;
        let mut end = heap.data.len();
        while end > 1
            invariant
                heap@.len() == n,
                n == s0.len(),
                end as int <= n,
                heap@.to_multiset() == s0.to_multiset(),
                heap_ordered_to(heap@, end as int),
                forall|j1: int, j2: int| end <= j1 <= j2 < n ==> heap@[j1] <= heap@[j2],
                forall|i: int, j: int| 0 <= i < end <= j < n ==> heap@[i] <= heap@[j],
            decreases end,
        {
            end = end - 1;
            let ghost d = heap.data@;
            let a = heap.data[0];
            let b = heap.data[end];
            heap.data.set(0, b);
            heap.data.set(end, a);
            proof {
                let e = end as int;
                assert(heap.data@ =~= d.update(0, d[e]).update(e, d[0]));
                lemma_swap_preserves_multiset(d, 0, e);
                assert forall|i: int| 0 <= i < e + 1 implies d[0] >= #[trigger] d[i] by {
                    lemma_root_dominates(d, e + 1, i);
                }
            }
            let odd = if end % 2 == 1 {
                end
            } else {
                end - 1
            };
            let ghost d1 = heap.data@;
            proof {
                assert forall|c: int|
                    1 <= c < odd && c != 0 && in_subtree(0, c) && parent(c) != 0
                        implies parent_dominates(d1, c) by {
                    assert(parent_dominates(d, c));
                }
            }
            heap.sift_down_range_odd(0, odd);
            let ghost d2 = heap.data@;
            let ghost e = end as int;
            let ghost o = odd as int;
            // the truncation left the pair above the orphaned last slot of an
            // even prefix unexamined: one comparison repairs it
            if end > 1 {
                let c1 = heap.data[end - 1];
                let p1 = heap.data[(end - 2) / 2];
                if c1 > p1 {
                    heap.data.set(end - 1, p1);
                    heap.data.set((end - 2) / 2, c1);
                    proof {
                        let g = heap.data@;
                        let p = parent(e - 1);
                        assert(p == (e - 2) / 2);
                        assert(g =~= d2.update(e - 1, d2[p]).update(p, d2[e - 1]));
                        lemma_swap_preserves_multiset(d2, e - 1, p);
                        assert(o == e - 1) by {
                            if o == e {
                                lemma_in_subtree_of_root(e - 1);
                                assert(parent_dominates(d2, e - 1));
                            }
                        };
                        assert(d2[e - 1] == d1[e - 1] && d1[e - 1] == d[e - 1]);
                        // the old last value now sits at `p`, dominated there
                        // by what the sift left above `p`
                        assert forall|c: int| 1 <= c < e implies parent_dominates(g, c) by {
                            lemma_in_subtree_of_root(c);
                            if c == e - 1 {
                                assert(g[p] == d2[e - 1] && g[e - 1] == d2[p]);
                            } else if c == p {
                                assert(p >= 1);
                                assert(g[parent(p)] == d2[parent(p)]);
                                assert(d2[parent(p)] >= d1[p]);
                                assert(d1[p] == d[p]);
                                assert(parent_dominates(d, e - 1));
                                assert(g[p] == d2[e - 1]);
                            } else if parent(c) == p {
                                assert(g[c] == d2[c]);
                                assert(parent_dominates(d2, c));
                                assert(g[p] == d2[e - 1] && d2[e - 1] > d2[p]);
                            } else {
                                assert(parent(c) != e - 1) by {
                                    if parent(c) == e - 1 {
                                        assert(c >= 2 * parent(c) + 1);
                                    }
                                };
                                assert(g[c] == d2[c] && g[parent(c)] == d2[parent(c)]);
                                assert(parent_dominates(d2, c));
                            }
                        }
                        assert forall|i: int| 0 <= i < e implies #[trigger] value_from_range(
                            g,
                            d1,
                            i,
                            0,
                            e,
                        ) by {
                            if i == p {
                                assert(g[p] == d1[e - 1]);
                            } else if i == e - 1 {
                                assert(g[e - 1] == d2[p]);
                                assert(value_from_range(d2, d1, p, 0, o));
                                let k0 = choose|k0: int| 0 <= k0 < o && d2[p] == d1[k0];
                                assert(g[i] == d1[k0]);
                            } else {
                                assert(g[i] == d2[i]);
                                assert(value_from_range(d2, d1, i, 0, o));
                                let k0 = choose|k0: int| 0 <= k0 < o && d2[i] == d1[k0];
                                assert(g[i] == d1[k0]);
                            }
                        }
                    }
                } else {
                    proof {
                        let g = heap.data@;
                        let p = parent(e - 1);
                        assert(p == (e - 2) / 2);
                        assert forall|c: int| 1 <= c < e implies parent_dominates(g, c) by {
                            lemma_in_subtree_of_root(c);
                            if c == e - 1 && o == e - 1 {
                                // the corrective comparison found the pair
                                // already ordered
                                assert(g[e - 1] == d1[e - 1]);
                            }
                        }
                        assert forall|i: int| 0 <= i < e implies #[trigger] value_from_range(
                            g,
                            d1,
                            i,
                            0,
                            e,
                        ) by {
                            if i < o {
                                assert(value_from_range(d2, d1, i, 0, o));
                                let k0 = choose|k0: int| 0 <= k0 < o && d2[i] == d1[k0];
                                assert(g[i] == d1[k0]);
                            } else {
                                assert(i == e - 1 && g[i] == d1[i]);
                            }
                        }
                    }
                }
            } else {
                proof {
                    let g = heap.data@;
                    assert(e == 1 && o == 1);
                    assert forall|i: int| 0 <= i < e implies #[trigger] value_from_range(
                        g,
                        d1,
                        i,
                        0,
                        e,
                    ) by {
                        assert(value_from_range(d2, d1, i, 0, o));
                        let k0 = choose|k0: int| 0 <= k0 < o && d2[i] == d1[k0];
                        assert(g[i] == d1[k0]);
                    }
                }
            }
            proof {
                let g = heap.data@;
                assert(heap_ordered_to(g, e));
                assert(g.to_multiset() == s0.to_multiset());
                // the retired root heads the sorted suffix; every prefix slot
                // still holds a value the prefix held before the sift
                assert(g[e] == d2[e] && d2[e] == d1[e] && d1[e] == d[0]);
                assert forall|i: int, j: int| 0 <= i < e <= j < n implies g[i] <= g[j] by {
                    assert(value_from_range(g, d1, i, 0, e));
                    let k0 = choose|k0: int| 0 <= k0 < e && g[i] == d1[k0];
                    assert(d1[k0] <= d[0]) by {
                        if k0 == 0 {
                            assert(d1[0] == d[e]);
                        } else {
                            assert(d1[k0] == d[k0]);
                        }
                    };
                    if j > e {
                        assert(g[j] == d2[j] && d2[j] == d1[j] && d1[j] == d[j]);
                        assert(d[0] <= d[j]);
                    }
                }
                assert forall|j1: int, j2: int| e <= j1 <= j2 < n implies g[j1] <= g[j2] by {
                    if j1 > e {
                        assert(g[j1] == d2[j1] && d2[j1] == d1[j1] && d1[j1] == d[j1]);
                        assert(g[j2] == d2[j2] && d2[j2] == d1[j2] && d1[j2] == d[j2]);
                    } else if j2 > e {
                        assert(g[j2] == d2[j2] && d2[j2] == d1[j2] && d1[j2] == d[j2]);
                        assert(d[0] <= d[j2]);
                    }
                }
            }
        }
        proof {
            assert forall|i: int, j: int| 0 <= i <= j < n implies heap@[i] <= heap@[j] by {
                if i < j {
                    if i < end as int {
                        assert(heap@[i] <= heap@[j]);
                    }
                }
            }
        }
        heap.into_vec()
    }

    /// Walks the element held at `pos` toward the root, exchanging it with
    /// its parent while it exceeds it, stopping at the floor `start`. The
    /// result is pinned exactly by [`sift_up_spec`]: the held element lands
    /// at the returned index, every parent it passed moves one level down
    /// the ancestor chain, and nothing off that chain segment changes. When
    /// the floor is the root, `pos` is a leaf and every pair but the one
    /// above `pos` holds on entry, the whole vector is heap-ordered on exit.
    fn sift_up(&mut self, start: usize, pos: usize) -> (r: usize)
        requires
            start <= pos < old(self)@.len(),
        ensures
            final(self)@.len() == old(self)@.len(),
            final(self)@.to_multiset() == old(self)@.to_multiset(),
            final(self)@ == sift_up_spec(old(self)@, start as int, pos as int),
            r == sift_up_dest(old(self)@, start as int, pos as int),
            r <= pos,
            on_ancestor_chain(pos as int, r as int),
            on_ancestor_chain(pos as int, start as int) ==> start <= r,
            final(self)@[r as int] == old(self)@[pos as int],
            forall|k: int|
                0 <= k < old(self)@.len() && !(on_ancestor_chain(pos as int, k) && r <= k <= pos)
                    ==> final(self)@[k] == old(self)@[k],
            forall|k: int|
                on_ancestor_chain(pos as int, k) && r < k <= pos ==> final(self)@[k] == old(
                    self,
                )@[parent(k)],
            r > start ==> old(self)@[parent(r as int)] >= old(self)@[pos as int],
            forall|k: int|
                on_ancestor_chain(pos as int, k) && r < k <= pos ==> old(self)@[parent(k)] < old(
                    self,
                )@[pos as int],
            (start == 0 && 2 * pos + 1 >= old(self)@.len() && (forall|c: int|
                1 <= c < old(self)@.len() && c != pos ==> parent_dominates(old(self)@, c)))
                ==> (forall|c: int|
                1 <= c < final(self)@.len() && c != start ==> parent_dominates(final(self)@, c)),
    {
        let ghost s0 = self.data@;
        let ghost n = s0.len() as int;
        let ghost nice = start == 0 && 2 * pos + 1 >= s0.len() && (forall|c: int|
            1 <= c < s0.len() && c != pos ==> parent_dominates(s0, c));
        let mut v: Vec<i64> = Vec::new();
        core::mem::swap(&mut v, &mut self.data);
        let mut hole = Hole::new(v, pos);
        let mut stop: bool = false;
        while hole.pos > start && !stop
            invariant
                hole.wf(),
                hole.data@.len() == n,
                n == s0.len(),
                hole.pos <= pos < n,
                hole.filled().to_multiset() == s0.to_multiset(),
                !stop ==> sift_up_spec(hole.filled(), start as int, hole.pos as int)
                    == sift_up_spec(s0, start as int, pos as int),
                !stop ==> sift_up_dest(hole.filled(), start as int, hole.pos as int)
                    == sift_up_dest(s0, start as int, pos as int),
                stop ==> hole.filled() == sift_up_spec(s0, start as int, pos as int),
                stop ==> hole.pos as int == sift_up_dest(s0, start as int, pos as int),
                nice == (start == 0 && 2 * pos + 1 >= n && (forall|c: int|
                    1 <= c < n && c != pos ==> parent_dominates(s0, c))),
                nice && !stop ==> forall|c: int|
                    1 <= c < n && c != hole.pos as int ==> parent_dominates(hole.filled(), c),
                nice && !stop ==> forall|c: int|
                    1 <= c < n && #[trigger] parent(c) == hole.pos as int && hole.pos > 0
                        ==> hole.filled()[parent(hole.pos as int)] >= hole.filled()[c],
                nice && stop ==> forall|c: int|
                    1 <= c < n && c != start ==> parent_dominates(hole.filled(), c),
            decreases hole.pos, (if stop { 0int } else { 1int }),
        {
            let p = (hole.pos - 1) / 2;
            proof {
                assert(p < hole.pos);
                assert(parent(hole.pos as int) == p as int);
            }
            if hole.element() <= hole.get(p) {
                proof {
                    let f = hole.filled();
                    let h = hole.pos as int;
                    assert(f[h] == hole.elt);
                    assert(sift_up_spec(f, start as int, h) == f);
                    assert(sift_up_dest(f, start as int, h) == h);
                    if nice {
                        assert forall|c: int|
                            1 <= c < n && c != start implies parent_dominates(f, c) by {
                            if c == h {
                            }
                        }
                    }
                }
                stop = true;
            } else {
                let ghost f = hole.filled();
                let ghost h = hole.pos as int;
                hole.move_to(p);
                proof {
                    let g = hole.filled();
                    let pi = p as int;
                    assert(g == swap_at(f, h, pi));
                    assert(g[pi] == f[h] && g[h] == f[pi]);
                    assert(f[h] == hole.elt);
                    assert(sift_up_spec(f, start as int, h) == sift_up_spec(g, start as int, pi));
                    assert(sift_up_dest(f, start as int, h) == sift_up_dest(g, start as int, pi));
                    if nice {
                        assert forall|c: int| 1 <= c < n && c != pi implies parent_dominates(
                            g,
                            c,
                        ) by {
                            if c == h {
                                // the vacated slot now holds the old parent
                                // value, dominated by the held element above
                            } else if parent(c) == pi {
                                // sibling of the vacated slot: the held
                                // element exceeds the old parent, which
                                // dominated it
                                assert(parent_dominates(f, c));
                                assert(g[c] == f[c]);
                            } else if parent(c) == h {
                                // child of the vacated slot: the old parent
                                // dominated it (the bridge fact)
                                assert(g[c] == f[c]);
                                assert(f[parent(h)] >= f[c]);
                            } else {
                                assert(parent_dominates(f, c));
                                assert(g[c] == f[c] && g[parent(c)] == f[parent(c)]);
                            }
                        }
                        assert forall|c: int|
                            1 <= c < n && parent(c) == pi && p > 0 implies g[parent(pi)] >= g[c] by {
                            let q = parent(pi);
                            assert(0 <= q < pi);
                            assert(g[q] == f[q]);
                            assert(parent_dominates(f, pi));
                            if c == h {
                                assert(g[c] == f[pi]);
                            } else {
                                assert(g[c] == f[c]);
                                assert(parent_dominates(f, c));
                            }
                        }
                    }
                }
            }
        }
        let r = hole.pos();
        proof {
            if !stop {
                let f = hole.filled();
                let h = hole.pos as int;
                assert(h <= start as int);
                assert(sift_up_spec(f, start as int, h) == f);
                assert(sift_up_dest(f, start as int, h) == h);
            }
            lemma_sift_up_spec_props(s0, start as int, pos as int);
        }
        self.data = hole.close();
        r
    }

    /// One sift-down step over the odd prefix `[pos..end)`, `end` odd: every
    /// node of the prefix with a child in the prefix has both, so the descent
    /// compares the two children without testing the right one for range.
    /// The result is pinned to [`sift_down_spec`] — exactly what the
    /// reference two-children sift produces from the same input. Beyond
    /// that, the new value above every subtree slot dominates the slot's old
    /// value, which is what justifies the single corrective comparison after
    /// a truncated sift.
    fn sift_down_range_odd(&mut self, pos: usize, end: usize)
        requires
            pos < end <= old(self)@.len(),
            end % 2 == 1,
            forall|c: int|
                1 <= c < end && c != pos && in_subtree(pos as int, c) && parent(c) != pos
                    ==> parent_dominates(old(self)@, c),
        ensures
            final(self)@.len() == old(self)@.len(),
            final(self)@.to_multiset() == old(self)@.to_multiset(),
            final(self)@ == sift_down_spec(old(self)@, pos as int, end as int),
            forall|c: int|
                1 <= c < end && c != pos && in_subtree(pos as int, c) ==> parent_dominates(
                    final(self)@,
                    c,
                ),
            forall|k: int|
                0 <= k < old(self)@.len() && !on_sift_down_path(
                    old(self)@,
                    pos as int,
                    end as int,
                    k,
                ) ==> final(self)@[k] == old(self)@[k],
            forall|k: int|
                0 <= k < old(self)@.len() && !in_subtree(pos as int, k) ==> final(self)@[k]
                    == old(self)@[k],
            forall|k: int|
                0 <= k < old(self)@.len() && !(pos <= k < end) ==> final(self)@[k] == old(
                    self,
                )@[k],
            forall|k: int|
                pos <= k < end ==> #[trigger] value_from_range(
                    final(self)@,
                    old(self)@,
                    k,
                    pos as int,
                    end as int,
                ),
            forall|c: int|
                pos < c < end && #[trigger] in_subtree(pos as int, c) ==> final(self)@[parent(c)]
                    >= old(self)@[c],
    {
        let ghost s0 = self.data@;
        let ghost n = s0.len() as int;
        let ghost lo = pos as int;
        let ghost hi = end as int;
        let mut v: Vec<i64> = Vec::new();
        core::mem::swap(&mut v, &mut self.data);
        let mut hole = Hole::new(v, pos);
        let mut stop: bool = false;
        proof {
            assert forall|k: int| lo <= k < hi implies #[trigger] value_from_range(
                hole.filled(),
                s0,
                k,
                lo,
                hi,
            ) by {
                assert(hole.filled()[k] == s0[k]);
            }
            assert forall|c: int|
                lo < c < hi && #[trigger] in_subtree(lo, c) && parent(c) != pos as int
                    implies hole.filled()[parent(c)] >= s0[c] by {
                assert(parent_dominates(s0, c));
            }
        }
        while hole.pos < end / 2 && !stop
            invariant
                hole.wf(),
                hole.data@.len() == n,
                n == s0.len(),
                lo == pos as int,
                hi == end as int,
                hi % 2 == 1,
                pos <= hole.pos < end <= n,
                hole.filled().to_multiset() == s0.to_multiset(),
                in_subtree(lo, hole.pos as int),
                forall|k: int| 0 <= k < n && !(lo <= k < hi) ==> hole.filled()[k] == s0[k],
                forall|k: int| hole.pos < k < hi ==> hole.filled()[k] == s0[k],
                forall|k: int|
                    lo <= k < hi ==> #[trigger] value_from_range(hole.filled(), s0, k, lo, hi),
                hole.pos > pos ==> parent(hole.pos as int) >= lo,
                !stop ==> sift_down_spec(hole.filled(), hole.pos as int, hi) == sift_down_spec(
                    s0,
                    lo,
                    hi,
                ),
                stop ==> hole.filled() == sift_down_spec(s0, lo, hi),
                !stop ==> forall|c: int|
                    1 <= c < hi && c != lo && in_subtree(lo, c) && parent(c) != hole.pos as int
                        ==> parent_dominates(hole.filled(), c),
                !stop ==> forall|c: int|
                    1 <= c < hi && #[trigger] parent(c) == hole.pos as int && hole.pos > pos
                        ==> hole.filled()[parent(hole.pos as int)] >= hole.filled()[c],
                !stop ==> forall|c: int|
                    lo < c < hi && #[trigger] in_subtree(lo, c) && parent(c) != hole.pos as int
                        ==> hole.filled()[parent(c)] >= s0[c],
                stop ==> forall|c: int|
                    1 <= c < hi && c != lo && in_subtree(lo, c) ==> parent_dominates(
                        hole.filled(),
                        c,
                    ),
                stop ==> forall|c: int|
                    lo < c < hi && #[trigger] in_subtree(lo, c) ==> hole.filled()[parent(c)]
                        >= s0[c],
            decreases end - hole.pos, (if stop { 0int } else { 1int }),
        {
            let left = 2 * hole.pos + 1;
            proof {
                assert(left < end);
                assert(left as int % 2 == 1);
                assert(left as int != hi - 1);
                assert(left + 1 < end);
                assert(parent(left as int) == hole.pos as int);
                assert(parent(left as int + 1) == hole.pos as int);
            }
            // an odd prefix holds complete pairs of children: the left child
            // being in range puts the right child in range too
            let right = left + 1;
            let mut child = left;
            if hole.get(left) <= hole.get(right) {
                child = right;
            }
            proof {
                let f = hole.filled();
                let h = hole.pos as int;
                assert(child as int == (if 2 * h + 2 < hi && f[2 * h + 1] <= f[2 * h + 2] {
                    2 * h + 2
                } else {
                    2 * h + 1
                }));
                assert(in_subtree(lo, child as int));
            }
            if hole.element() >= hole.get(child) {
                proof {
                    let f = hole.filled();
                    let h = hole.pos as int;
                    assert(f[h] == hole.elt);
                    assert(sift_down_spec(f, h, hi) == f);
                    assert forall|c: int|
                        1 <= c < hi && c != lo && in_subtree(lo, c) implies parent_dominates(
                        f,
                        c,
                    ) by {
                        if parent(c) == h {
                            assert(c == left as int || c == right as int);
                        }
                    }
                    assert forall|c: int|
                        lo < c < hi && #[trigger] in_subtree(lo, c) implies f[parent(c)]
                            >= s0[c] by {
                        if parent(c) == h {
                            assert(c == left as int || c == right as int);
                            assert(f[c] == s0[c]);
                        }
                    }
                }
                stop = true;
            } else {
                let ghost f = hole.filled();
                let ghost h = hole.pos as int;
                hole.move_to(child);
                proof {
                    let g = hole.filled();
                    let ci = child as int;
                    assert(g == swap_at(f, h, ci));
                    assert(g[h] == f[ci] && g[ci] == f[h]);
                    assert(f[h] == hole.elt);
                    assert(sift_down_spec(f, h, hi) == sift_down_spec(g, ci, hi));
                    assert forall|c: int|
                        1 <= c < hi && c != lo && in_subtree(lo, c) && parent(c) != ci
                            implies parent_dominates(g, c) by {
                        if c == ci {
                            // the promoted child's slot now holds the held
                            // element, which the move found to be smaller
                        } else if c == h {
                            // pair above the old gap: the bridge fact bounds
                            // the promoted child by the old gap's parent
                            assert(f[parent(h)] >= f[ci]);
                            assert(g[parent(h)] == f[parent(h)]);
                        } else if parent(c) == h {
                            // sibling of the promoted child, the larger one
                            assert(c == left as int || c == right as int);
                            assert(g[c] == f[c]);
                        } else {
                            assert(parent_dominates(f, c));
                            assert(g[c] == f[c] && g[parent(c)] == f[parent(c)]);
                        }
                    }
                    assert forall|c: int|
                        1 <= c < hi && #[trigger] parent(c) == ci implies g[parent(ci)]
                            >= g[c] by {
                        assert(g[h] == f[ci]);
                        assert(c != h);
                        assert(g[c] == f[c]);
                        assert(in_subtree(lo, c));
                        assert(parent_dominates(f, c));
                    }
                    assert forall|c: int|
                        lo < c < hi && #[trigger] in_subtree(lo, c) && parent(c) != ci
                            implies g[parent(c)] >= s0[c] by {
                        if parent(c) == h {
                            assert(c == left as int || c == right as int);
                            assert(f[c] == s0[c]);
                            assert(g[h] == f[ci]);
                        } else {
                            assert(g[parent(c)] == f[parent(c)]);
                        }
                    }
                    assert forall|k: int| 0 <= k < n && !(lo <= k < hi) implies g[k] == s0[k] by {
                        assert(g[k] == f[k]);
                    }
                    assert forall|k: int| lo <= k < hi implies #[trigger] value_from_range(
                        g,
                        s0,
                        k,
                        lo,
                        hi,
                    ) by {
                        if k == h {
                            assert(value_from_range(f, s0, ci, lo, hi));
                            let k0 = choose|k0: int| lo <= k0 < hi && f[ci] == s0[k0];
                            assert(g[h] == s0[k0]);
                        } else if k == ci {
                            assert(value_from_range(f, s0, h, lo, hi));
                            let k0 = choose|k0: int| lo <= k0 < hi && f[h] == s0[k0];
                            assert(g[ci] == s0[k0]);
                        } else {
                            assert(value_from_range(f, s0, k, lo, hi));
                            let k0 = choose|k0: int| lo <= k0 < hi && f[k] == s0[k0];
                            assert(g[k] == s0[k0]);
                        }
                    }
                }
            }
        }
        proof {
            if !stop {
                let f = hole.filled();
                let h = hole.pos as int;
                assert(2 * (hi / 2) >= hi - 1);
                assert(2 * h + 1 >= hi);
                assert(sift_down_spec(f, h, hi) == f);
                assert forall|c: int|
                    1 <= c < hi && c != lo && in_subtree(lo, c) implies parent_dominates(f, c) by {
                    if parent(c) == h {
                        assert(c >= 2 * parent(c) + 1);
                    }
                }
                assert forall|c: int|
                    lo < c < hi && #[trigger] in_subtree(lo, c) implies f[parent(c)] >= s0[c] by {
                    if parent(c) == h {
                        assert(c >= 2 * parent(c) + 1);
                    }
                }
            }
        }
        self.data = hole.close();
        proof {
            lemma_sift_down_spec_len(s0, lo, hi);
            assert forall|k: int|
                0 <= k < n && !on_sift_down_path(s0, lo, hi, k) implies self.data@[k] == s0[k] by {
                lemma_sift_down_spec_frame(s0, lo, hi, k);
            }
            assert forall|k: int|
                0 <= k < n && !in_subtree(lo, k) implies self.data@[k] == s0[k] by {
                if on_sift_down_path(s0, lo, hi, k) {
                    lemma_sift_down_path_in_subtree(s0, lo, hi, k);
                } else {
                    lemma_sift_down_spec_frame(s0, lo, hi, k);
                }
            }
        }
    }

    /// The sift used by `pop`: the root's replacement descends all the way to
    /// a leaf along the path of larger children without being compared, and
    /// is then sifted back up from there.
    fn sift_down_to_bottom(&mut self, pos: usize)
        requires
            pos == 0,
            old(self)@.len() > 0,
            forall|c: int|
                1 <= c < old(self)@.len() && parent(c) != pos as int ==> parent_dominates(
                    old(self)@,
                    c,
                ),
        ensures
            final(self)@.len() == old(self)@.len(),
            final(self)@.to_multiset() == old(self)@.to_multiset(),
            heap_ordered(final(self)@),
    {
        let ghost s0 = self.data@;
        let ghost n = s0.len() as int;
        let end = self.data.len();
        let start = pos;
        let mut v: Vec<i64> = Vec::new();
        core::mem::swap(&mut v, &mut self.data);
        let mut hole = Hole::new(v, pos);
        while hole.pos < end / 2
            invariant
                hole.wf(),
                hole.data@.len() == n,
                n == s0.len(),
                end as int == n,
                pos == 0,
                hole.pos < end,
                hole.filled().to_multiset() == s0.to_multiset(),
                forall|c: int|
                    1 <= c < n && c != hole.pos as int && parent(c) != hole.pos as int
                        ==> parent_dominates(hole.filled(), c),
                hole.pos > 0 ==> forall|c: int|
                    1 <= c < n && #[trigger] parent(c) == hole.pos as int
                        ==> hole.filled()[parent(hole.pos as int)] >= hole.filled()[c],
            decreases n - hole.pos,
        {
            let left = 2 * hole.pos + 1;
            proof {
                assert(left < end);
                assert(parent(left as int) == hole.pos as int);
                assert(parent(left as int + 1) == hole.pos as int);
            }
            let right = left + 1;
            let mut child = left;
            if right < end && hole.get(left) <= hole.get(right) {
                child = right;
            }
            let ghost f = hole.filled();
            let ghost h = hole.pos as int;
            hole.move_to(child);
            proof {
                let g = hole.filled();
                let ci = child as int;
                assert(g[h] == f[ci] && g[ci] == f[h]);
                assert forall|c: int|
                    1 <= c < n && c != ci && parent(c) != ci implies parent_dominates(g, c) by {
                    if c == h {
                        assert(f[parent(h)] >= f[ci]);
                        assert(g[parent(h)] == f[parent(h)]);
                    } else if parent(c) == h {
                        assert(c == left as int || c == right as int);
                        assert(g[c] == f[c]);
                    } else {
                        assert(parent_dominates(f, c));
                        assert(g[c] == f[c] && g[parent(c)] == f[parent(c)]);
                    }
                }
                assert forall|c: int|
                    1 <= c < n && #[trigger] parent(c) == ci implies g[parent(ci)] >= g[c] by {
                    assert(g[h] == f[ci]);
                    assert(c != h);
                    assert(g[c] == f[c]);
                    assert(parent_dominates(f, c));
                }
            }
        }
        let bottom = hole.pos();
        proof {
            let h = bottom as int;
            assert(2 * (n / 2) >= n - 1);
            assert(2 * h + 1 >= n);
            assert forall|c: int|
                1 <= c < n && c != h implies parent_dominates(hole.filled(), c) by {
                if parent(c) == h {
                    assert(c >= 2 * parent(c) + 1);
                }
            }
        }
        self.data = hole.close();
        self.sift_up(start, bottom);
    }

    /// Bottom-up heap construction: the odd-truncated sift at every internal
    /// node, last to first, then one sift-up to fold in the orphaned last
    /// slot of an even-length vector.
    fn rebuild(&mut self)
        ensures
            final(self)@.len() == old(self)@.len(),
            final(self)@.to_multiset() == old(self)@.to_multiset(),
            final(self).wf(),
    {
        let len = self.data.len();
        let ghost n = len as int;
        if len > 1 {
            let odd = if len % 2 == 1 {
                len
            } else {
                len - 1
            };
            proof {
                assert forall|c: int|
                    1 <= c < odd && parent(c) >= n / 2 implies parent_dominates(self.data@, c) by {
                    assert(c >= 2 * parent(c) + 1);
                    assert(2 * (n / 2) >= n - 1);
                    assert(false);
                }
            }
            let mut i = len / 2;
            while i > 0
                invariant
                    i <= len / 2,
                    self.data@.len() == n,
                    n == len as int,
                    odd as int == if n % 2 == 1 { n } else { n - 1 },
                    2 <= len,
                    self.data@.to_multiset() == old(self)@.to_multiset(),
                    forall|c: int|
                        1 <= c < odd && parent(c) >= i as int ==> parent_dominates(self.data@, c),
                decreases i,
            {
                i = i - 1;
                let ghost pre = self.data@;
                proof {
                    assert forall|c: int|
                        1 <= c < odd && c != i as int && in_subtree(i as int, c) && parent(c) != i
                            implies parent_dominates(pre, c) by {
                        assert(in_subtree(i as int, parent(c)));
                        crate::heap::lemma_in_subtree_bounds(i as int, parent(c));
                    }
                }
                self.sift_down_range_odd(i, odd);
                proof {
                    assert forall|c: int|
                        1 <= c < odd && parent(c) >= i as int implies parent_dominates(
                        self.data@,
                        c,
                    ) by {
                        if !in_subtree(i as int, c) {
                            // outside the subtree neither slot of the pair
                            // moved
                            assert(c >= 2 * parent(c) + 1);
                            assert(!in_subtree(i as int, parent(c))) by {
                                if in_subtree(i as int, parent(c)) {
                                    crate::heap::lemma_in_subtree_bounds(i as int, parent(c));
                                    assert(in_subtree(i as int, c));
                                }
                            };
                            assert(parent(c) != i as int) by {
                                if parent(c) == i as int {
                                    assert(in_subtree(i as int, c));
                                }
                            };
                            assert(self.data@[c] == pre[c]);
                            assert(self.data@[parent(c)] == pre[parent(c)]);
                            assert(parent_dominates(pre, c));
                        }
                    }
                }
            }
            if len != odd {
                // even length: the last slot took no part in the truncated
                // sifts and may still exceed its parent
                self.sift_up(0, odd);
            }
        }
    }
}

} // verus!
