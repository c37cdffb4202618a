use vstd::prelude::*;
use vstd::pervasive::VecAdditionalExecFns;
use vstd::seq_lib::{to_multiset_build, to_multiset_remove, to_multiset_update};

use crate::hole::Hole;
use crate::perm::lemma_swap_preserves_multiset;

verus! {

/// Index of the parent of a non-root node of the implicit tree.
pub open spec fn parent(c: int) -> int {
    (c - 1) / 2
}

/// The one heap-order constraint tying node `c` to its parent.
pub open spec fn parent_dominates(s: Seq<i64>, c: int) -> bool {
    s[parent(c)] >= s[c]
}

/// Max-heap order over the prefix `s[..end]`: every non-root node of the
/// prefix is dominated by its parent.
pub open spec fn heap_ordered_to(s: Seq<i64>, end: int) -> bool {
    forall|c: int| 1 <= c < end ==> parent_dominates(s, c)
}

/// Max-heap order over the whole sequence.
pub open spec fn heap_ordered(s: Seq<i64>) -> bool {
    heap_ordered_to(s, s.len() as int)
}

/// Slot `k` of `s_new` holds a value that stood somewhere in `s_old[lo..hi]`.
pub open spec fn value_from_range(s_new: Seq<i64>, s_old: Seq<i64>, k: int, lo: int, hi: int) -> bool {
    exists|k0: int| lo <= k0 < hi && s_new[k] == s_old[k0]
}

/// In a heap-ordered prefix the root dominates every node of the prefix.
pub proof fn lemma_root_dominates(s: Seq<i64>, end: int, i: int)
    requires
        heap_ordered_to(s, end),
        end <= s.len(),
        0 <= i < end,
    ensures
        s[0] >= s[i],
    decreases i,
{
    if i > 0 {
        assert(parent_dominates(s, i));
        assert(0 <= parent(i) < i);
        lemma_root_dominates(s, end, parent(i));
    }
}

/// The two slots `i` and `j` of `s` exchanged. On the hole's filled view,
/// each move of a sift is one such exchange.
pub open spec fn swap_at(s: Seq<i64>, i: int, j: int) -> Seq<i64> {
    s.update(i, s[j]).update(j, s[i])
}

/// Node `i` lies in the subtree rooted at `root` of the implicit tree.
pub open spec fn in_subtree(root: int, i: int) -> bool
    decreases i,
    when 0 <= i
{
    if i <= root || i < 1 {
        i == root
    } else {
        in_subtree(root, parent(i))
    }
}

/// `k` lies on the parent chain from `pos` up to the root, `pos` included.
pub open spec fn on_ancestor_chain(pos: int, k: int) -> bool
    decreases pos,
    when 0 <= pos
{
    k == pos || (pos >= 1 && on_ancestor_chain(parent(pos), k))
}

/// Exact result of the reference sift-down over `s[..end]` with the gap at
/// `h`: descend, exchanging with the larger child — the right one when the
/// two compare equal — and stop as soon as the held value dominates the
/// chosen child or the range ends.
pub open spec fn sift_down_spec(s: Seq<i64>, h: int, end: int) -> Seq<i64>
    decreases end - h,
    when 0 <= h
{
    if 2 * h + 1 >= end {
        s
    } else {
        let c = if 2 * h + 2 < end && s[2 * h + 1] <= s[2 * h + 2] {
            2 * h + 2
        } else {
            2 * h + 1
        };
        if s[h] >= s[c] {
            s
        } else {
            sift_down_spec(swap_at(s, h, c), c, end)
        }
    }
}

/// The slots the reference sift-down writes: the descent path from `h`.
pub open spec fn on_sift_down_path(s: Seq<i64>, h: int, end: int, k: int) -> bool
    decreases end - h,
    when 0 <= h
{
    k == h || if 2 * h + 1 >= end {
        false
    } else {
        let c = if 2 * h + 2 < end && s[2 * h + 1] <= s[2 * h + 2] {
            2 * h + 2
        } else {
            2 * h + 1
        };
        if s[h] >= s[c] {
            false
        } else {
            on_sift_down_path(swap_at(s, h, c), c, end, k)
        }
    }
}

/// Exact result of sift-up over `s` with the gap at `h` and floor `start`:
/// ascend, exchanging with the parent, until the parent dominates the held
/// value or the gap is at or above the floor.
pub open spec fn sift_up_spec(s: Seq<i64>, start: int, h: int) -> Seq<i64>
    decreases h,
    when 0 <= start
{
    if h <= start {
        s
    } else if s[parent(h)] >= s[h] {
        s
    } else {
        sift_up_spec(swap_at(s, h, parent(h)), start, parent(h))
    }
}

/// The index where sift-up leaves the held value.
pub open spec fn sift_up_dest(s: Seq<i64>, start: int, h: int) -> int
    decreases h,
    when 0 <= start
{
    if h <= start {
        h
    } else if s[parent(h)] >= s[h] {
        h
    } else {
        sift_up_dest(swap_at(s, h, parent(h)), start, parent(h))
    }
}

/// Everything in a subtree lies at or after its root.
pub proof fn lemma_in_subtree_bounds(root: int, i: int)
    requires
        0 <= i,
        in_subtree(root, i),
    ensures
        root <= i,
    decreases i,
{
    if !(i <= root || i < 1) {
        lemma_in_subtree_bounds(root, parent(i));
    }
}

/// The root's subtree is the whole tree.
pub proof fn lemma_in_subtree_of_root(i: int)
    requires
        0 <= i,
    ensures
        in_subtree(0, i),
    decreases i,
{
    if i >= 1 {
        lemma_in_subtree_of_root(parent(i));
    }
}

/// Subtree membership is transitive.
pub proof fn lemma_in_subtree_trans(a: int, b: int, k: int)
    requires
        0 <= a,
        0 <= b,
        0 <= k,
        in_subtree(a, b),
        in_subtree(b, k),
    ensures
        in_subtree(a, k),
    decreases k,
{
    lemma_in_subtree_bounds(a, b);
    if !(k <= b || k < 1) {
        lemma_in_subtree_trans(a, b, parent(k));
        lemma_in_subtree_bounds(b, k);
    }
}

/// The parent chain of `pos` stays within `[0, pos]`.
pub proof fn lemma_chain_bounds(pos: int, k: int)
    requires
        0 <= pos,
        on_ancestor_chain(pos, k),
    ensures
        0 <= k <= pos,
    decreases pos,
{
    if k != pos {
        lemma_chain_bounds(parent(pos), k);
    }
}

/// The reference sift-down keeps the length.
pub proof fn lemma_sift_down_spec_len(s: Seq<i64>, h: int, end: int)
    requires
        0 <= h,
        end <= s.len(),
    ensures
        sift_down_spec(s, h, end).len() == s.len(),
    decreases end - h,
{
    if 2 * h + 1 < end {
        let c: int = if 2 * h + 2 < end && s[2 * h + 1] <= s[2 * h + 2] {
            2 * h + 2
        } else {
            2 * h + 1
        };
        if s[h] < s[c] {
            lemma_sift_down_spec_len(swap_at(s, h, c), c, end);
        }
    }
}

/// The reference sift-down writes nothing outside its descent path.
pub proof fn lemma_sift_down_spec_frame(s: Seq<i64>, h: int, end: int, k: int)
    requires
        0 <= h,
        end <= s.len(),
        0 <= k < s.len(),
        !on_sift_down_path(s, h, end, k),
    ensures
        sift_down_spec(s, h, end)[k] == s[k],
    decreases end - h,
{
    if 2 * h + 1 < end {
        let c: int = if 2 * h + 2 < end && s[2 * h + 1] <= s[2 * h + 2] {
            2 * h + 2
        } else {
            2 * h + 1
        };
        if s[h] < s[c] {
            assert(k != h);
            assert(on_sift_down_path(swap_at(s, h, c), c, end, c));
            assert(!on_sift_down_path(swap_at(s, h, c), c, end, k));
            lemma_sift_down_spec_frame(swap_at(s, h, c), c, end, k);
            assert(swap_at(s, h, c)[k] == s[k]);
            assert(sift_down_spec(s, h, end) == sift_down_spec(swap_at(s, h, c), c, end));
        } else {
            assert(sift_down_spec(s, h, end) == s);
        }
    } else {
        assert(sift_down_spec(s, h, end) == s);
    }
}

/// The descent path stays inside the subtree of its starting gap.
pub proof fn lemma_sift_down_path_in_subtree(s: Seq<i64>, h: int, end: int, k: int)
    requires
        0 <= h,
        on_sift_down_path(s, h, end, k),
    ensures
        0 <= k,
        in_subtree(h, k),
    decreases end - h,
{
    if k != h {
        let c: int = if 2 * h + 2 < end && s[2 * h + 1] <= s[2 * h + 2] {
            2 * h + 2
        } else {
            2 * h + 1
        };
        lemma_sift_down_path_in_subtree(swap_at(s, h, c), c, end, k);
        assert(parent(c) == h);
        assert(in_subtree(h, h));
        assert(in_subtree(h, c));
        lemma_in_subtree_trans(h, c, k);
    }
}

/// What sift-up does, slot by slot: the held value lands at the destination,
/// each parent it passed moves one level down the chain toward the starting
/// slot, nothing off that chain segment changes, and the ascent stops at the
/// floor or at the first parent that dominates the held value.
pub proof fn lemma_sift_up_spec_props(s: Seq<i64>, start: int, h: int)
    requires
        0 <= start,
        0 <= h < s.len(),
    ensures
        ({
            let r = sift_up_dest(s, start, h);
            let t = sift_up_spec(s, start, h);
            &&& t.len() == s.len()
            &&& 0 <= r <= h
            &&& (on_ancestor_chain(h, start) ==> start <= r)
            &&& on_ancestor_chain(h, r)
            &&& t[r] == s[h]
            &&& forall|k: int|
                0 <= k < s.len() && !(on_ancestor_chain(h, k) && r <= k <= h) ==> t[k] == s[k]
            &&& forall|k: int|
                on_ancestor_chain(h, k) && r < k <= h ==> t[k] == s[parent(k)]
            &&& (r > start ==> s[parent(r)] >= s[h])
            &&& forall|k: int| on_ancestor_chain(h, k) && r < k <= h ==> s[parent(k)] < s[h]
        }),
    decreases h,
{
    let r = sift_up_dest(s, start, h);
    let t = sift_up_spec(s, start, h);
    if h <= start || s[parent(h)] >= s[h] {
        if on_ancestor_chain(h, start) {
            lemma_chain_bounds(h, start);
        }
        assert forall|k: int| on_ancestor_chain(h, k) && r < k <= h implies t[k] == s[parent(k)] by {
            lemma_chain_bounds(h, k);
        }
    } else {
        let p = parent(h);
        let s1 = swap_at(s, h, p);
        lemma_sift_up_spec_props(s1, start, p);
        let r1 = sift_up_dest(s1, start, p);
        let t1 = sift_up_spec(s1, start, p);
        assert(r == r1 && t == t1);
        assert(s1[p] == s[h] && s1[h] == s[p]);
        lemma_chain_bounds(p, r1);
        assert forall|k: int|
            0 <= k < s.len() && !(on_ancestor_chain(h, k) && r <= k <= h) implies t[k] == s[k] by {
            if on_ancestor_chain(p, k) {
                lemma_chain_bounds(p, k);
                assert(k < r);
                assert(t1[k] == s1[k]);
            } else {
                assert(k != h && k != p);
                assert(t1[k] == s1[k]);
            }
        }
        assert forall|k: int|
            on_ancestor_chain(h, k) && r < k <= h implies t[k] == s[parent(k)] by {
            if k == h {
                assert(!on_ancestor_chain(p, h)) by {
                    if on_ancestor_chain(p, h) {
                        lemma_chain_bounds(p, h);
                    }
                };
                assert(t1[h] == s1[h]);
            } else {
                lemma_chain_bounds(p, k);
                assert(t1[k] == s1[parent(k)]);
                assert(parent(k) < k <= p);
            }
        }
        assert forall|k: int|
            on_ancestor_chain(h, k) && r < k <= h implies s[parent(k)] < s[h] by {
            if k != h {
                lemma_chain_bounds(p, k);
                assert(s1[parent(k)] < s1[p]);
                assert(parent(k) < k <= p && parent(k) != h);
            }
        }
        if r > start {
            assert(s1[parent(r)] >= s1[p]);
            assert(parent(r) < r <= p && parent(r) != h);
        }
    }
}

/// A sequence-backed max-heap over `i64`: parent at `i`, children at `2i+1`
/// and `2i+2`, no auxiliary structure. Every structural operation opens one
/// [`Hole`] over the backing vector and lets its closing write commit the
/// final placement.
#[derive(Clone)]
pub struct BinaryHeap {
    data: Vec<i64>,
}

impl View for BinaryHeap {
    type V = Seq<i64>;

    closed spec fn view(&self) -> Seq<i64> {
        self.data@
    }
}

impl BinaryHeap {
    /// The heap-order invariant: established by both constructors, kept by
    /// `push` and `pop`.
    pub open spec fn wf(self) -> bool {
        heap_ordered(self@)
    }

    /// An empty heap.
    pub fn new() -> (h: BinaryHeap)
        ensures
            h.wf(),
            h@ == Seq::<i64>::empty(),
    {
        BinaryHeap { data: Vec::new() }
    }

    /// Number of elements held.
    pub fn len(&self) -> (n: usize)
        ensures
            n == self@.len(),
    {
        self.data.len()
    }

    /// True exactly when no element is held.
    pub fn is_empty(&self) -> (b: bool)
        ensures
            b <==> self@.len() == 0,
    {
        self.data.len() == 0
    }

    /// Bulk construction: takes the vector as the backing store and restores
    /// heap order bottom-up. The result holds exactly the given elements.
    pub fn from(data: Vec<i64>) -> (h: BinaryHeap)
        ensures
            h.wf(),
            h@.len() == data@.len(),
            h@.to_multiset() == data@.to_multiset(),
    {
        let mut h = BinaryHeap { data };
        h.rebuild();
        h
    }

    /// Hands the backing vector out as it stands: heap order, nothing more.
    pub fn into_vec(self) -> (r: Vec<i64>)
        ensures
            r@ == self@,
    {
        self.data
    }

    /// Appends the element and lets it rise to its place. Adds exactly one
    /// occurrence of `item` to the contents; the resulting arrangement is
    /// pinned exactly by [`sift_up_spec`].
    pub fn push(&mut self, item: i64)
        requires
            old(self).wf(),
        ensures
            final(self).wf(),
            final(self)@.len() == old(self)@.len() + 1,
            final(self)@.to_multiset() == old(self)@.to_multiset().insert(item),
            final(self)@ == sift_up_spec(old(self)@.push(item), 0, old(self)@.len() as int),
    {
        let ghost s0 = self.data@;
        let old_len = self.data.len();
        self.data.push(item);
        proof {
            to_multiset_build(s0, item);
            assert forall|c: int|
                1 <= c < self.data@.len() && c != old_len as int implies parent_dominates(
                self.data@,
                c,
            ) by {
                assert(parent_dominates(s0, c));
            }
        }
        self.sift_up(0, old_len);
    }

    /// Removes and returns the maximum, or signals absence on an empty heap.
    /// The remainder holds the old contents minus one occurrence of the
    /// returned root, back in heap order.
    pub fn pop(&mut self) -> (r: Option<i64>)
        requires
            old(self).wf(),
        ensures
            final(self).wf(),
            old(self)@.len() == 0 ==> r == None::<i64> && final(self)@ == old(self)@,
            old(self)@.len() > 0 ==> {
                &&& r == Some(old(self)@[0])
                &&& final(self)@.len() == old(self)@.len() - 1
                &&& final(self)@.to_multiset() == old(self)@.to_multiset().remove(old(self)@[0])
                &&& forall|i: int| 0 <= i < old(self)@.len() ==> old(self)@[0] >= #[trigger] old(
                    self,
                )@[i]
            },
    {
        let ghost s0 = self.data@;
        match self.data.pop() {
            None => None,
            Some(item) => {
                proof {
                    assert forall|i: int| 0 <= i < s0.len() implies s0[0] >= #[trigger] s0[i] by {
                        lemma_root_dominates(s0, s0.len() as int, i);
                    }
                }
                if self.data.len() > 0 {
                    let ghost d1 = self.data@;
                    let root = self.data[0];
                    self.data.set(0, item);
                    proof {
                        assert(s0 =~= d1.push(item));
                        to_multiset_build(d1, item);
                        to_multiset_update(d1, 0, item);
                        assert(self.data@.to_multiset() == s0.to_multiset().remove(s0[0]));
                        assert forall|c: int|
                            1 <= c < self.data@.len() && parent(c) != 0 implies parent_dominates(
                            self.data@,
                            c,
                        ) by {
                            assert(parent_dominates(s0, c));
                        }
                    }
                    self.sift_down_to_bottom(0);
                    Some(root)
                } else {
                    proof {
                        assert(self.data@ =~= s0.remove(0));
                        to_multiset_remove(s0, 0);
                    }
                    Some(item)
                }
            },
        }
    }

    /// In-place heapsort: repeatedly retires the root to the shrinking end of
    /// the vector, then hands the vector out sorted ascending. The result is
    /// a permutation of the heap's contents.
    pub fn into_sorted_vec(self) -> (r: Vec<i64>)
        requires
            self.wf(),
        ensures
            r@.len() == self@.len(),
            r@.to_multiset() == self@.to_multiset(),
            forall|i: int, j: int| 0 <= i <= j < r@.len() ==> r@[i] <= r@[j],
    {
        let ghost s0 = self@;
        let ghost n = s0.len() as int;
        let mut heap = self;
        let mut end = heap.data.len();
        while end > 1
            invariant
                heap@.len() == n,
                n == s0.len(),
                end as int <= n,
                heap@.to_multiset() == s0.to_multiset(),
                heap_ordered_to(heap@, end as int),
                forall|j1: int, j2: int| end <= j1 <= j2 < n ==> heap@[j1] <= heap@[j2],
                forall|i: int, j: int| 0 <= i < end <= j < n ==> heap@[i] <= heap@[j],
            decreases end,
        {
            end = end - 1;
            let ghost d = heap.data@;
            let a = heap.data[0];
            let b = heap.data[end];
            heap.data.set(0, b);
            heap.data.set(end, a);
            proof {
                let e = end as int;
                assert(heap.data@ =~= d.update(0, d[e]).update(e, d[0]));
                lemma_swap_preserves_multiset(d, 0, e);
                assert forall|i: int| 0 <= i < e + 1 implies d[0] >= #[trigger] d[i] by {
                    lemma_root_dominates(d, e + 1, i);
                }
                assert forall|c: int|
                    1 <= c < e && c != 0 && in_subtree(0, c) && parent(c) != 0
                        implies parent_dominates(heap.data@, c) by {
                    assert(parent_dominates(d, c));
                }
            }
            let ghost d2 = heap.data@;
            heap.sift_down_range(0, end);
            proof {
                let e = end as int;
                assert forall|c: int| 1 <= c < e implies parent_dominates(heap@, c) by {
                    lemma_in_subtree_of_root(c);
                }
                assert(heap@[e] == d2[e] && d2[e] == d[0]);
                assert forall|i: int, j: int| 0 <= i < e <= j < n implies heap@[i] <= heap@[j] by {
                    assert(value_from_range(heap@, d2, i, 0, e));
                    let k0 = choose|k0: int| 0 <= k0 < e && heap@[i] == d2[k0];
                    assert(d2[k0] <= d[0]);
                    if j > e {
                        assert(heap@[j] == d2[j] && d2[j] == d[j]);
                        assert(d[0] <= d[j]);
                    }
                }
                assert forall|j1: int, j2: int| e <= j1 <= j2 < n implies heap@[j1] <= heap@[j2] by {
                    if j1 > e {
                        assert(heap@[j1] == d[j1] && heap@[j2] == d[j2]);
                    } else if j2 > e {
                        assert(heap@[j2] == d[j2]);
                        assert(d[0] <= d[j2]);
                    }
                }
            }
        }
        proof {
            assert forall|i: int, j: int| 0 <= i <= j < n implies heap@[i] <= heap@[j] by {
                if i < j {
                    if i < end as int {
                        assert(heap@[i] <= heap@[j]);
                    }
                }
            }
        }
        heap.into_vec()
    }

    /// Walks the element held at `pos` toward the root, exchanging it with
    /// its parent while it exceeds it, stopping at the floor `start`. The
    /// result is pinned exactly by [`sift_up_spec`]: the held element lands
    /// at the returned index, every parent it passed moves one level down
    /// the ancestor chain, and nothing off that chain segment changes. When
    /// the floor is the root, `pos` is a leaf and every pair but the one
    /// above `pos` holds on entry, the whole vector is heap-ordered on exit.
    fn sift_up(&mut self, start: usize, pos: usize) -> (r: usize)
        requires
            start <= pos < old(self)@.len(),
        ensures
            final(self)@.len() == old(self)@.len(),
            final(self)@.to_multiset() == old(self)@.to_multiset(),
            final(self)@ == sift_up_spec(old(self)@, start as int, pos as int),
            r == sift_up_dest(old(self)@, start as int, pos as int),
            r <= pos,
            on_ancestor_chain(pos as int, r as int),
            on_ancestor_chain(pos as int, start as int) ==> start <= r,
            final(self)@[r as int] == old(self)@[pos as int],
            forall|k: int|
                0 <= k < old(self)@.len() && !(on_ancestor_chain(pos as int, k) && r <= k <= pos)
                    ==> final(self)@[k] == old(self)@[k],
            forall|k: int|
                on_ancestor_chain(pos as int, k) && r < k <= pos ==> final(self)@[k] == old(
                    self,
                )@[parent(k)],
            r > start ==> old(self)@[parent(r as int)] >= old(self)@[pos as int],
            forall|k: int|
                on_ancestor_chain(pos as int, k) && r < k <= pos ==> old(self)@[parent(k)] < old(
                    self,
                )@[pos as int],
            (start == 0 && 2 * pos + 1 >= old(self)@.len() && (forall|c: int|
                1 <= c < old(self)@.len() && c != pos ==> parent_dominates(old(self)@, c)))
                ==> (forall|c: int|
                1 <= c < final(self)@.len() && c != start ==> parent_dominates(final(self)@, c)),
    {
        let ghost s0 = self.data@;
        let ghost n = s0.len() as int;
        let ghost nice = start == 0 && 2 * pos + 1 >= s0.len() && (forall|c: int|
            1 <= c < s0.len() && c != pos ==> parent_dominates(s0, c));
        let mut v: Vec<i64> = Vec::new();
        core::mem::swap(&mut v, &mut self.data);
        let mut hole = Hole::new(v, pos);
        let mut stop: bool = false;
        while hole.pos > start && !stop
            invariant
                hole.wf(),
                hole.data@.len() == n,
                n == s0.len(),
                hole.pos <= pos < n,
                hole.filled().to_multiset() == s0.to_multiset(),
                !stop ==> sift_up_spec(hole.filled(), start as int, hole.pos as int)
                    == sift_up_spec(s0, start as int, pos as int),
                !stop ==> sift_up_dest(hole.filled(), start as int, hole.pos as int)
                    == sift_up_dest(s0, start as int, pos as int),
                stop ==> hole.filled() == sift_up_spec(s0, start as int, pos as int),
                stop ==> hole.pos as int == sift_up_dest(s0, start as int, pos as int),
                nice == (start == 0 && 2 * pos + 1 >= n && (forall|c: int|
                    1 <= c < n && c != pos ==> parent_dominates(s0, c))),
                nice && !stop ==> forall|c: int|
                    1 <= c < n && c != hole.pos as int ==> parent_dominates(hole.filled(), c),
                nice && !stop ==> forall|c: int|
                    1 <= c < n && #[trigger] parent(c) == hole.pos as int && hole.pos > 0
                        ==> hole.filled()[parent(hole.pos as int)] >= hole.filled()[c],
                nice && stop ==> forall|c: int|
                    1 <= c < n && c != start ==> parent_dominates(hole.filled(), c),
            decreases hole.pos, (if stop { 0int } else { 1int }),
        {
            let p = (hole.pos - 1) / 2;
            proof {
                assert(p < hole.pos);
                assert(parent(hole.pos as int) == p as int);
            }
            if hole.element() <= hole.get(p) {
                proof {
                    let f = hole.filled();
                    let h = hole.pos as int;
                    assert(f[h] == hole.elt);
                    assert(sift_up_spec(f, start as int, h) == f);
                    assert(sift_up_dest(f, start as int, h) == h);
                    if nice {
                        assert forall|c: int|
                            1 <= c < n && c != start implies parent_dominates(f, c) by {
                            if c == h {
                            }
                        }
                    }
                }
                stop = true;
            } else {
                let ghost f = hole.filled();
                let ghost h = hole.pos as int;
                hole.move_to(p);
                proof {
                    let g = hole.filled();
                    let pi = p as int;
                    assert(g == swap_at(f, h, pi));
                    assert(g[pi] == f[h] && g[h] == f[pi]);
                    assert(f[h] == hole.elt);
                    assert(sift_up_spec(f, start as int, h) == sift_up_spec(g, start as int, pi));
                    assert(sift_up_dest(f, start as int, h) == sift_up_dest(g, start as int, pi));
                    if nice {
                        assert forall|c: int| 1 <= c < n && c != pi implies parent_dominates(
                            g,
                            c,
                        ) by {
                            if c == h {
                                // the vacated slot now holds the old parent
                                // value, dominated by the held element above
                            } else if parent(c) == pi {
                                // sibling of the vacated slot: the held
                                // element exceeds the old parent, which
                                // dominated it
                                assert(parent_dominates(f, c));
                                assert(g[c] == f[c]);
                            } else if parent(c) == h {
                                // child of the vacated slot: the old parent
                                // dominated it (the bridge fact)
                                assert(g[c] == f[c]);
                                assert(f[parent(h)] >= f[c]);
                            } else {
                                assert(parent_dominates(f, c));
                                assert(g[c] == f[c] && g[parent(c)] == f[parent(c)]);
                            }
                        }
                        assert forall|c: int|
                            1 <= c < n && parent(c) == pi && p > 0 implies g[parent(pi)] >= g[c] by {
                            let q = parent(pi);
                            assert(0 <= q < pi);
                            assert(g[q] == f[q]);
                            assert(parent_dominates(f, pi));
                            if c == h {
                                assert(g[c] == f[pi]);
                            } else {
                                assert(g[c] == f[c]);
                                assert(parent_dominates(f, c));
                            }
                        }
                    }
                }
            }
        }
        let r = hole.pos();
        proof {
            if !stop {
                let f = hole.filled();
                let h = hole.pos as int;
                assert(h <= start as int);
                assert(sift_up_spec(f, start as int, h) == f);
                assert(sift_up_dest(f, start as int, h) == h);
            }
            lemma_sift_up_spec_props(s0, start as int, pos as int);
        }
        self.data = hole.close();
        r
    }

    /// One sift-down step over the prefix `[pos..end)`: the value held at
    /// `pos` descends, swapping with the larger child — the right one on a
    /// tie — until both children are dominated. The result is pinned exactly
    /// by [`sift_down_spec`]; in particular nothing off the single descent
    /// path changes. Given heap order within the subtrees under `pos`, heap
    /// order holds on the whole subtree at `pos` afterwards.
    fn sift_down_range(&mut self, pos: usize, end: usize)
        requires
            pos < end <= old(self)@.len(),
            forall|c: int|
                1 <= c < end && c != pos && in_subtree(pos as int, c) && parent(c) != pos
                    ==> parent_dominates(old(self)@, c),
        ensures
            final(self)@.len() == old(self)@.len(),
            final(self)@.to_multiset() == old(self)@.to_multiset(),
            final(self)@ == sift_down_spec(old(self)@, pos as int, end as int),
            forall|c: int|
                1 <= c < end && c != pos && in_subtree(pos as int, c) ==> parent_dominates(
                    final(self)@,
                    c,
                ),
            forall|k: int|
                0 <= k < old(self)@.len() && !on_sift_down_path(
                    old(self)@,
                    pos as int,
                    end as int,
                    k,
                ) ==> final(self)@[k] == old(self)@[k],
            forall|k: int|
                0 <= k < old(self)@.len() && !in_subtree(pos as int, k) ==> final(self)@[k]
                    == old(self)@[k],
            forall|k: int|
                0 <= k < old(self)@.len() && !(pos <= k < end) ==> final(self)@[k] == old(
                    self,
                )@[k],
            forall|k: int|
                pos <= k < end ==> #[trigger] value_from_range(
                    final(self)@,
                    old(self)@,
                    k,
                    pos as int,
                    end as int,
                ),
    {
        let ghost s0 = self.data@;
        let ghost n = s0.len() as int;
        let ghost lo = pos as int;
        let ghost hi = end as int;
        let mut v: Vec<i64> = Vec::new();
        core::mem::swap(&mut v, &mut self.data);
        let mut hole = Hole::new(v, pos);
        let mut stop: bool = false;
        proof {
            assert forall|k: int| lo <= k < hi implies #[trigger] value_from_range(
                hole.filled(),
                s0,
                k,
                lo,
                hi,
            ) by {
                assert(hole.filled()[k] == s0[k]);
            }
        }
        while hole.pos < end / 2 && !stop
            invariant
                hole.wf(),
                hole.data@.len() == n,
                n == s0.len(),
                lo == pos as int,
                hi == end as int,
                pos <= hole.pos < end <= n,
                hole.filled().to_multiset() == s0.to_multiset(),
                forall|k: int| 0 <= k < n && !(lo <= k < hi) ==> hole.filled()[k] == s0[k],
                forall|k: int|
                    lo <= k < hi ==> #[trigger] value_from_range(hole.filled(), s0, k, lo, hi),
                in_subtree(lo, hole.pos as int),
                hole.pos > pos ==> parent(hole.pos as int) >= lo,
                !stop ==> sift_down_spec(hole.filled(), hole.pos as int, hi) == sift_down_spec(
                    s0,
                    lo,
                    hi,
                ),
                stop ==> hole.filled() == sift_down_spec(s0, lo, hi),
                !stop ==> forall|c: int|
                    1 <= c < hi && c != lo && in_subtree(lo, c) && parent(c) != hole.pos as int
                        ==> parent_dominates(hole.filled(), c),
                !stop ==> forall|c: int|
                    1 <= c < hi && #[trigger] parent(c) == hole.pos as int && hole.pos > pos
                        ==> hole.filled()[parent(hole.pos as int)] >= hole.filled()[c],
                stop ==> forall|c: int|
                    1 <= c < hi && c != lo && in_subtree(lo, c) ==> parent_dominates(
                        hole.filled(),
                        c,
                    ),
            decreases end - hole.pos, (if stop { 0int } else { 1int }),
        {
            let left = 2 * hole.pos + 1;
            proof {
                assert(left < end);
                assert(parent(left as int) == hole.pos as int);
                assert(parent(left as int + 1) == hole.pos as int);
            }
            let right = left + 1;
            let mut child = left;
            if right < end && hole.get(left) <= hole.get(right) {
                child = right;
            }
            proof {
                let f = hole.filled();
                let h = hole.pos as int;
                assert(child as int == (if 2 * h + 2 < hi && f[2 * h + 1] <= f[2 * h + 2] {
                    2 * h + 2
                } else {
                    2 * h + 1
                }));
                assert(in_subtree(lo, child as int));
            }
            if hole.element() >= hole.get(child) {
                proof {
                    let f = hole.filled();
                    let h = hole.pos as int;
                    assert(f[h] == hole.elt);
                    assert(sift_down_spec(f, h, hi) == f);
                    assert forall|c: int|
                        1 <= c < hi && c != lo && in_subtree(lo, c) implies parent_dominates(
                        f,
                        c,
                    ) by {
                        if parent(c) == h {
                            assert(c == left as int || c == right as int);
                        }
                    }
                }
                stop = true;
            } else {
                let ghost f = hole.filled();
                let ghost h = hole.pos as int;
                hole.move_to(child);
                proof {
                    let g = hole.filled();
                    let ci = child as int;
                    assert(g == swap_at(f, h, ci));
                    assert(g[h] == f[ci] && g[ci] == f[h]);
                    assert(f[h] == hole.elt);
                    assert(sift_down_spec(f, h, hi) == sift_down_spec(g, ci, hi));
                    assert forall|c: int|
                        1 <= c < hi && c != lo && in_subtree(lo, c) && parent(c) != ci
                            implies parent_dominates(g, c) by {
                        if c == ci {
                            // the promoted child's slot now holds the held
                            // element, which the move found to be smaller
                        } else if c == h {
                            // pair above the old gap: the bridge fact bounds
                            // the promoted child by the old gap's parent
                            assert(f[parent(h)] >= f[ci]);
                            assert(g[parent(h)] == f[parent(h)]);
                        } else if parent(c) == h {
                            // sibling of the promoted child: the promoted
                            // child was chosen as the larger of the two
                            assert(c == left as int || c == right as int);
                            assert(g[c] == f[c]);
                        } else {
                            assert(parent_dominates(f, c));
                            assert(g[c] == f[c] && g[parent(c)] == f[parent(c)]);
                        }
                    }
                    assert forall|c: int|
                        1 <= c < hi && parent(c) == ci implies g[parent(ci)] >= g[c] by {
                        assert(g[h] == f[ci]);
                        assert(c != h);
                        assert(g[c] == f[c]);
                        assert(in_subtree(lo, c));
                        assert(parent_dominates(f, c));
                    }
                    assert forall|k: int| 0 <= k < n && !(lo <= k < hi) implies g[k] == s0[k] by {
                        assert(g[k] == f[k]);
                    }
                    assert forall|k: int| lo <= k < hi implies #[trigger] value_from_range(
                        g,
                        s0,
                        k,
                        lo,
                        hi,
                    ) by {
                        if k == h {
                            assert(value_from_range(f, s0, ci, lo, hi));
                            let k0 = choose|k0: int| lo <= k0 < hi && f[ci] == s0[k0];
                            assert(g[h] == s0[k0]);
                        } else if k == ci {
                            assert(value_from_range(f, s0, h, lo, hi));
                            let k0 = choose|k0: int| lo <= k0 < hi && f[h] == s0[k0];
                            assert(g[ci] == s0[k0]);
                        } else {
                            assert(value_from_range(f, s0, k, lo, hi));
                            let k0 = choose|k0: int| lo <= k0 < hi && f[k] == s0[k0];
                            assert(g[k] == s0[k0]);
                        }
                    }
                }
            }
        }
        proof {
            if !stop {
                let f = hole.filled();
                let h = hole.pos as int;
                assert(2 * (hi / 2) >= hi - 1);
                assert(2 * h + 1 >= hi);
                assert(sift_down_spec(f, h, hi) == f);
                assert forall|c: int|
                    1 <= c < hi && c != lo && in_subtree(lo, c) implies parent_dominates(f, c) by {
                    if parent(c) == h {
                        assert(c >= 2 * parent(c) + 1);
                    }
                }
            }
        }
        self.data = hole.close();
        proof {
            lemma_sift_down_spec_len(s0, lo, hi);
            assert forall|k: int|
                0 <= k < n && !on_sift_down_path(s0, lo, hi, k) implies self.data@[k] == s0[k] by {
                lemma_sift_down_spec_frame(s0, lo, hi, k);
            }
            assert forall|k: int|
                0 <= k < n && !in_subtree(lo, k) implies self.data@[k] == s0[k] by {
                if on_sift_down_path(s0, lo, hi, k) {
                    lemma_sift_down_path_in_subtree(s0, lo, hi, k);
                } else {
                    lemma_sift_down_spec_frame(s0, lo, hi, k);
                }
            }
        }
    }

    /// Sift-down over the whole vector; used by the bottom-up rebuild.
    fn sift_down(&mut self, pos: usize)
        requires
            pos < old(self)@.len(),
            forall|c: int|
                1 <= c < old(self)@.len() && c != pos && in_subtree(pos as int, c) && parent(c)
                    != pos ==> parent_dominates(old(self)@, c),
        ensures
            final(self)@.len() == old(self)@.len(),
            final(self)@.to_multiset() == old(self)@.to_multiset(),
            final(self)@ == sift_down_spec(old(self)@, pos as int, old(self)@.len() as int),
            forall|c: int|
                1 <= c < final(self)@.len() && c != pos && in_subtree(pos as int, c)
                    ==> parent_dominates(final(self)@, c),
            forall|k: int|
                0 <= k < old(self)@.len() && !in_subtree(pos as int, k) ==> final(self)@[k]
                    == old(self)@[k],
    {
        let end = self.data.len();
        self.sift_down_range(pos, end);
    }

    /// The sift used by `pop`: the root's replacement descends all the way to
    /// a leaf along the path of larger children without being compared, and
    /// is then sifted back up from there. On entry only the pairs under the
    /// root may be broken; on exit the whole vector is heap-ordered.
    fn sift_down_to_bottom(&mut self, pos: usize)
        requires
            pos == 0,
            old(self)@.len() > 0,
            forall|c: int|
                1 <= c < old(self)@.len() && parent(c) != pos as int ==> parent_dominates(
                    old(self)@,
                    c,
                ),
        ensures
            final(self)@.len() == old(self)@.len(),
            final(self)@.to_multiset() == old(self)@.to_multiset(),
            heap_ordered(final(self)@),
    {
        let ghost s0 = self.data@;
        let ghost n = s0.len() as int;
        let end = self.data.len();
        let start = pos;
        let mut v: Vec<i64> = Vec::new();
        core::mem::swap(&mut v, &mut self.data);
        let mut hole = Hole::new(v, pos);
        while hole.pos < end / 2
            invariant
                hole.wf(),
                hole.data@.len() == n,
                n == s0.len(),
                end as int == n,
                pos == 0,
                hole.pos < end,
                hole.filled().to_multiset() == s0.to_multiset(),
                forall|c: int|
                    1 <= c < n && c != hole.pos as int && parent(c) != hole.pos as int
                        ==> parent_dominates(hole.filled(), c),
                hole.pos > 0 ==> forall|c: int|
                    1 <= c < n && #[trigger] parent(c) == hole.pos as int
                        ==> hole.filled()[parent(hole.pos as int)] >= hole.filled()[c],
            decreases n - hole.pos,
        {
            let left = 2 * hole.pos + 1;
            proof {
                assert(left < end);
                assert(parent(left as int) == hole.pos as int);
                assert(parent(left as int + 1) == hole.pos as int);
            }
            let right = left + 1;
            let mut child = left;
            if right < end && hole.get(left) <= hole.get(right) {
                child = right;
            }
            let ghost f = hole.filled();
            let ghost h = hole.pos as int;
            hole.move_to(child);
            proof {
                let g = hole.filled();
                let ci = child as int;
                assert(g[h] == f[ci] && g[ci] == f[h]);
                assert forall|c: int|
                    1 <= c < n && c != ci && parent(c) != ci implies parent_dominates(g, c) by {
                    if c == h {
                        // the old gap: its parent dominated the promoted
                        // child (the bridge fact); c >= 1 rules out h == 0
                        assert(f[parent(h)] >= f[ci]);
                        assert(g[parent(h)] == f[parent(h)]);
                    } else if parent(c) == h {
                        // sibling of the promoted child, which was the larger
                        assert(c == left as int || c == right as int);
                        assert(g[c] == f[c]);
                    } else {
                        assert(parent_dominates(f, c));
                        assert(g[c] == f[c] && g[parent(c)] == f[parent(c)]);
                    }
                }
                assert forall|c: int|
                    1 <= c < n && parent(c) == ci implies g[parent(ci)] >= g[c] by {
                    assert(g[h] == f[ci]);
                    assert(c != h);
                    assert(g[c] == f[c]);
                    assert(parent_dominates(f, c));
                }
            }
        }
        let bottom = hole.pos();
        proof {
            let h = bottom as int;
            assert(2 * (n / 2) >= n - 1);
            assert(2 * h + 1 >= n);
            assert forall|c: int|
                1 <= c < n && c != h implies parent_dominates(hole.filled(), c) by {
                if parent(c) == h {
                    assert(c >= 2 * parent(c) + 1);
                }
            }
        }
        self.data = hole.close();
        self.sift_up(start, bottom);
    }

    /// Bottom-up heap construction: sift-down at every internal node, last to
    /// first. The contents are unchanged as a multiset; the result is
    /// heap-ordered.
    fn rebuild(&mut self)
        ensures
            final(self)@.len() == old(self)@.len(),
            final(self)@.to_multiset() == old(self)@.to_multiset(),
            final(self).wf(),
    {
        let len = self.data.len();
        let ghost n = len as int;
        proof {
            assert forall|c: int|
                1 <= c < n && parent(c) >= n / 2 implies parent_dominates(self.data@, c) by {
                assert(c >= 2 * parent(c) + 1);
                assert(2 * (n / 2) >= n - 1);
                assert(false);
            }
        }
        let mut i = len / 2;
        while i > 0
            invariant
                i <= len,
                self.data@.len() == n,
                n == len as int,
                self.data@.to_multiset() == old(self)@.to_multiset(),
                forall|c: int|
                    1 <= c < n && parent(c) >= i as int ==> parent_dominates(self.data@, c),
            decreases i,
        {
            i = i - 1;
            let ghost pre = self.data@;
            proof {
                assert forall|c: int|
                    1 <= c < n && c != i as int && in_subtree(i as int, c) && parent(c) != i
                        implies parent_dominates(pre, c) by {
                    assert(in_subtree(i as int, parent(c)));
                    lemma_in_subtree_bounds(i as int, parent(c));
                }
            }
            self.sift_down(i);
            proof {
                assert forall|c: int|
                    1 <= c < n && parent(c) >= i as int implies parent_dominates(
                    self.data@,
                    c,
                ) by {
                    if !in_subtree(i as int, c) {
                        // outside the subtree neither slot of the pair moved
                        assert(c >= 2 * parent(c) + 1);
                        assert(!in_subtree(i as int, parent(c))) by {
                            if in_subtree(i as int, parent(c)) {
                                lemma_in_subtree_bounds(i as int, parent(c));
                                assert(in_subtree(i as int, c));
                            }
                        };
                        assert(parent(c) != i as int) by {
                            if parent(c) == i as int {
                                assert(in_subtree(i as int, c));
                            }
                        };
                        assert(self.data@[c] == pre[c]);
                        assert(self.data@[parent(c)] == pre[parent(c)]);
                        assert(parent_dominates(pre, c));
                    }
                }
            }
        }
    }
}

} // verus!
