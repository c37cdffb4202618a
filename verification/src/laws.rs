use vstd::prelude::*;
use vstd::seq_lib::{to_multiset_contains, to_multiset_len, to_multiset_remove};

use crate::heap::{heap_ordered, lemma_root_dominates, parent, parent_dominates};

verus! {

/// Weakly descending order, the shape of a full drain by `pop`.
pub open spec fn sorted_descending(s: Seq<i64>) -> bool {
    forall|i: int, j: int| 0 <= i <= j < s.len() ==> s[i] >= s[j]
}

/// Heap order spelled through children: in a heap-ordered sequence every node
/// dominates whichever of its two children exist.
pub proof fn lemma_heap_order_children(s: Seq<i64>, i: int)
    requires
        heap_ordered(s),
        0 <= i,
    ensures
        2 * i + 1 < s.len() ==> s[i] >= s[2 * i + 1],
        2 * i + 2 < s.len() ==> s[i] >= s[2 * i + 2],
{
    if 2 * i + 1 < s.len() {
        assert(parent(2 * i + 1) == i);
        assert(parent_dominates(s, 2 * i + 1));
    }
    if 2 * i + 2 < s.len() {
        assert(parent(2 * i + 2) == i);
        assert(parent_dominates(s, 2 * i + 2));
    }
}

/// The root of a non-empty heap-ordered sequence is a maximum of its
/// contents; this is why `pop` returns the largest element.
pub proof fn lemma_root_is_max(s: Seq<i64>)
    requires
        heap_ordered(s),
        s.len() > 0,
    ensures
        forall|i: int| 0 <= i < s.len() ==> s[0] >= #[trigger] s[i],
{
    assert forall|i: int| 0 <= i < s.len() implies s[0] >= #[trigger] s[i] by {
        lemma_root_dominates(s, s.len() as int, i);
    }
}

/// Successive maxima descend: once the root of a heap has been removed, the
/// root of any heap over the remaining contents is no larger. Together with
/// the contract of `pop` this makes every full drain weakly descending.
pub proof fn lemma_pop_monotone(h0: Seq<i64>, h1: Seq<i64>)
    requires
        heap_ordered(h0),
        heap_ordered(h1),
        h0.len() > 0,
        h1.len() > 0,
        h1.to_multiset() == h0.to_multiset().remove(h0[0]),
    ensures
        h1[0] <= h0[0],
{
    assert(h1.contains(h1[0]));
    to_multiset_contains(h1, h1[0]);
    assert(h0.to_multiset().count(h1[0]) > 0) by {
        broadcast use vstd::multiset::group_multiset_axioms;

    };
    to_multiset_contains(h0, h1[0]);
    let i = choose|i: int| 0 <= i < h0.len() && h0[i] == h1[0];
    lemma_root_dominates(h0, h0.len() as int, i);
}

/// Heaps over the same multiset of elements surrender the same maximum, so a
/// drain by `pop` does not depend on whether the heap was built by bulk
/// construction or by repeated `push`.
pub proof fn lemma_equal_contents_same_root(a: Seq<i64>, b: Seq<i64>)
    requires
        heap_ordered(a),
        heap_ordered(b),
        a.len() > 0,
        a.to_multiset() == b.to_multiset(),
    ensures
        b.len() == a.len(),
        a[0] == b[0],
{
    to_multiset_len(a);
    to_multiset_len(b);
    assert(a.contains(a[0]));
    to_multiset_contains(a, a[0]);
    to_multiset_contains(b, a[0]);
    let i = choose|i: int| 0 <= i < b.len() && b[i] == a[0];
    lemma_root_dominates(b, b.len() as int, i);
    assert(b.contains(b[0]));
    to_multiset_contains(b, b[0]);
    to_multiset_contains(a, b[0]);
    let j = choose|j: int| 0 <= j < a.len() && a[j] == b[0];
    lemma_root_dominates(a, a.len() as int, j);
}

/// A full drain by `pop`, stated as one law. `states` are the contents the
/// heap passes through and `out` what the calls return: each state is
/// heap-ordered, each call returns the root and removes one occurrence of it
/// (exactly what `pop`'s contract ensures), and the last state is empty.
/// Then the drain emits exactly the starting contents, weakly descending —
/// the starting contents sorted in descending order.
pub proof fn lemma_drain_is_descending_sort(states: Seq<Seq<i64>>, out: Seq<i64>)
    requires
        states.len() == out.len() + 1,
        forall|i: int| 0 <= i < out.len() ==> heap_ordered(#[trigger] states[i]),
        forall|i: int| 0 <= i < out.len() ==> #[trigger] states[i].len() > 0,
        forall|i: int| 0 <= i < out.len() ==> #[trigger] out[i] == states[i][0],
        forall|i: int|
            0 <= i < out.len() ==> #[trigger] states[i + 1].to_multiset() == states[
                i
            ].to_multiset().remove(states[i][0]),
        states[out.len() as int].len() == 0,
    ensures
        sorted_descending(out),
        out.to_multiset() == states[0].to_multiset(),
    decreases out.len(),
{
    broadcast use vstd::multiset::group_multiset_axioms;

    if out.len() == 0 {
        to_multiset_len(states[0]);
        to_multiset_len(out);
        vstd::multiset::lemma_multiset_empty_len(states[0].to_multiset());
        vstd::multiset::lemma_multiset_empty_len(out.to_multiset());
        assert(out.to_multiset() =~= states[0].to_multiset());
    } else {
        let s0 = states[0];
        let rest_states = states.drop_first();
        let rest = out.drop_first();
        assert forall|i: int|
            0 <= i < rest.len() implies heap_ordered(#[trigger] rest_states[i]) && rest_states[
                i
            ].len() > 0 && rest[i] == rest_states[i][0] && rest_states[i + 1].to_multiset()
                == rest_states[i].to_multiset().remove(rest_states[i][0]) by {
            assert(rest_states[i] == states[i + 1]);
            assert(rest_states[i + 1] == states[i + 2]);
            assert(rest[i] == out[i + 1]);
            assert(states[i + 2].to_multiset() == states[i + 1].to_multiset().remove(
                states[i + 1][0],
            ));
        }
        assert(rest_states[rest.len() as int] == states[out.len() as int]);
        lemma_drain_is_descending_sort(rest_states, rest);
        assert(rest.to_multiset() == states[1].to_multiset());
        // re-inserting the emitted root restores the starting contents
        assert(s0.contains(s0[0]));
        to_multiset_contains(s0, s0[0]);
        assert(states[1].to_multiset().insert(s0[0]) =~= s0.to_multiset());
        to_multiset_remove(out, 0);
        assert(out.remove(0) =~= rest);
        assert(out.contains(out[0]));
        to_multiset_contains(out, out[0]);
        assert(out.to_multiset() =~= rest.to_multiset().insert(out[0]));
        assert(out.to_multiset() =~= states[0].to_multiset());
        // the first element dominates everything emitted later: each later
        // element still stood somewhere in the starting heap
        assert forall|j: int| 1 <= j < out.len() implies out[0] >= #[trigger] out[j] by {
            assert(rest.contains(rest[j - 1]));
            to_multiset_contains(rest, rest[j - 1]);
            assert(rest[j - 1] == out[j]);
            assert(states[1].to_multiset().count(out[j]) > 0);
            assert(s0.to_multiset().count(out[j]) > 0);
            to_multiset_contains(s0, out[j]);
            let w = choose|w: int| 0 <= w < s0.len() && s0[w] == out[j];
            lemma_root_dominates(s0, s0.len() as int, w);
        }
        assert forall|i: int, j: int| 0 <= i <= j < out.len() implies out[i] >= out[j] by {
            if 1 <= i {
                assert(rest[i - 1] >= rest[j - 1]);
                assert(rest[i - 1] == out[i] && rest[j - 1] == out[j]);
            }
        }
    }
}

/// Push/pop duality as one law: two full drains of heaps holding the same
/// contents — one built by repeated `push`, one by bulk construction, or any
/// other way — emit the same sequence.
pub proof fn lemma_drain_duality(
    states_a: Seq<Seq<i64>>,
    out_a: Seq<i64>,
    states_b: Seq<Seq<i64>>,
    out_b: Seq<i64>,
)
    requires
        states_a.len() == out_a.len() + 1,
        forall|i: int| 0 <= i < out_a.len() ==> heap_ordered(#[trigger] states_a[i]),
        forall|i: int| 0 <= i < out_a.len() ==> #[trigger] states_a[i].len() > 0,
        forall|i: int| 0 <= i < out_a.len() ==> #[trigger] out_a[i] == states_a[i][0],
        forall|i: int|
            0 <= i < out_a.len() ==> #[trigger] states_a[i + 1].to_multiset() == states_a[
                i
            ].to_multiset().remove(states_a[i][0]),
        states_a[out_a.len() as int].len() == 0,
        states_b.len() == out_b.len() + 1,
        forall|i: int| 0 <= i < out_b.len() ==> heap_ordered(#[trigger] states_b[i]),
        forall|i: int| 0 <= i < out_b.len() ==> #[trigger] states_b[i].len() > 0,
        forall|i: int| 0 <= i < out_b.len() ==> #[trigger] out_b[i] == states_b[i][0],
        forall|i: int|
            0 <= i < out_b.len() ==> #[trigger] states_b[i + 1].to_multiset() == states_b[
                i
            ].to_multiset().remove(states_b[i][0]),
        states_b[out_b.len() as int].len() == 0,
        states_a[0].to_multiset() == states_b[0].to_multiset(),
    ensures
        out_a == out_b,
{
    lemma_drain_is_descending_sort(states_a, out_a);
    lemma_drain_is_descending_sort(states_b, out_b);
    lemma_sorted_descending_unique(out_a, out_b);
}

/// A weakly descending sequence is determined by its multiset of elements:
/// two descending arrangements of the same contents are equal. Hence a full
/// drain by `pop` — descending by the lemmas above, and removing one
/// occurrence of the returned maximum at each step — is exactly the original
/// contents sorted in descending order, however the heap was built.
pub proof fn lemma_sorted_descending_unique(a: Seq<i64>, b: Seq<i64>)
    requires
        sorted_descending(a),
        sorted_descending(b),
        a.to_multiset() == b.to_multiset(),
    ensures
        a == b,
    decreases a.len(),
{
    to_multiset_len(a);
    to_multiset_len(b);
    if a.len() == 0 {
        assert(a =~= b);
    } else {
        assert(a.contains(a[0]));
        to_multiset_contains(a, a[0]);
        to_multiset_contains(b, a[0]);
        let i = choose|i: int| 0 <= i < b.len() && b[i] == a[0];
        assert(b[0] >= b[i]);
        assert(b.contains(b[0]));
        to_multiset_contains(b, b[0]);
        to_multiset_contains(a, b[0]);
        let j = choose|j: int| 0 <= j < a.len() && a[j] == b[0];
        assert(a[0] >= a[j]);
        assert(a[0] == b[0]);
        to_multiset_remove(a, 0);
        to_multiset_remove(b, 0);
        assert(sorted_descending(a.remove(0))) by {
            assert forall|i2: int, j2: int|
                0 <= i2 <= j2 < a.remove(0).len() implies a.remove(0)[i2] >= a.remove(0)[j2] by {
                assert(a.remove(0)[i2] == a[i2 + 1]);
                assert(a.remove(0)[j2] == a[j2 + 1]);
            }
        };
        assert(sorted_descending(b.remove(0))) by {
            assert forall|i2: int, j2: int|
                0 <= i2 <= j2 < b.remove(0).len() implies b.remove(0)[i2] >= b.remove(0)[j2] by {
                assert(b.remove(0)[i2] == b[i2 + 1]);
                assert(b.remove(0)[j2] == b[j2 + 1]);
            }
        };
        lemma_sorted_descending_unique(a.remove(0), b.remove(0));
        assert forall|k: int| 0 <= k < a.len() implies a[k] == b[k] by {
            if k > 0 {
                assert(a.remove(0)[k - 1] == a[k]);
                assert(b.remove(0)[k - 1] == b[k]);
            }
        }
        assert(a =~= b);
    }
}

} // verus!
