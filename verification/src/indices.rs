//! Increasing index sequences selected by a predicate.
//!
//! The candidate-set resolver and the prior filter both produce "the indices
//! below `n` that satisfy a condition, in increasing order". This module
//! gives that shape one spec function and the lemmas the engine needs.

use vstd::prelude::*;

verus! {

/// The indices below `n` satisfying `pred`, in increasing order.
pub open spec fn indices_up_to(pred: spec_fn(int) -> bool, n: nat) -> Seq<usize>
    decreases n,
{
    if n == 0 {
        Seq::empty()
    } else {
        indices_up_to(pred, (n - 1) as nat) + if pred(n - 1) {
            seq![(n - 1) as usize]
        } else {
            Seq::<usize>::empty()
        }
    }
}

/// The selected indices are bounded, satisfy the predicate, appear in
/// strictly increasing order, and are exactly the indices that satisfy it.
pub proof fn lemma_indices_props(pred: spec_fn(int) -> bool, n: nat)
    requires
        n <= usize::MAX,
    ensures
        indices_up_to(pred, n).len() <= n,
        forall|k: int|
            0 <= k < indices_up_to(pred, n).len() ==> (#[trigger] indices_up_to(pred, n)[k] as int)
                < n && pred(indices_up_to(pred, n)[k] as int),
        forall|k1: int, k2: int|
            0 <= k1 < k2 < indices_up_to(pred, n).len() ==> indices_up_to(pred, n)[k1]
                < indices_up_to(pred, n)[k2],
        forall|i: usize| #[trigger]
            indices_up_to(pred, n).contains(i) <==> ((i as int) < n && pred(i as int)),
    decreases n,
{
    if n > 0 {
        lemma_indices_props(pred, (n - 1) as nat);
        let prev = indices_up_to(pred, (n - 1) as nat);
        let cur = indices_up_to(pred, n);
        assert forall|i: usize| #[trigger]
            cur.contains(i) <==> ((i as int) < n && pred(i as int)) by {
            if (i as int) < n && pred(i as int) {
                if (i as int) < n - 1 {
                    assert(prev.contains(i));
                    let k = choose|k: int| 0 <= k < prev.len() && prev[k] == i;
                    assert(cur[k] == i);
                    assert(cur.contains(i));
                } else {
                    assert(cur[prev.len() as int] == i);
                    assert(cur.contains(i));
                }
            }
            if cur.contains(i) {
                let k = choose|k: int| 0 <= k < cur.len() && cur[k] == i;
                if k < prev.len() {
                    assert(prev[k] == i);
                    assert(prev.contains(i));
                } else {
                    assert(pred(n - 1));
                    assert(cur[k] == seq![(n - 1) as usize][k - prev.len()]);
                }
            }
        }
    }
}

/// Strengthening the predicate cannot select more indices.
pub proof fn lemma_indices_subset_len(p1: spec_fn(int) -> bool, p2: spec_fn(int) -> bool, n: nat)
    requires
        forall|i: int| 0 <= i < n && #[trigger] p2(i) ==> p1(i),
    ensures
        indices_up_to(p2, n).len() <= indices_up_to(p1, n).len(),
    decreases n,
{
    if n > 0 {
        lemma_indices_subset_len(p1, p2, (n - 1) as nat);
    }
}

} // verus!
