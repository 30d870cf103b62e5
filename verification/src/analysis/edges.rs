//! Counting the edges of a control-flow graph.

use crate::ir::{BlockId, Lowered};
use vstd::prelude::*;

verus! {

/// How many of the first `upto` successors are the block `target`.
pub open spec fn arm_hits(succs: Seq<BlockId>, target: int, upto: int) -> nat
    decreases upto,
{
    if upto <= 0 {
        0
    } else {
        arm_hits(succs, target, upto - 1) + if succs[upto - 1].0 == target {
            1nat
        } else {
            0nat
        }
    }
}

/// How many edges lead from `block` to `target`.
pub open spec fn edge_count(lowered: &Lowered, block: int, target: int) -> nat {
    arm_hits(lowered.successors(block), target, lowered.successors(block).len() as int)
}

/// How many edges lead to `target` from those of the first `upto` blocks that are in `from`.
pub open spec fn edges_into(lowered: &Lowered, from: Set<int>, target: int, upto: int) -> nat
    decreases upto,
{
    if upto <= 0 {
        0
    } else {
        edges_into(lowered, from, target, upto - 1) + if from.contains(upto - 1) {
            edge_count(lowered, upto - 1, target)
        } else {
            0nat
        }
    }
}

/// How many edges lead to `target`.
pub open spec fn in_degree(lowered: &Lowered, target: int) -> nat {
    edges_into(lowered, Set::full(), target, lowered.blocks@.len() as int)
}

/// How many of the first `upto` successors are in `into`.
pub open spec fn arms_into(succs: Seq<BlockId>, into: Set<int>, upto: int) -> nat
    decreases upto,
{
    if upto <= 0 {
        0
    } else {
        arms_into(succs, into, upto - 1) + if into.contains(succs[upto - 1].0 as int) {
            1nat
        } else {
            0nat
        }
    }
}

/// Among more successors there are no fewer hits, and never more hits than successors.
pub proof fn lemma_hits_bounds(succs: Seq<BlockId>, target: int, k: int, upto: int)
    requires
        0 <= k <= upto,
    ensures
        arm_hits(succs, target, k) <= arm_hits(succs, target, upto),
        arm_hits(succs, target, upto) <= upto,
    decreases upto,
{
    if k < upto {
        lemma_hits_bounds(succs, target, k, upto - 1);
    } else if upto > 0 {
        lemma_hits_bounds(succs, target, k - 1, upto - 1);
    }
}

/// No hit among the first `upto` successors means that none of them is `target`.
pub proof fn lemma_hits_zero(succs: Seq<BlockId>, target: int, upto: int)
    ensures
        arm_hits(succs, target, upto) == 0 <==> forall|k: int|
            0 <= k < upto ==> (#[trigger] succs[k]).0 != target,
    decreases upto,
{
    if upto > 0 {
        lemma_hits_zero(succs, target, upto - 1);
        if arm_hits(succs, target, upto) == 0 {
            assert forall|k: int| 0 <= k < upto implies (#[trigger] succs[k]).0 != target by {
                if k < upto - 1 {
                } else {
                    assert(succs[upto - 1].0 != target);
                }
            }
        } else {
            if arm_hits(succs, target, upto - 1) == 0 {
                assert(succs[upto - 1].0 == target);
            }
        }
    }
}

/// Among more successors no fewer are in `into`, and never more than there are successors.
pub proof fn lemma_into_bounds(succs: Seq<BlockId>, into: Set<int>, k: int, upto: int)
    requires
        0 <= k <= upto,
    ensures
        arms_into(succs, into, k) <= arms_into(succs, into, upto),
        arms_into(succs, into, upto) <= upto,
    decreases upto,
{
    if k < upto {
        lemma_into_bounds(succs, into, k, upto - 1);
    } else if upto > 0 {
        lemma_into_bounds(succs, into, k - 1, upto - 1);
    }
}

/// All of the first `upto` successors are in `into` exactly when they count in full.
pub proof fn lemma_into_full(succs: Seq<BlockId>, into: Set<int>, upto: int)
    requires
        0 <= upto,
    ensures
        arms_into(succs, into, upto) == upto <==> forall|k: int|
            0 <= k < upto ==> into.contains((#[trigger] succs[k]).0 as int),
    decreases upto,
{
    if upto > 0 {
        lemma_into_full(succs, into, upto - 1);
        lemma_into_bounds(succs, into, upto - 1, upto - 1);
        if arms_into(succs, into, upto) == upto {
            assert forall|k: int| 0 <= k < upto implies into.contains(
                (#[trigger] succs[k]).0 as int,
            ) by {
                if k == upto - 1 {
                    assert(into.contains(succs[upto - 1].0 as int));
                }
            }
        } else {
            if arms_into(succs, into, upto - 1) == upto - 1 {
                assert(!into.contains(succs[upto - 1].0 as int));
            }
        }
    }
}

/// Taking one more block into the set adds the successors that are this block.
pub proof fn lemma_into_add(succs: Seq<BlockId>, into: Set<int>, block: int, upto: int)
    requires
        !into.contains(block),
    ensures
        arms_into(succs, into.insert(block), upto) == arms_into(succs, into, upto) + arm_hits(
            succs,
            block,
            upto,
        ),
    decreases upto,
{
    if upto > 0 {
        lemma_into_add(succs, into, block, upto - 1);
    }
}

/// From more blocks, no fewer edges lead to `target`.
pub proof fn lemma_edges_mono(lowered: &Lowered, a: Set<int>, b: Set<int>, target: int, upto: int)
    requires
        a.subset_of(b),
    ensures
        edges_into(lowered, a, target, upto) <= edges_into(lowered, b, target, upto),
    decreases upto,
{
    if upto > 0 {
        lemma_edges_mono(lowered, a, b, target, upto - 1);
    }
}

/// Taking one more block into the set adds the edges from that block.
pub proof fn lemma_edges_add(lowered: &Lowered, from: Set<int>, block: int, target: int, upto: int)
    requires
        !from.contains(block),
        0 <= block,
    ensures
        edges_into(lowered, from.insert(block), target, upto) == edges_into(
            lowered,
            from,
            target,
            upto,
        ) + if block < upto {
            edge_count(lowered, block, target)
        } else {
            0nat
        },
    decreases upto,
{
    if upto > 0 {
        lemma_edges_add(lowered, from, block, target, upto - 1);
    }
}

/// The edges from `from` are all the edges into `target` exactly when every
/// block with an edge to `target` is in `from`.
pub proof fn lemma_edges_full(lowered: &Lowered, from: Set<int>, target: int, upto: int)
    ensures
        edges_into(lowered, from, target, upto) == edges_into(lowered, Set::full(), target, upto)
            <==> forall|b: int|
            0 <= b < upto && #[trigger] edge_count(lowered, b, target) > 0 ==> from.contains(b),
    decreases upto,
{
    if upto > 0 {
        lemma_edges_full(lowered, from, target, upto - 1);
        lemma_edges_mono(lowered, from, Set::full(), target, upto - 1);
        let all = Set::<int>::full();
        if edges_into(lowered, from, target, upto) == edges_into(lowered, all, target, upto) {
            assert forall|b: int|
                0 <= b < upto && #[trigger] edge_count(lowered, b, target) > 0
                    implies from.contains(
                b,
            ) by {
                if b == upto - 1 {
                } else {
                }
            }
        } else {
            if edges_into(lowered, from, target, upto - 1) == edges_into(
                lowered,
                all,
                target,
                upto - 1,
            ) {
                assert(!from.contains(upto - 1));
                assert(edge_count(lowered, upto - 1, target) > 0);
            }
        }
    }
}

/// No edge from `from` arrives exactly when no block of `from` has an edge to `target`.
pub proof fn lemma_edges_zero(lowered: &Lowered, from: Set<int>, target: int, upto: int)
    ensures
        edges_into(lowered, from, target, upto) == 0 <==> forall|b: int|
            0 <= b < upto && from.contains(b) ==> #[trigger] edge_count(lowered, b, target) == 0,
    decreases upto,
{
    if upto > 0 {
        lemma_edges_zero(lowered, from, target, upto - 1);
        if edges_into(lowered, from, target, upto) == 0 {
            assert forall|b: int| 0 <= b < upto && from.contains(b) implies #[trigger] edge_count(
                lowered,
                b,
                target,
            ) == 0 by {
                if b == upto - 1 {
                }
            }
        } else {
            if edges_into(lowered, from, target, upto - 1) == 0 {
                assert(from.contains(upto - 1));
                assert(edge_count(lowered, upto - 1, target) > 0);
            }
        }
    }
}

/// A block has an edge to `target` exactly when it counts at least one.
pub proof fn lemma_edge_count_positive(lowered: &Lowered, block: int, target: int)
    requires
        0 <= block < lowered.blocks@.len(),
    ensures
        edge_count(lowered, block, target) > 0 <==> lowered.has_edge(block, target),
{
    let succs = lowered.successors(block);
    lemma_hits_zero(succs, target, succs.len() as int);
    if edge_count(lowered, block, target) > 0 {
        let k = choose|k: int| 0 <= k < succs.len() && (#[trigger] succs[k]).0 == target;
        assert(lowered.successors(block)[k].0 == target);
    }
}

/// The in-degree of a block is positive exactly when some block has an edge to it.
pub proof fn lemma_in_degree_positive(lowered: &Lowered, target: int)
    ensures
        in_degree(lowered, target) > 0 <==> exists|b: int| #[trigger] lowered.has_edge(b, target),
{
    let n = lowered.blocks@.len() as int;
    lemma_edges_zero(lowered, Set::full(), target, n);
    if in_degree(lowered, target) > 0 {
        let b = choose|b: int|
            0 <= b < n && Set::<int>::full().contains(b) && #[trigger] edge_count(
                lowered,
                b,
                target,
            ) != 0;
        lemma_edge_count_positive(lowered, b, target);
    }
    if exists|b: int| #[trigger] lowered.has_edge(b, target) {
        let b = choose|b: int| #[trigger] lowered.has_edge(b, target);
        lemma_edge_count_positive(lowered, b, target);
        assert(Set::<int>::full().contains(b));
    }
}

} // verus!
