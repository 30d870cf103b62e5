//! Tests of what the analyses ask of a function: that every edge leads to
//! a block, and that the edges form no cycle.

use crate::analysis::dataflow::EdgeId;
use crate::analysis::edges::{
    arm_hits, edge_count, in_degree, lemma_edge_count_positive, lemma_edges_add, lemma_edges_full,
    lemma_edges_mono, lemma_hits_bounds,
};
use crate::analysis::forward::{arrivals, compute_predecessor_counts, degrees_fit};
use crate::analysis::worklist::{is_current, lemma_queue_pop, lemma_queue_push, queue_ok, waits};
use crate::ir::{BlockEnd, BlockId, Lowered};
use vstd::prelude::*;

verus! {

/// Whether every block end of `lowered` is set and every edge leads to a
/// block of the function, of which there is at least one.
pub fn is_well_formed(lowered: &Lowered) -> (r: bool)
    ensures
        r == lowered.wf(),
{
    let n_blocks = lowered.blocks.len();
    if n_blocks == 0 {
        return false;
    }
    let mut b: usize = 0;
    while b < n_blocks
        invariant
            b <= n_blocks,
            n_blocks == lowered.blocks@.len(),
            forall|x: int| 0 <= x < b ==> !(#[trigger] lowered.blocks@[x].end is NotSet),
            forall|x: int, k: int|
                0 <= x < b && 0 <= k < lowered.successors(x).len() ==> (
                #[trigger] lowered.successors(x)[k]).0 < n_blocks,
        decreases n_blocks - b,
    {
        match &lowered.blocks[b].end {
            BlockEnd::NotSet => {
                return false;
            },
            BlockEnd::Goto(target, _) => {
                if target.0 >= n_blocks {
                    assert(lowered.successors(b as int)[0] == *target);
                    return false;
                }
            },
            BlockEnd::Match { info } => {
                let arms = info.arms();
                let mut k: usize = 0;
                while k < arms.len()
                    invariant
                        k <= arms@.len(),
                        b < n_blocks,
                        n_blocks == lowered.blocks@.len(),
                        lowered.successors(b as int).len() == arms@.len(),
                        forall|j: int|
                            0 <= j < arms@.len() ==> lowered.successors(b as int)[j]
                                == arms@[j].block_id,
                        forall|j: int| 0 <= j < k ==> (#[trigger] arms@[j]).block_id.0 < n_blocks,
                    decreases arms@.len() - k,
                {
                    if arms[k].block_id.0 >= n_blocks {
                        assert(lowered.successors(b as int)[k as int] == arms@[k as int].block_id);
                        return false;
                    }
                    k += 1;
                }
                assert forall|j: int| 0 <= j < lowered.successors(b as int).len() implies (
                #[trigger] lowered.successors(b as int)[j]).0 < n_blocks by {
                    assert(arms@[j].block_id.0 < n_blocks);
                }
            },
            _ => {},
        }
        b += 1;
    }
    true
}

/// Whether the machine can count the edges into every block of `lowered`.
pub fn degrees_countable(lowered: &Lowered) -> (r: bool)
    requires
        lowered.wf(),
    ensures
        r == degrees_fit(lowered),
{
    compute_predecessor_counts(lowered).is_some()
}

/// Whether `lowered` is a function that the analyses take: every block end
/// is set, every edge leads to a block of the function, the machine can
/// count the edges into every block, and the edges form no cycle.
pub fn is_analyzable(lowered: &Lowered) -> (r: bool)
    ensures
        r == (lowered.wf() && degrees_fit(lowered) && lowered.acyclic()),
{
    is_well_formed(lowered) && degrees_countable(lowered) && is_acyclic(lowered)
}

/// What holds of the block `t` while the blocks are put in order: `done`
/// are the blocks that have their place, `rank` says which.
spec fn placed(
    lowered: &Lowered,
    counts: Seq<usize>,
    rank: Seq<nat>,
    done: Set<int>,
    current: Option<EdgeId>,
    ready: Seq<BlockId>,
    t: int,
) -> bool {
    let arrived = arrivals(lowered, done, current, t);
    let taken = done.contains(t) || is_current(current, t);
    &&& counts[t] + arrived == in_degree(lowered, t)
    &&& waits(ready, t) ==> !taken
    &&& taken || waits(ready, t) <==> counts[t] == 0
    &&& taken ==> rank[t] < done.len() + 1 && forall|b: int|
        0 <= b < lowered.blocks@.len() && #[trigger] edge_count(lowered, b, t) > 0
            ==> done.contains(b) && rank[b] < rank[t]
    &&& done.contains(t) ==> rank[t] < done.len()
}

/// What holds while the blocks are put in order.
spec fn ordering(
    lowered: &Lowered,
    counts: Seq<usize>,
    rank: Seq<nat>,
    done: Set<int>,
    current: Option<EdgeId>,
    ready: Seq<BlockId>,
) -> bool {
    let n = lowered.blocks@.len() as int;
    &&& lowered.wf()
    &&& counts.len() == n
    &&& rank.len() == n
    &&& done.finite()
    &&& forall|b: int| #[trigger] done.contains(b) ==> 0 <= b < n
    &&& current is Some ==> 0 <= current.unwrap().0 < n && 0 <= current.unwrap().1
        <= lowered.successors(current.unwrap().0).len() && !done.contains(current.unwrap().0)
        && rank[current.unwrap().0] == done.len()
    &&& queue_ok(ready, n)
    &&& forall|t: int| 0 <= t < n
        ==> #[trigger] placed(lowered, counts, rank, done, current, ready, t)
}

/// Among blocks that are not done, in a function without cycles, one has
/// all its predecessors done.
proof fn lemma_first_undone(lowered: &Lowered, order: Seq<nat>, done: Set<int>, t: int, bound: nat)
    requires
        lowered.wf(),
        lowered.ranked_by(order),
        0 <= t < lowered.blocks@.len(),
        !done.contains(t),
        order[t] <= bound,
    ensures
        exists|m: int|
            0 <= m < lowered.blocks@.len() && !done.contains(m) && forall|b: int|
                0 <= b < lowered.blocks@.len() && #[trigger] edge_count(lowered, b, m) > 0
                    ==> done.contains(b),
    decreases bound,
{
    if exists|b: int|
        0 <= b < lowered.blocks@.len() && #[trigger] edge_count(lowered, b, t) > 0
            && !done.contains(
            b,
        ) {
        let b = choose|b: int|
            0 <= b < lowered.blocks@.len() && #[trigger] edge_count(lowered, b, t) > 0
                && !done.contains(b);
        lemma_edge_count_positive(lowered, b, t);
        let k = choose|k: int|
            0 <= k < lowered.successors(b).len() && (#[trigger] lowered.successors(b)[k]).0 == t;
        assert(order[b] < order[lowered.successors(b)[k].0 as int]);
        lemma_first_undone(lowered, order, done, b, (bound - 1) as nat);
    }
}

/// Whether the edges of `lowered` form no cycle.
pub fn is_acyclic(lowered: &Lowered) -> (r: bool)
    requires
        lowered.wf(),
        degrees_fit(lowered),
    ensures
        r == lowered.acyclic(),
{
    let n_blocks = lowered.blocks.len();
    let ghost n = n_blocks as int;
    let mut counts = match compute_predecessor_counts(lowered) {
        Some(counts) => counts,
        None => {
            assert(false);
            vstd::pervasive::unreached()
        },
    };
    let mut ready: Vec<BlockId> = Vec::new();
    let ghost mut done: Set<int> = Set::empty();
    let ghost mut rank: Seq<nat> = Seq::new(n as nat, |i: int| 0nat);
    let ghost none: Option<EdgeId> = None;
    // The blocks into which no edge leads come first.
    let mut b: usize = 0;
    while b < n_blocks
        invariant
            b <= n_blocks,
            n == n_blocks,
            n == lowered.blocks@.len(),
            lowered.wf(),
            counts@.len() == n,
            forall|t: int| 0 <= t < n ==> #[trigger] counts@[t] == in_degree(lowered, t),
            queue_ok(ready@, n),
            forall|t: int| 0 <= t < n ==> (#[trigger] waits(ready@, t) <==> t < b && counts@[t]
                == 0),
        decreases n_blocks - b,
    {
        let ghost ready0 = ready@;
        if counts[b] == 0 {
            proof {
                lemma_queue_push(ready0, n, BlockId(b));
            }
            ready.push(BlockId(b));
        }
        proof {
            assert forall|t: int| 0 <= t < n implies (#[trigger] waits(ready@, t) <==> t < b + 1
                && counts@[t] == 0) by {
                assert(waits(ready0, t) <==> t < b && counts@[t] == 0);
            }
        }
        b += 1;
    }
    proof {
        assert forall|t: int| 0 <= t < n implies #[trigger] placed(
            lowered,
            counts@,
            rank,
            done,
            none,
            ready@,
            t,
        ) by {
            crate::analysis::edges::lemma_edges_zero(lowered, done, t, n);
        }
    }
    let mut ordered: usize = 0;
    while ready.len() > 0
        invariant
            n == lowered.blocks@.len(),
            n == n_blocks,
            none == Option::<EdgeId>::None,
            ordering(lowered, counts@, rank, done, none, ready@),
            ordered == done.len(),
            ordered <= n,
        decreases n - done.len(),
    {
        let ghost ready0 = ready@;
        proof {
            lemma_queue_pop(ready0, n);
        }
        let block_id = ready.pop().unwrap();
        let ghost c = block_id.0 as int;
        proof {
            assert(placed(lowered, counts@, rank, done, none, ready0, c));
            lemma_edges_full(lowered, done, c, n);
            let old_rank = rank;
            rank = rank.update(c, done.len());
            assert forall|t: int| 0 <= t < n implies #[trigger] placed(
                lowered,
                counts@,
                rank,
                done,
                Some((c, 0int)),
                ready@,
                t,
            ) by {
                assert(placed(lowered, counts@, old_rank, done, none, ready0, t));
                if done.contains(t) {
                    assert forall|x: int|
                        0 <= x < n && #[trigger] edge_count(lowered, x, t) > 0
                            implies done.contains(
                        x,
                    ) && rank[x] < rank[t] by {
                        assert(old_rank[x] < old_rank[t]);
                    }
                } else if t == c {
                    assert forall|x: int|
                        0 <= x < n && #[trigger] edge_count(lowered, x, t) > 0
                            implies done.contains(
                        x,
                    ) && rank[x] < rank[t] by {
                        assert(placed(lowered, counts@, old_rank, done, none, ready0, x));
                    }
                }
            }
            vstd::set_lib::lemma_int_range(0, n);
            vstd::set_lib::lemma_len_subset(done.insert(c), vstd::set_lib::set_int_range(0, n));
            assert(ordered < n);
        }
        match &lowered.blocks[block_id.0].end {
            BlockEnd::Goto(target, _) => {
                proof {
                    assert(lowered.successors(c)[0] == *target);
                }
                step_over(lowered, &mut counts, &mut ready, *target, Ghost(rank), Ghost(
                    done), Ghost((c, 0int)));
            },
            BlockEnd::Match { info } => {
                let arms = info.arms();
                let mut k: usize = 0;
                while k < arms.len()
                    invariant
                        k <= arms@.len(),
                        c == block_id.0,
                        c < lowered.blocks@.len(),
                        lowered.successors(c).len() == arms@.len(),
                        forall|j: int|
                            0 <= j < arms@.len() ==> lowered.successors(c)[j] == arms@[j].block_id,
                        ordering(lowered, counts@, rank, done, Some((c, k as int)), ready@),
                        ordered < n_blocks,
                    decreases arms@.len() - k,
                {
                    step_over(
                        lowered,
                        &mut counts,
                        &mut ready,
                        arms[k].block_id,
                        Ghost(rank),
                        Ghost(done),
                        Ghost((c, k as int)),
                    );
                    k += 1;
                }
            },
            _ => {},
        }
        proof {
            let current = Some((c, lowered.successors(c).len() as int));
            let after = done.insert(c);
            assert forall|t: int| 0 <= t < n implies #[trigger] placed(
                lowered,
                counts@,
                rank,
                after,
                none,
                ready@,
                t,
            ) by {
                assert(placed(lowered, counts@, rank, done, current, ready@, t));
                lemma_edges_add(lowered, done, c, t, n);
                if after.contains(t) {
                    assert forall|x: int|
                        0 <= x < n && #[trigger] edge_count(lowered, x, t) > 0
                            implies after.contains(
                        x,
                    ) && rank[x] < rank[t] by {}
                }
            }
            done = after;
        }
        ordered += 1;
    }
    proof {
        if ordered == n_blocks {
            // Every block has its place, after the blocks with an edge to it.
            assert forall|x: int| 0 <= x < n implies done.contains(x) by {
                vstd::set_lib::lemma_int_range(0, n);
                if !done.contains(x) {
                    vstd::set_lib::lemma_len_subset(
                        done.insert(x),
                        vstd::set_lib::set_int_range(0, n),
                    );
                }
            }
            assert forall|x: int, k: int|
                0 <= x < n && 0 <= k < lowered.successors(x).len() implies rank[x] < rank[(
            #[trigger] lowered.successors(x)[k]).0 as int] by {
                let t = lowered.successors(x)[k].0 as int;
                assert(placed(lowered, counts@, rank, done, none, ready@, t));
                lemma_edge_count_positive(lowered, x, t);
            }
            assert(lowered.ranked_by(rank));
        } else if lowered.acyclic() {
            // Some block has no place. Were there no cycle, one such block
            // would have all its predecessors done, and would be ready.
            let order = choose|order: Seq<nat>| lowered.ranked_by(order);
            vstd::set_lib::lemma_int_range(0, n);
            assert(exists|t: int| 0 <= t < n && !done.contains(t)) by {
                if forall|t: int| 0 <= t < n ==> done.contains(t) {
                    assert(done =~= vstd::set_lib::set_int_range(0, n));
                }
            }
            let t = choose|t: int| 0 <= t < n && !done.contains(t);
            lemma_first_undone(lowered, order, done, t, order[t]);
            let m = choose|m: int|
                0 <= m < n && !done.contains(m) && forall|x: int|
                    0 <= x < n && #[trigger] edge_count(lowered, x, m) > 0 ==> done.contains(x);
            assert(placed(lowered, counts@, rank, done, none, ready@, m));
            lemma_edges_full(lowered, done, m, n);
            assert(!waits(ready@, m));
            assert(false);
        }
    }
    ordered == n_blocks
}

/// Follows one edge of the block under way: the count of its target goes
/// down, and with the last edge into it the target becomes ready.
fn step_over(
    lowered: &Lowered,
    counts: &mut Vec<usize>,
    ready: &mut Vec<BlockId>,
    target: BlockId,
    Ghost(rank): Ghost<Seq<nat>>,
    Ghost(done): Ghost<Set<int>>,
    Ghost(edge): Ghost<EdgeId>,
)
    requires
        ordering(lowered, old(counts)@, rank, done, Some(edge), old(ready)@),
        edge.1 < lowered.successors(edge.0).len(),
        lowered.successors(edge.0)[edge.1] == target,
    ensures
        ordering(lowered, final(counts)@, rank, done, Some((edge.0, edge.1 + 1)), final(ready)@),
{
    let ghost n = lowered.blocks@.len() as int;
    let ghost t = target.0 as int;
    let ghost current = Some(edge);
    let ghost next = Some((edge.0, edge.1 + 1));
    let ghost succs = lowered.successors(edge.0);
    let ghost counts0 = counts@;
    let ghost ready0 = ready@;
    proof {
        assert(succs[edge.1].0 < n);
        assert(placed(lowered, counts0, rank, done, current, ready0, t));
        assert(placed(lowered, counts0, rank, done, current, ready0, edge.0));
        // The edge has not been counted yet, so the count of the target is not zero.
        lemma_edges_add(lowered, done, edge.0, t, n);
        lemma_edges_mono(lowered, done.insert(edge.0), Set::full(), t, n);
        lemma_hits_bounds(succs, t, edge.1 + 1, succs.len() as int);
        assert(arm_hits(succs, t, edge.1 + 1) == arm_hits(succs, t, edge.1) + 1);
        assert(counts0[t] >= 1);
        assert forall|x: int| 0 <= x < n implies arrivals(lowered, done, next, x) == arrivals(
            lowered,
            done,
            current,
            x,
        ) + if x == t {
            1nat
        } else {
            0nat
        } by {
            assert(arm_hits(succs, x, edge.1 + 1) == arm_hits(succs, x, edge.1) + if x == t {
                1nat
            } else {
                0nat
            });
        }
    }
    counts[target.0] -= 1;
    if counts[target.0] == 0 {
        proof {
            lemma_queue_push(ready0, n, target);
        }
        ready.push(target);
    }
    proof {
        assert forall|x: int| 0 <= x < n implies #[trigger] placed(
            lowered,
            counts@,
            rank,
            done,
            next,
            ready@,
            x,
        ) by {
            assert(placed(lowered, counts0, rank, done, current, ready0, x));
        }
    }
}

} // verus!
