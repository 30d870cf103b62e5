//! The backward driver: it goes through the blocks of a control-flow graph
//! from the blocks without successors, each block after all its successors,
//! and hands the state from block to block against the edges.

use crate::analysis::dataflow::{
    edge_from, edge_target, edge_to, is_edge, out_edges, result_site, start_site, DataflowAnalyzer,
    Direction, Edge, EdgeId, Place, Site,
};
use crate::analysis::edges::{
    arm_hits, arms_into, lemma_into_add, lemma_into_bounds, lemma_into_full,
};
use crate::analysis::worklist::{
    blocks_with_info, is_current, lemma_queue_pop, lemma_queue_push, queue_ok, waits,
};
use crate::ir::{BlockEnd, BlockId, Lowered};
use vstd::prelude::*;

verus! {

/// The edges from `block` to `target` among its first `upto` edges, in order.
pub open spec fn arms_to(succs: Seq<BlockId>, block: int, target: int, upto: int) -> Seq<EdgeId>
    decreases upto,
{
    if upto <= 0 {
        Seq::empty()
    } else if succs[upto - 1].0 == target {
        arms_to(succs, block, target, upto - 1).push((block, upto - 1))
    } else {
        arms_to(succs, block, target, upto - 1)
    }
}

/// The edges into `target` from the first `upto` blocks, block by block and
/// in each block in the order of its edges.
pub open spec fn edges_to(lowered: &Lowered, target: int, upto: int) -> Seq<EdgeId>
    decreases upto,
{
    if upto <= 0 {
        Seq::empty()
    } else {
        edges_to(lowered, target, upto - 1) + arms_to(
            lowered.successors(upto - 1),
            upto - 1,
            target,
            lowered.successors(upto - 1).len() as int,
        )
    }
}

/// How many of the first `upto` edges of `list` leave `block`.
pub open spec fn leaving(list: Seq<EdgeId>, block: int, upto: int) -> nat
    decreases upto,
{
    if upto <= 0 {
        0
    } else {
        leaving(list, block, upto - 1) + if list[upto - 1].0 == block {
            1nat
        } else {
            0nat
        }
    }
}

proof fn lemma_leaving_bounds(list: Seq<EdgeId>, block: int, k: int, upto: int)
    requires
        0 <= k <= upto,
    ensures
        leaving(list, block, k) <= leaving(list, block, upto),
    decreases upto,
{
    if k < upto {
        lemma_leaving_bounds(list, block, k, upto - 1);
    }
}

proof fn lemma_leaving_concat(
    first: Seq<EdgeId>,
    second: Seq<EdgeId>,
    block: int,
    upto: int,
)
    requires
        0 <= upto <= second.len(),
    ensures
        leaving(first + second, block, first.len() + upto) == leaving(
            first,
            block,
            first.len() as int,
        ) + leaving(second, block, upto),
    decreases upto,
{
    let both = first + second;
    if upto > 0 {
        lemma_leaving_concat(first, second, block, upto - 1);
        assert(both[first.len() + upto - 1] == second[upto - 1]);
    } else {
        lemma_leaving_prefix(first, both, block, first.len() as int);
    }
}

proof fn lemma_leaving_prefix(
    first: Seq<EdgeId>,
    both: Seq<EdgeId>,
    block: int,
    upto: int,
)
    requires
        0 <= upto <= first.len() <= both.len(),
        forall|i: int| 0 <= i < first.len() ==> first[i] == both[i],
    ensures
        leaving(both, block, upto) == leaving(first, block, upto),
    decreases upto,
{
    if upto > 0 {
        lemma_leaving_prefix(first, both, block, upto - 1);
    }
}

/// Every listed edge of one block is an edge of that block to `target`, and
/// the list holds as many as the block has.
proof fn lemma_arms_to(succs: Seq<BlockId>, block: int, target: int, upto: int)
    requires
        0 <= upto <= succs.len(),
    ensures
        forall|i: int|
            0 <= i < arms_to(succs, block, target, upto).len() ==> {
                let e = #[trigger] arms_to(succs, block, target, upto)[i];
                e.0 == block && 0 <= e.1 < upto && succs[e.1].0 == target
            },
        leaving(
            arms_to(succs, block, target, upto),
            block,
            arms_to(succs, block, target, upto).len() as int,
        ) == arm_hits(succs, target, upto),
        arms_to(succs, block, target, upto).len() == arm_hits(succs, target, upto),
    decreases upto,
{
    if upto > 0 {
        lemma_arms_to(succs, block, target, upto - 1);
        let before = arms_to(succs, block, target, upto - 1);
        let list = arms_to(succs, block, target, upto);
        if succs[upto - 1].0 == target {
            lemma_leaving_prefix(before, list, block, before.len() as int);
        }
    }
}

/// No listed edge of one block leaves another block.
proof fn lemma_arms_to_other(
    succs: Seq<BlockId>,
    block: int,
    target: int,
    upto: int,
    other: int,
    k: int,
)
    requires
        0 <= upto <= succs.len(),
        other != block,
        0 <= k <= arms_to(succs, block, target, upto).len(),
    ensures
        leaving(arms_to(succs, block, target, upto), other, k) == 0,
    decreases k,
{
    lemma_arms_to(succs, block, target, upto);
    if k > 0 {
        lemma_arms_to_other(succs, block, target, upto, other, k - 1);
        assert(arms_to(succs, block, target, upto)[k - 1].0 == block);
    }
}

/// The list of the edges into `target` holds edges into `target` only, and
/// of each block as many as the block has.
pub proof fn lemma_edges_to(lowered: &Lowered, target: int, upto: int)
    requires
        0 <= upto <= lowered.blocks@.len(),
    ensures
        forall|i: int|
            0 <= i < edges_to(lowered, target, upto).len() ==> {
                let e = #[trigger] edges_to(lowered, target, upto)[i];
                0 <= e.0 < upto && 0 <= e.1 < lowered.successors(e.0).len() && lowered.successors(
                    e.0,
                )[e.1].0 == target
            },
        forall|b: int|
            0 <= b < lowered.blocks@.len() ==> #[trigger] leaving(
                edges_to(lowered, target, upto),
                b,
                edges_to(lowered, target, upto).len() as int,
            ) == if b < upto {
                arm_hits(lowered.successors(b), target, lowered.successors(b).len() as int)
            } else {
                0nat
            },
    decreases upto,
{
    if upto > 0 {
        lemma_edges_to(lowered, target, upto - 1);
        let before = edges_to(lowered, target, upto - 1);
        let succs = lowered.successors(upto - 1);
        let last = arms_to(succs, upto - 1, target, succs.len() as int);
        let list = edges_to(lowered, target, upto);
        lemma_arms_to(succs, upto - 1, target, succs.len() as int);
        assert forall|i: int| 0 <= i < list.len() implies {
            let e = #[trigger] list[i];
            0 <= e.0 < upto && 0 <= e.1 < lowered.successors(e.0).len() && lowered.successors(
                e.0,
            )[e.1].0 == target
        } by {
            if i < before.len() {
                assert(list[i] == before[i]);
            } else {
                assert(list[i] == last[i - before.len()]);
            }
        }
        assert forall|b: int| 0 <= b < lowered.blocks@.len() implies #[trigger] leaving(
            list,
            b,
            list.len() as int,
        ) == if b < upto {
            arm_hits(lowered.successors(b), target, lowered.successors(b).len() as int)
        } else {
            0nat
        } by {
            lemma_leaving_concat(before, last, b, last.len() as int);
            if b != upto - 1 {
                lemma_arms_to_other(
                    succs,
                    upto - 1,
                    target,
                    succs.len() as int,
                    b,
                    last.len() as int,
                );
            }
        }
    }
}

/// None of the first `upto` successors is in `into` exactly when they count zero.
proof fn lemma_into_zero(succs: Seq<BlockId>, into: Set<int>, upto: int)
    ensures
        arms_into(succs, into, upto) == 0 <==> forall|k: int|
            0 <= k < upto ==> !into.contains((#[trigger] succs[k]).0 as int),
    decreases upto,
{
    if upto > 0 {
        lemma_into_zero(succs, into, upto - 1);
        if arms_into(succs, into, upto) == 0 {
            assert forall|k: int| 0 <= k < upto implies !into.contains(
                (#[trigger] succs[k]).0 as int,
            ) by {
                if k == upto - 1 {
                    assert(!into.contains(succs[upto - 1].0 as int));
                }
            }
        } else if arms_into(succs, into, upto - 1) == 0 {
            assert(into.contains(succs[upto - 1].0 as int));
        }
    }
}

/// None of the first `upto` listed edges leaves `block` exactly when they count zero.
proof fn lemma_leaving_zero(list: Seq<EdgeId>, block: int, upto: int)
    ensures
        leaving(list, block, upto) == 0 <==> forall|i: int|
            0 <= i < upto ==> (#[trigger] list[i]).0 != block,
    decreases upto,
{
    if upto > 0 {
        lemma_leaving_zero(list, block, upto - 1);
        if leaving(list, block, upto) == 0 {
            assert forall|i: int| 0 <= i < upto implies (#[trigger] list[i]).0 != block by {
                if i == upto - 1 {
                    assert(list[upto - 1].0 != block);
                }
            }
        } else if leaving(list, block, upto - 1) == 0 {
            assert(list[upto - 1].0 == block);
        }
    }
}

/// Every edge of one block to `target` is listed.
proof fn lemma_arms_to_complete(succs: Seq<BlockId>, block: int, target: int, upto: int, k: int)
    requires
        0 <= k < upto <= succs.len(),
        succs[k].0 == target,
    ensures
        arms_to(succs, block, target, upto).contains((block, k)),
    decreases upto,
{
    let list = arms_to(succs, block, target, upto);
    if k == upto - 1 {
        assert(list[list.len() - 1] == (block, k));
    } else {
        lemma_arms_to_complete(succs, block, target, upto - 1, k);
        let before = arms_to(succs, block, target, upto - 1);
        let i = choose|i: int| 0 <= i < before.len() && before[i] == (block, k);
        assert(list[i] == (block, k));
    }
}

/// Every edge into `target` is listed.
pub proof fn lemma_edges_to_complete(lowered: &Lowered, target: int, upto: int, e: EdgeId)
    requires
        0 <= e.0 < upto <= lowered.blocks@.len(),
        0 <= e.1 < lowered.successors(e.0).len(),
        lowered.successors(e.0)[e.1].0 == target,
    ensures
        edges_to(lowered, target, upto).contains(e),
    decreases upto,
{
    let list = edges_to(lowered, target, upto);
    let before = edges_to(lowered, target, upto - 1);
    let succs = lowered.successors(upto - 1);
    let last = arms_to(succs, upto - 1, target, succs.len() as int);
    if e.0 == upto - 1 {
        lemma_arms_to_complete(succs, upto - 1, target, succs.len() as int, e.1);
        let i = choose|i: int| 0 <= i < last.len() && last[i] == e;
        assert(list[before.len() + i] == e);
    } else {
        lemma_edges_to_complete(lowered, target, upto - 1, e);
        let i = choose|i: int| 0 <= i < before.len() && before[i] == e;
        assert(list[i] == e);
    }
}

/// The edges that a vector of pairs of block and edge number names.
pub open spec fn edge_ids(list: Seq<(usize, usize)>) -> Seq<EdgeId> {
    Seq::new(list.len(), |i: int| (list[i].0 as int, list[i].1 as int))
}

/// For each block, the edges into it.
fn compute_predecessors(lowered: &Lowered) -> (preds: Vec<Vec<(usize, usize)>>)
    requires
        lowered.wf(),
    ensures
        preds@.len() == lowered.blocks@.len(),
        forall|t: int|
            0 <= t < preds@.len() ==> edge_ids((#[trigger] preds@[t])@) == edges_to(
                lowered,
                t,
                lowered.blocks@.len() as int,
            ),
{
    let n_blocks = lowered.blocks.len();
    let mut preds: Vec<Vec<(usize, usize)>> = Vec::new();
    while preds.len() < n_blocks
        invariant
            preds@.len() <= n_blocks,
            forall|t: int| 0 <= t < preds@.len() ==> (#[trigger] preds@[t])@.len() == 0,
        decreases n_blocks - preds.len(),
    {
        preds.push(Vec::new());
    }
    let mut b: usize = 0;
    while b < n_blocks
        invariant
            b <= n_blocks,
            n_blocks == lowered.blocks@.len(),
            preds@.len() == n_blocks,
            lowered.wf(),
            forall|t: int|
                0 <= t < n_blocks ==> edge_ids((#[trigger] preds@[t])@) == edges_to(
                    lowered,
                    t,
                    b as int,
                ),
        decreases n_blocks - b,
    {
        let ghost succs = lowered.successors(b as int);
        match &lowered.blocks[b].end {
            BlockEnd::Goto(target, _) => {
                proof {
                    reveal_with_fuel(arms_to, 2);
                    assert(succs[0] == *target);
                    assert(succs.len() == 1);
                }
                preds[target.0].push((b, 0));
                proof {
                    assert forall|t: int| 0 <= t < n_blocks implies edge_ids(
                        (#[trigger] preds@[t])@,
                    ) =~= edges_to(lowered, t, b + 1) by {}
                }
            },
            BlockEnd::Match { info } => {
                let arms = info.arms();
                let mut k: usize = 0;
                while k < arms.len()
                    invariant
                        k <= arms@.len(),
                        succs.len() == arms@.len(),
                        forall|j: int| 0 <= j < arms@.len() ==> succs[j] == arms@[j].block_id,
                        forall|j: int| 0 <= j < succs.len() ==> (#[trigger] succs[j]).0 < n_blocks,
                        b < n_blocks,
                        preds@.len() == n_blocks,
                        forall|t: int|
                            0 <= t < n_blocks ==> edge_ids((#[trigger] preds@[t])@) == edges_to(
                                lowered,
                                t,
                                b as int,
                            ) + arms_to(succs, b as int, t, k as int),
                    decreases arms@.len() - k,
                {
                    let target = arms[k].block_id;
                    assert(succs[k as int] == target);
                    let ghost old_preds = preds@;
                    preds[target.0].push((b, k));
                    proof {
                        assert forall|t: int| 0 <= t < n_blocks implies edge_ids(
                            (#[trigger] preds@[t])@,
                        ) =~= edges_to(lowered, t, b as int) + arms_to(
                            succs,
                            b as int,
                            t,
                            k + 1,
                        ) by {
                            let before = old_preds[t]@;
                            assert(edge_ids(before) == edges_to(lowered, t, b as int) + arms_to(
                                succs,
                                b as int,
                                t,
                                k as int,
                            ));
                            if t == target.0 {
                                assert(preds@[t]@ == before.push((b, k)));
                                assert(edge_ids(before.push((b, k))) =~= edge_ids(before).push(
                                    (b as int, k as int),
                                ));
                            } else {
                                assert(preds@[t]@ == before);
                            }
                        }
                    }
                    k += 1;
                }
            },
            _ => {
                proof {
                    assert(succs.len() == 0);
                    assert forall|t: int| 0 <= t < n_blocks implies edge_ids(
                        (#[trigger] preds@[t])@,
                    ) =~= edges_to(lowered, t, b + 1) by {}
                }
            },
        }
        b += 1;
    }
    preds
}

/// The number of edges that leave each block.
fn compute_successor_counts(lowered: &Lowered) -> (counts: Vec<usize>)
    ensures
        counts@.len() == lowered.blocks@.len(),
        forall|b: int|
            0 <= b < counts@.len() ==> #[trigger] counts@[b] == lowered.successors(b).len(),
{
    let n_blocks = lowered.blocks.len();
    let mut counts: Vec<usize> = Vec::new();
    while counts.len() < n_blocks
        invariant
            counts@.len() <= n_blocks,
            n_blocks == lowered.blocks@.len(),
            forall|b: int|
                0 <= b < counts@.len() ==> #[trigger] counts@[b] == lowered.successors(b).len(),
        decreases n_blocks - counts.len(),
    {
        let count = match &lowered.blocks[counts.len()].end {
            BlockEnd::Goto(_, _) => 1,
            BlockEnd::Match { info } => info.arms().len(),
            _ => 0,
        };
        counts.push(count);
    }
    counts
}

/// How many edges out of `block` have been followed back from the block
/// that is under way: `current` names that block and how many of the edges
/// into it are done.
pub open spec fn under_way_back(lowered: &Lowered, current: Option<EdgeId>, block: int) -> nat {
    match current {
        Some(c) => leaving(edges_to(lowered, c.0, lowered.blocks@.len() as int), block, c.1),
        None => 0,
    }
}

/// How many edges out of `block` have been followed back so far.
pub open spec fn come_back(
    lowered: &Lowered,
    done: Set<int>,
    current: Option<EdgeId>,
    block: int,
) -> nat {
    arms_into(lowered.successors(block), done, lowered.successors(block).len() as int)
        + under_way_back(lowered, current, block)
}

/// The edges out of `block` that have been followed back so far.
pub open spec fn followed_back(
    lowered: &Lowered,
    done: Set<int>,
    current: Option<EdgeId>,
    block: int,
) -> Set<EdgeId> {
    Set::new(
        |e: EdgeId|
            is_edge(lowered, e) && e.0 == block && (done.contains(edge_target(lowered, e)) || (
            current is Some && exists|i: int|
                0 <= i < current.unwrap().1 && #[trigger] edges_to(
                    lowered,
                    current.unwrap().0,
                    lowered.blocks@.len() as int,
                )[i] == e)),
    )
}

/// What a backward run visits: every block all of whose successors are visited.
pub open spec fn backward_visits(lowered: &Lowered, visited: Set<int>) -> bool {
    &&& forall|b: int| #[trigger] visited.contains(b) ==> 0 <= b < lowered.blocks@.len()
    &&& forall|b: int|
        0 <= b < lowered.blocks@.len() ==> (#[trigger] visited.contains(b) <==> forall|k: int|
            0 <= k < lowered.successors(b).len() ==> visited.contains(
                (#[trigger] lowered.successors(b)[k]).0 as int,
            ))
}

/// Runs a backward analysis over a function.
pub struct DataflowBackAnalysis<'a, TAnalyzer: DataflowAnalyzer> {
    lowered: &'a Lowered,
    pub analyzer: TAnalyzer,
    /// For each block, the number of edges out of it that are still to be followed back.
    successor_counts: Vec<usize>,
    /// For each block, the edges into it.
    predecessors: Vec<Vec<(usize, usize)>>,
    /// For each block, the join of the states that have come back so far.
    incoming: Vec<Option<TAnalyzer::Info>>,
}

impl<'a, TAnalyzer: DataflowAnalyzer> DataflowBackAnalysis<'a, TAnalyzer> {
    /// The function under analysis.
    pub closed spec fn program(&self) -> &Lowered {
        self.lowered
    }

    /// The analyzer, as a value.
    pub closed spec fn spec_analyzer(&self) -> TAnalyzer {
        self.analyzer
    }

    /// What never changes while the driver runs.
    spec fn set_up(&self) -> bool {
        let n = self.lowered.blocks@.len() as int;
        &&& self.lowered.wf()
        &&& TAnalyzer::DIRECTION is Backward
        &&& self.analyzer.inv(self.lowered)
        &&& self.successor_counts@.len() == n
        &&& self.incoming@.len() == n
        &&& self.predecessors@.len() == n
        &&& forall|t: int|
            0 <= t < n ==> edge_ids((#[trigger] self.predecessors@[t])@) == edges_to(
                self.lowered,
                t,
                n,
            )
    }

    /// The analyzer, to look at while the driver is in use.
    pub fn analyzer_ref(&self) -> (analyzer: &TAnalyzer)
        ensures
            *analyzer == self.spec_analyzer(),
    {
        &self.analyzer
    }

    /// Ends the use of the driver and gives the analyzer back.
    pub fn into_analyzer(self) -> (analyzer: TAnalyzer)
        ensures
            analyzer == self.spec_analyzer(),
    {
        self.analyzer
    }

    /// The driver is as `new` made it: nothing has run yet.
    pub closed spec fn fresh(&self) -> bool {
        &&& self.set_up()
        &&& forall|b: int| #[trigger] self.analyzer.untouched(self.lowered, b)
        &&& forall|b: int|
            0 <= b < self.lowered.blocks@.len() ==> #[trigger] self.successor_counts@[b]
                == self.lowered.successors(b).len()
        &&& forall|b: int|
            0 <= b < self.lowered.blocks@.len() ==> #[trigger] self.incoming@[b] is None
    }

    /// What holds of the block `b` while the blocks are gone through; of the
    /// blocks without successors, the first `seeded` have been made ready.
    spec fn block_ok(
        &self,
        seeded: int,
        done: Set<int>,
        current: Option<EdgeId>,
        ready: Seq<BlockId>,
        b: int,
    ) -> bool {
        let lowered = self.lowered;
        let out = lowered.successors(b).len();
        let back = come_back(lowered, done, current, b);
        let taken = done.contains(b) || is_current(current, b);
        &&& self.successor_counts@[b] + back == out
        &&& waits(ready, b) ==> !taken
        &&& taken || waits(ready, b) <==> self.successor_counts@[b] == 0 && (out > 0 || b < seeded)
        &&& self.incoming@[b] is Some <==> !taken && (back > 0 || (out == 0 && b < seeded))
        &&& self.incoming@[b] is Some ==> self.analyzer.sound(
            lowered,
            Site::Join { block: b, edges: followed_back(lowered, done, current, b) },
            &self.incoming@[b].unwrap(),
        )
        &&& taken ==> self.analyzer.done(lowered, Place::Block(b))
        &&& !taken ==> self.analyzer.untouched(lowered, b)
        &&& forall|e: EdgeId|
            followed_back(lowered, done, current, b).contains(e) ==> #[trigger] self.analyzer.done(
                lowered,
                Place::Edge(e),
            )
    }

    /// What holds while the blocks are gone through: `done` are the blocks
    /// that are finished, `current` the block under way with the number of
    /// the edges into it that have been followed back, `ready` the blocks
    /// that wait.
    spec fn running(
        &self,
        seeded: int,
        done: Set<int>,
        current: Option<EdgeId>,
        ready: Seq<BlockId>,
    ) -> bool {
        let lowered = self.lowered;
        let n = lowered.blocks@.len() as int;
        &&& self.set_up()
        &&& 0 <= seeded <= n
        &&& forall|b: int| #[trigger] done.contains(b) ==> 0 <= b < n
        &&& current is Some ==> 0 <= current.unwrap().0 < n && 0 <= current.unwrap().1
            <= edges_to(lowered, current.unwrap().0, n).len() && !done.contains(
            current.unwrap().0,
        )
        &&& queue_ok(ready, n)
        &&& forall|b: int| 0 <= b < n ==> #[trigger] self.block_ok(seeded, done, current, ready, b)
    }

    /// A driver for `analyzer` on `lowered`.
    pub fn new(lowered: &'a Lowered, analyzer: TAnalyzer) -> (r: Self)
        requires
            lowered.wf(),
            TAnalyzer::DIRECTION is Backward,
            analyzer.inv(lowered),
            forall|b: int| #[trigger] analyzer.untouched(lowered, b),
        ensures
            r.fresh(),
            r.program() == lowered,
            r.spec_analyzer() == analyzer,
    {
        let successor_counts = compute_successor_counts(lowered);
        let predecessors = compute_predecessors(lowered);
        let n_blocks = lowered.blocks.len();
        let mut incoming: Vec<Option<TAnalyzer::Info>> = Vec::new();
        while incoming.len() < n_blocks
            invariant
                incoming@.len() <= n_blocks,
                forall|t: int| 0 <= t < incoming@.len() ==> #[trigger] incoming@[t] is None,
            decreases n_blocks - incoming.len(),
        {
            incoming.push(None);
        }
        Self { lowered, analyzer, successor_counts, predecessors, incoming }
    }

    /// A callback that changes the analyzer alone leaves everything in place.
    proof fn lemma_reanalyzed(
        &self,
        before: &Self,
        seeded: int,
        done: Set<int>,
        current: Option<EdgeId>,
        ready: Seq<BlockId>,
    )
        requires
            before.running(seeded, done, current, ready),
            self.lowered == before.lowered,
            self.successor_counts == before.successor_counts,
            self.predecessors == before.predecessors,
            self.incoming == before.incoming,
            self.analyzer.inv(self.lowered),
            forall|site: Site, state: TAnalyzer::Info| #[trigger]
                self.analyzer.sound(self.lowered, site, &state) == before.analyzer.sound(
                    self.lowered,
                    site,
                    &state,
                ),
            forall|place: Place|
                before.analyzer.done(self.lowered, place) ==> #[trigger] self.analyzer.done(
                    self.lowered,
                    place,
                ),
            forall|b: int|
                !is_current(current, b) && before.analyzer.untouched(self.lowered, b)
                    ==> #[trigger] self.analyzer.untouched(self.lowered, b),
        ensures
            self.running(seeded, done, current, ready),
    {
        assert forall|b: int| 0 <= b < self.lowered.blocks@.len() implies #[trigger] self.block_ok(
            seeded,
            done,
            current,
            ready,
            b,
        ) by {
            assert(before.block_ok(seeded, done, current, ready, b));
        }
    }

    /// Once all edges into the block under way are followed back, the block is done.
    proof fn lemma_finish(&self, done: Set<int>, block: int, ready: Seq<BlockId>)
        requires
            self.running(
                self.lowered.blocks@.len() as int,
                done,
                Some(
                    (block, edges_to(self.lowered, block, self.lowered.blocks@.len() as int).len(
                        ) as int),
                ),
                ready,
            ),
        ensures
            self.running(self.lowered.blocks@.len() as int, done.insert(block), None, ready),
    {
        let lowered = self.lowered;
        let n = lowered.blocks@.len() as int;
        let list = edges_to(lowered, block, n);
        let current = Some((block, list.len() as int));
        let after = done.insert(block);
        lemma_edges_to(lowered, block, n);
        assert forall|b: int| 0 <= b < n implies come_back(lowered, after, None, b) == come_back(
            lowered,
            done,
            current,
            b,
        ) && followed_back(lowered, after, None, b) == followed_back(lowered, done, current, b) by {
            let succs = lowered.successors(b);
            lemma_into_add(succs, done, block, succs.len() as int);
            assert(leaving(list, b, list.len() as int)
                == arm_hits(succs, block, succs.len() as int));
            assert forall|e: EdgeId|
                followed_back(lowered, after, None, b).contains(e) == followed_back(
                    lowered,
                    done,
                    current,
                    b,
                ).contains(e) by {
                if is_edge(lowered, e) && e.0 == b {
                    if edge_target(lowered, e) == block {
                        lemma_edges_to_complete(lowered, block, n, e);
                        let i = choose|i: int| 0 <= i < list.len() && list[i] == e;
                        assert(edges_to(lowered, block, n)[i] == e);
                    } else if followed_back(lowered, done, current, b).contains(e)
                        && !done.contains(
                        edge_target(lowered, e),
                    ) {
                        let i = choose|i: int|
                            0 <= i < list.len() && #[trigger] edges_to(lowered, block, n)[i] == e;
                        assert(lowered.successors(list[i].0)[list[i].1].0 == block);
                    }
                }
            }
            assert(followed_back(lowered, after, None, b) =~= followed_back(
                lowered,
                done,
                current,
                b,
            ));
        }
        assert forall|b: int| 0 <= b < n implies #[trigger] self.block_ok(
            n,
            after,
            None,
            ready,
            b,
        ) by {
            assert(self.block_ok(n, done, current, ready, b));
        }
    }

    /// Before the first edge into a block that waited is followed back, the block is taken up.
    proof fn lemma_take_up(
        &self,
        before: &Self,
        done: Set<int>,
        block: int,
        ready: Seq<BlockId>,
    )
        requires
            before.running(before.lowered.blocks@.len() as int, done, None, ready),
            ready.len() > 0,
            ready.last().0 == block,
            self.lowered == before.lowered,
            self.successor_counts == before.successor_counts,
            self.predecessors == before.predecessors,
            self.incoming@ == before.incoming@.update(block, None),
            self.analyzer.inv(self.lowered),
            self.analyzer.done(self.lowered, Place::Block(block)),
            forall|site: Site, state: TAnalyzer::Info| #[trigger]
                self.analyzer.sound(self.lowered, site, &state) == before.analyzer.sound(
                    self.lowered,
                    site,
                    &state,
                ),
            forall|place: Place|
                before.analyzer.done(self.lowered, place) ==> #[trigger] self.analyzer.done(
                    self.lowered,
                    place,
                ),
            forall|b: int|
                b != block && before.analyzer.untouched(self.lowered, b)
                    ==> #[trigger] self.analyzer.untouched(self.lowered, b),
        ensures
            self.running(
                self.lowered.blocks@.len() as int,
                done,
                Some((block, 0int)),
                ready.drop_last(),
            ),
    {
        let lowered = self.lowered;
        let n = lowered.blocks@.len() as int;
        let current = Some((block, 0int));
        let none: Option<EdgeId> = None;
        lemma_queue_pop(ready, n);
        assert(before.block_ok(n, done, none, ready, block));
        assert forall|b: int| 0 <= b < n implies come_back(lowered, done, current, b) == come_back(
            lowered,
            done,
            none,
            b,
        ) && followed_back(lowered, done, current, b) == followed_back(lowered, done, none, b) by {
            assert(followed_back(lowered, done, current, b) =~= followed_back(
                lowered,
                done,
                none,
                b,
            ));
        }
        assert forall|b: int| 0 <= b < n implies #[trigger] self.block_ok(
            n,
            done,
            current,
            ready.drop_last(),
            b,
        ) by {
            assert(before.block_ok(n, done, none, ready, b));
        }
    }

    /// When a block is taken up, every edge out of it has been followed back.
    proof fn lemma_all_returned(&self, done: Set<int>, block: int, ready: Seq<BlockId>)
        requires
            self.running(self.lowered.blocks@.len() as int, done, None, ready),
            waits(ready, block),
            0 <= block < self.lowered.blocks@.len(),
        ensures
            self.incoming@[block] is Some,
            self.analyzer.sound(
                self.lowered,
                start_site(Direction::Backward, self.lowered, block),
                &self.incoming@[block].unwrap(),
            ),
    {
        let lowered = self.lowered;
        let n = lowered.blocks@.len() as int;
        let none: Option<EdgeId> = None;
        let succs = lowered.successors(block);
        assert(self.block_ok(n, done, none, ready, block));
        lemma_into_full(succs, done, succs.len() as int);
        assert forall|e: EdgeId| out_edges(lowered, block).contains(e) implies followed_back(
            lowered,
            done,
            none,
            block,
        ).contains(e) by {
            assert(done.contains(succs[e.1].0 as int));
        }
        assert(followed_back(lowered, done, none, block) =~= out_edges(lowered, block));
    }

    /// What handing a result back across the first `upto` of the edges
    /// `list` has changed since `before`: the count of each block is lower
    /// by the number of those edges that leave it; a block that none of
    /// them leaves has the state it had, each other block has a state; and
    /// where no edge was followed the analyzer is as it was.
    spec fn handed_back(&self, before: &Self, list: Seq<EdgeId>, upto: int) -> bool {
        &&& self.incoming@.len() == before.incoming@.len()
        &&& self.successor_counts@.len() == before.successor_counts@.len()
        &&& forall|x: int|
            0 <= x < self.successor_counts@.len() ==> #[trigger] self.successor_counts@[x]
                + leaving(list, x, upto) == before.successor_counts@[x]
        &&& forall|x: int|
            #![trigger self.incoming@[x]]
            0 <= x < self.incoming@.len() ==> if leaving(list, x, upto) == 0 {
                self.incoming@[x] == before.incoming@[x]
            } else {
                self.incoming@[x] is Some
            }
        &&& upto <= 0 ==> self.analyzer == before.analyzer
    }

    /// Hands `info`, which came back along the edge `edge`, to the block
    /// `source` that the edge leaves: it is joined with what came back
    /// before. With the last edge out of it the block becomes ready.
    fn add_and_maybe_ready(
        &mut self,
        source: BlockId,
        info: TAnalyzer::Info,
        ready: &mut Vec<BlockId>,
        Ghost(done): Ghost<Set<int>>,
        Ghost(current): Ghost<EdgeId>,
    )
        requires
            old(self).running(
                old(self).lowered.blocks@.len() as int,
                done,
                Some(current),
                old(ready)@,
            ),
            current.1 < edges_to(
                old(self).lowered,
                current.0,
                old(self).lowered.blocks@.len() as int,
            ).len(),
            edges_to(old(self).lowered, current.0, old(self).lowered.blocks@.len(
                ) as int)[current.1].0
                == source.0,
            old(self).analyzer.sound(
                old(self).lowered,
                Site::Join {
                    block: source.0 as int,
                    edges: set![edges_to(
                        old(self).lowered,
                        current.0,
                        old(self).lowered.blocks@.len() as int,
                    )[current.1]],
                },
                &info,
            ),
            old(self).analyzer.done(
                old(self).lowered,
                Place::Edge(
                    edges_to(
                        old(self).lowered,
                        current.0,
                        old(self).lowered.blocks@.len() as int,
                    )[current.1],
                ),
            ),
        ensures
            final(self).running(
                final(self).lowered.blocks@.len() as int,
                done,
                Some((current.0, current.1 + 1)),
                final(ready)@,
            ),
            final(self).lowered == old(self).lowered,
            final(self).incoming@.len() == old(self).incoming@.len(),
            forall|x: int|
                0 <= x < old(self).incoming@.len() && x != source.0
                    ==> #[trigger] final(self).incoming@[x] == old(self).incoming@[x],
            final(self).incoming@[source.0 as int] is Some,
            old(self).incoming@[source.0 as int] is None ==> final(self).incoming@[source.0 as int]
                == Some(info) && final(self).analyzer == old(self).analyzer,
            old(self).successor_counts@[source.0 as int] >= 1,
            final(self).successor_counts@ == old(self).successor_counts@.update(
                source.0 as int,
                (old(self).successor_counts@[source.0 as int] - 1) as usize,
            ),
            final(ready)@ == if old(self).successor_counts@[source.0 as int] == 1 {
                old(ready)@.push(source)
            } else {
                old(ready)@
            },
            forall|site: Site, state: TAnalyzer::Info| #[trigger]
                final(self).analyzer.sound(final(self).lowered, site, &state)
                    == old(self).analyzer.sound(final(self).lowered, site, &state),
            forall|place: Place|
                old(self).analyzer.done(final(self).lowered, place)
                    ==> #[trigger] final(self).analyzer.done(final(self).lowered, place),
    {
        let lowered = self.lowered;
        let ghost n = lowered.blocks@.len() as int;
        let ghost p = source.0 as int;
        let ghost c = current.0;
        let ghost list = edges_to(lowered, c, n);
        let ghost edge = list[current.1];
        let ghost now = Some(current);
        let ghost next = Some((c, current.1 + 1));
        let ghost succs = lowered.successors(p);
        let ghost before = *self;
        let ghost ready0 = ready@;
        proof {
            lemma_edges_to(lowered, c, n);
            assert(edge.0 == p && 0 <= edge.1 < succs.len() && succs[edge.1].0 == c);
            assert(before.block_ok(n, done, now, ready0, p));
            assert(before.block_ok(n, done, now, ready0, c));
            // The edge has not been counted yet, so the count of its source is not zero.
            lemma_into_add(succs, done, c, succs.len() as int);
            lemma_into_bounds(succs, done.insert(c), succs.len() as int, succs.len() as int);
            lemma_leaving_bounds(list, p, current.1 + 1, list.len() as int);
            assert(leaving(list, p, current.1 + 1) == leaving(list, p, current.1) + 1);
            assert(leaving(list, p, list.len() as int) == arm_hits(succs, c, succs.len() as int));
            assert(self.successor_counts@[p] >= 1);
            assert(!done.contains(p) && !is_current(now, p) && !waits(ready0, p));
            assert forall|x: int| 0 <= x < n implies come_back(lowered, done, next, x) == come_back(
                lowered,
                done,
                now,
                x,
            ) + if x == p {
                1nat
            } else {
                0nat
            } by {
                assert(leaving(list, x, current.1 + 1) == leaving(list, x, current.1) + if x == p {
                    1nat
                } else {
                    0nat
                });
            }
            assert forall|x: int| 0 <= x < n implies followed_back(lowered, done, next, x) == if x
                == p {
                followed_back(lowered, done, now, x).union(set![edge])
            } else {
                followed_back(lowered, done, now, x)
            } by {
                let target = if x == p {
                    followed_back(lowered, done, now, x).union(set![edge])
                } else {
                    followed_back(lowered, done, now, x)
                };
                assert forall|e: EdgeId| followed_back(lowered, done, next, x).contains(e)
                    == target.contains(e) by {
                    if is_edge(lowered, e) && e.0 == x {
                        if followed_back(lowered, done, next, x).contains(e) && !done.contains(
                            edge_target(lowered, e),
                        ) {
                            let i = choose|i: int|
                                0 <= i < current.1 + 1 && #[trigger] edges_to(lowered, c, n)[i]
                                    == e;
                            if i < current.1 {
                                assert(followed_back(lowered, done, now, x).contains(e));
                            }
                        }
                        if followed_back(lowered, done, now, x).contains(e) && !done.contains(
                            edge_target(lowered, e),
                        ) {
                            let i = choose|i: int|
                                0 <= i < current.1 && #[trigger] edges_to(lowered, c, n)[i] == e;
                            assert(edges_to(lowered, c, n)[i] == e);
                        }
                        if x == p && e == edge {
                            assert(edges_to(lowered, c, n)[current.1] == e);
                        }
                    }
                }
                assert(followed_back(lowered, done, next, x) =~= target);
            }
            if come_back(lowered, done, now, p) == 0 {
                // Nothing has come back to the source: no edge out of it has been followed back.
                lemma_into_zero(succs, done, succs.len() as int);
                lemma_leaving_zero(list, p, current.1);
                assert forall|e: EdgeId| !followed_back(lowered, done, now, p).contains(e) by {
                    if is_edge(lowered, e) && e.0 == p {
                        assert(!done.contains(succs[e.1].0 as int));
                        if followed_back(lowered, done, now, p).contains(e) {
                            let i = choose|i: int|
                                0 <= i < current.1 && #[trigger] edges_to(lowered, c, n)[i] == e;
                            assert(list[i].0 != p);
                        }
                    }
                }
                assert(followed_back(lowered, done, now, p) =~= Set::<EdgeId>::empty());
                assert(followed_back(lowered, done, now, p).union(set![edge]) =~= set![edge]);
            } else {
                // Something has come back already, so more than one edge leaves the source.
                assert(succs.len() >= 2);
                assert(lowered.blocks@[p].end is Match);
            }
        }
        let n_statements = lowered.blocks[source.0].statements.len();
        let merged_info = match self.incoming[source.0].take() {
            Some(existing) => {
                assert(self.analyzer.sound(
                    lowered,
                    Site::Join { block: p, edges: followed_back(lowered, done, now, p) },
                    &existing,
                ));
                assert(!(TAnalyzer::DIRECTION is Forward));
                self.analyzer.merge(lowered, (source, n_statements), existing, info)
            },
            None => info,
        };
        proof {
            assert(self.analyzer.sound(
                lowered,
                Site::Join { block: p, edges: followed_back(lowered, done, next, p) },
                &merged_info,
            ));
        }
        self.incoming[source.0] = Some(merged_info);
        self.successor_counts[source.0] -= 1;
        if self.successor_counts[source.0] == 0 {
            proof {
                lemma_queue_push(ready0, n, source);
            }
            ready.push(source);
        }
        proof {
            let ready1 = ready@;
            assert forall|x: int| 0 <= x < n implies #[trigger] self.block_ok(
                n,
                done,
                next,
                ready1,
                x,
            ) by {
                assert(before.block_ok(n, done, now, ready0, x));
            }
        }
    }

    /// Hands the result `info` of the block `block_id` to its predecessors,
    /// each across its edge.
    fn propagate_to_predecessors(
        &mut self,
        block_id: BlockId,
        info: &TAnalyzer::Info,
        ready: &mut Vec<BlockId>,
        Ghost(done): Ghost<Set<int>>,
    )
        requires
            old(self).running(
                old(self).lowered.blocks@.len() as int,
                done,
                Some((block_id.0 as int, 0)),
                old(ready)@,
            ),
            old(self).analyzer.sound(
                old(self).lowered,
                result_site(Direction::Backward, old(self).lowered, block_id.0 as int),
                info,
            ),
        ensures
            final(self).running(
                final(self).lowered.blocks@.len() as int,
                done.insert(block_id.0 as int),
                None,
                final(ready)@,
            ),
            final(self).lowered == old(self).lowered,
            final(self).handed_back(
                old(self),
                edges_to(
                    old(self).lowered,
                    block_id.0 as int,
                    old(self).lowered.blocks@.len() as int,
                ),
                edges_to(
                    old(self).lowered,
                    block_id.0 as int,
                    old(self).lowered.blocks@.len() as int,
                ).len() as int,
            ),
            old(ready)@.is_prefix_of(final(ready)@),
            edges_to(
                old(self).lowered,
                block_id.0 as int,
                old(self).lowered.blocks@.len() as int,
            ).len() == 0 ==> {
                &&& final(ready)@ == old(ready)@
                &&& final(self).incoming@ == old(self).incoming@
                &&& final(self).successor_counts@ == old(self).successor_counts@
                &&& final(self).analyzer == old(self).analyzer
            },
            forall|site: Site, state: TAnalyzer::Info| #[trigger]
                final(self).analyzer.sound(final(self).lowered, site, &state)
                    == old(self).analyzer.sound(final(self).lowered, site, &state),
            forall|place: Place|
                old(self).analyzer.done(final(self).lowered, place)
                    ==> #[trigger] final(self).analyzer.done(final(self).lowered, place),
    {
        let lowered = self.lowered;
        let ghost c = block_id.0 as int;
        let ghost n = lowered.blocks@.len() as int;
        let ghost start = *self;
        let ghost list = edges_to(lowered, c, n);
        let n_edges = self.predecessors[block_id.0].len();
        let mut j: usize = 0;
        proof {
            lemma_edges_to(lowered, c, n);
        }
        while j < n_edges
            invariant
                j <= n_edges,
                n_edges == list.len(),
                list == edges_to(lowered, c, n),
                c == block_id.0,
                n == lowered.blocks@.len(),
                self.lowered == lowered,
                self.running(n, done, Some((c, j as int)), ready@),
                self.handed_back(&start, list, j as int),
                old(ready)@.is_prefix_of(ready@),
                self.incoming@.len() == n,
                self.successor_counts@.len() == n,
                j == 0 ==> *self == start && ready@ == old(ready)@,
                self.analyzer.sound(lowered, result_site(Direction::Backward, lowered, c), info),
                forall|i: int|
                    0 <= i < list.len() ==> {
                        let e = #[trigger] list[i];
                        0 <= e.0 < n && 0 <= e.1 < lowered.successors(e.0).len()
                            && lowered.successors(e.0)[e.1].0 == c
                    },
                forall|site: Site, state: TAnalyzer::Info| #[trigger]
                    self.analyzer.sound(lowered, site, &state) == start.analyzer.sound(
                        lowered,
                        site,
                        &state,
                    ),
                forall|place: Place|
                    start.analyzer.done(lowered, place) ==> #[trigger] self.analyzer.done(
                        lowered,
                        place,
                    ),
            decreases n_edges - j,
        {
            let (source, k) = self.predecessors[block_id.0][j];
            let ghost e = list[j as int];
            let ghost before = *self;
            proof {
                assert(edge_ids(self.predecessors@[c]@)[j as int] == e);
                assert(e == (source as int, k as int));
                assert(edge_target(lowered, e) == c);
                assert(edge_from(Direction::Backward, lowered, e) == result_site(
                    Direction::Backward,
                    lowered,
                    c,
                ));
                assert(edge_to(Direction::Backward, lowered, e) == Site::Join {
                    block: source as int,
                    edges: set![e],
                });
            }
            let crossed = match &lowered.blocks[source].end {
                BlockEnd::Goto(target, remapping) => {
                    let edge = Edge::Goto { target: *target, remapping };
                    assert(edge.leaves(lowered, e.0, e.1));
                    self.analyzer.transfer_edge(lowered, info, &edge)
                },
                BlockEnd::Match { info: match_info } => {
                    let arms = match_info.arms();
                    let edge = Edge::MatchArm { arm: &arms[k], match_info };
                    assert(edge.leaves(lowered, e.0, e.1));
                    self.analyzer.transfer_edge(lowered, info, &edge)
                },
                _ => {
                    assert(false);
                    vstd::pervasive::unreached()
                },
            };
            proof {
                self.lemma_reanalyzed(&before, n, done, Some((c, j as int)), ready@);
            }
            self.add_and_maybe_ready(
                BlockId(source),
                crossed,
                ready,
                Ghost(done),
                Ghost((c, j as int)),
            );
            proof {
                let next = j + 1;
                assert forall|x: int| 0 <= x < n implies leaving(list, x, next as int) == leaving(
                    list,
                    x,
                    j as int,
                ) + if x == source {
                    1nat
                } else {
                    0nat
                } by {}
                assert(self.handed_back(&start, list, next as int));
            }
            j += 1;
        }
        proof {
            self.lemma_finish(done, c, ready@);
        }
    }

    /// Runs the analysis and returns, for each block, the state at its
    /// start. Each block gets its state from its successors, once all of
    /// them have theirs.
    pub fn run(&mut self) -> (block_info: Vec<Option<TAnalyzer::Info>>)
        requires
            old(self).fresh(),
        ensures
            final(self).program() == old(self).program(),
            final(self).spec_analyzer().inv(final(self).program()),
            forall|site: Site, state: TAnalyzer::Info| #[trigger]
                final(self).spec_analyzer().sound(final(self).program(), site, &state)
                    == old(self).spec_analyzer().sound(final(self).program(), site, &state),
            forall|place: Place|
                old(self).spec_analyzer().done(final(self).program(), place)
                    ==> #[trigger] final(self).spec_analyzer().done(final(self).program(), place),
            block_info@.len() == final(self).program().blocks@.len(),
            backward_visits(final(self).program(), blocks_with_info(block_info@)),
            forall|b: int|
                0 <= b < block_info@.len() && #[trigger] block_info@[b] is Some
                    ==> final(self).spec_analyzer().done(final(self).program(), Place::Block(b)),
            forall|b: int, k: int|
                0 <= b < block_info@.len() && 0 <= k < final(self).program().successors(b).len()
                    && block_info@[final(self).program().successors(b)[k].0 as int] is Some
                    ==> #[trigger] final(self).spec_analyzer().done(
                    final(self).program(),
                    Place::Edge((b, k)),
                ),
            forall|b: int|
                0 <= b < block_info@.len() && #[trigger] block_info@[b] is Some
                    ==> final(self).spec_analyzer().sound(
                    final(self).program(),
                    result_site(Direction::Backward, final(self).program(), b),
                    &block_info@[b].unwrap(),
                ),
    {
        let lowered = self.lowered;
        let n_blocks = lowered.blocks.len();
        let ghost n = n_blocks as int;
        let ghost start = *self;
        let ghost none: Option<EdgeId> = None;
        let mut block_info: Vec<Option<TAnalyzer::Info>> = Vec::new();
        while block_info.len() < n_blocks
            invariant
                block_info@.len() <= n_blocks,
                forall|t: int| 0 <= t < block_info@.len() ==> #[trigger] block_info@[t] is None,
            decreases n_blocks - block_info.len(),
        {
            block_info.push(None);
        }
        let mut ready: Vec<BlockId> = Vec::new();
        let ghost mut done: Set<int> = Set::empty();
        proof {
            assert forall|b: int| 0 <= b < n implies #[trigger] self.block_ok(
                0,
                done,
                none,
                ready@,
                b,
            ) by {
                let succs = lowered.successors(b);
                lemma_into_zero(succs, done, succs.len() as int);
                assert(start.successor_counts@[b] == succs.len());
                assert(start.incoming@[b] is None);
            }
        }
        // The blocks without successors start the run.
        let mut seeded: usize = 0;
        while seeded < n_blocks
            invariant
                seeded <= n_blocks,
                n == n_blocks,
                self.lowered == lowered,
                n == lowered.blocks@.len(),
                done == Set::<int>::empty(),
                none == Option::<EdgeId>::None,
                self.running(seeded as int, done, none, ready@),
                forall|site: Site, state: TAnalyzer::Info| #[trigger]
                    self.analyzer.sound(lowered, site, &state) == start.analyzer.sound(
                        lowered,
                        site,
                        &state,
                    ),
                forall|place: Place|
                    start.analyzer.done(lowered, place) ==> #[trigger] self.analyzer.done(
                        lowered,
                        place,
                    ),
            decreases n_blocks - seeded,
        {
            let ghost before = *self;
            let ghost ready0 = ready@;
            let ghost b = seeded as int;
            proof {
                assert(before.block_ok(b, done, none, ready0, b));
                lemma_into_zero(
                    lowered.successors(b),
                    done,
                    lowered.successors(b).len() as int,
                );
                assert(come_back(lowered, done, none, b) == 0);
            }
            if self.successor_counts[seeded] == 0 {
                let block_id = BlockId(seeded);
                let initial = self.analyzer.initial_info(
                    lowered,
                    block_id,
                    &lowered.blocks[seeded].end,
                );
                proof {
                    assert(followed_back(lowered, done, none, b) =~= Set::<EdgeId>::empty());
                    lemma_queue_push(ready0, n, block_id);
                }
                self.incoming[seeded] = Some(initial);
                ready.push(block_id);
            }
            proof {
                assert forall|x: int| 0 <= x < n implies #[trigger] self.block_ok(
                    b + 1,
                    done,
                    none,
                    ready@,
                    x,
                ) by {
                    assert(before.block_ok(b, done, none, ready0, x));
                }
            }
            seeded += 1;
        }
        while ready.len() > 0
            invariant
                self.lowered == lowered,
                n == lowered.blocks@.len(),
                self.running(n, done, None, ready@),
                done.finite(),
                block_info@.len() == n,
                forall|b: int| 0 <= b < n ==> (#[trigger] block_info@[b] is Some
                    <==> done.contains(b)),
                forall|b: int|
                    0 <= b < n && #[trigger] block_info@[b] is Some ==> self.analyzer.sound(
                        lowered,
                        result_site(Direction::Backward, lowered, b),
                        &block_info@[b].unwrap(),
                    ),
                forall|site: Site, state: TAnalyzer::Info| #[trigger]
                    self.analyzer.sound(lowered, site, &state) == start.analyzer.sound(
                        lowered,
                        site,
                        &state,
                    ),
                forall|place: Place|
                    start.analyzer.done(lowered, place) ==> #[trigger] self.analyzer.done(
                        lowered,
                        place,
                    ),
            decreases n - done.len(),
        {
            let ghost ready0 = ready@;
            let ghost before = *self;
            proof {
                lemma_queue_pop(ready0, n);
            }
            let block_id = ready.pop().unwrap();
            let ghost c = block_id.0 as int;
            let block = &lowered.blocks[block_id.0];
            proof {
                assert(ready@ == ready0.drop_last());
                before.lemma_all_returned(done, c, ready0);
                assert(before.block_ok(n, done, None, ready0, c));
            }
            let mut info = self.incoming[block_id.0].take().unwrap();
            self.analyzer.transfer_block(lowered, &mut info, block_id, block);
            proof {
                self.lemma_take_up(&before, done, c, ready0);
            }
            self.propagate_to_predecessors(block_id, &info, &mut ready, Ghost(done));
            block_info[block_id.0] = Some(info);
            proof {
                vstd::set_lib::lemma_int_range(0, n);
                vstd::set_lib::lemma_len_subset(done.insert(c), vstd::set_lib::set_int_range(0, n));
                done = done.insert(c);
            }
        }
        proof {
            let visited = blocks_with_info(block_info@);
            assert(visited =~= done);
            assert(visited == done);
            assert forall|b: int| 0 <= b < n implies (#[trigger] done.contains(b)
                <==> forall|k: int|
                0 <= k < lowered.successors(b).len() ==> done.contains(
                    (#[trigger] lowered.successors(b)[k]).0 as int,
                )) by {
                let succs = lowered.successors(b);
                assert(self.block_ok(n, done, none, ready@, b));
                assert(!waits(ready@, b));
                lemma_into_full(succs, done, succs.len() as int);
                lemma_into_bounds(succs, done, succs.len() as int, succs.len() as int);
            }
            assert forall|b: int| 0 <= b < n && #[trigger] block_info@[b] is Some
                implies self.analyzer.done(
                lowered,
                Place::Block(b),
            ) by {
                assert(self.block_ok(n, done, none, ready@, b));
            }
            assert forall|b: int, k: int|
                0 <= b < n && 0 <= k < lowered.successors(b).len()
                    && block_info@[lowered.successors(
                    b,
                )[k].0 as int] is Some implies #[trigger] self.analyzer.done(
                lowered,
                Place::Edge((b, k)),
            ) by {
                assert(self.block_ok(n, done, none, ready@, b));
                assert(followed_back(lowered, done, none, b).contains((b, k)));
            }
        }
        block_info
    }
}

/// The highest of the first `upto` numbers.
pub open spec fn highest(rank: Seq<nat>, upto: int) -> nat
    decreases upto,
{
    if upto <= 0 {
        0
    } else if rank[upto - 1] > highest(rank, upto - 1) {
        rank[upto - 1]
    } else {
        highest(rank, upto - 1)
    }
}

proof fn lemma_highest(rank: Seq<nat>, upto: int, i: int)
    requires
        0 <= i < upto <= rank.len(),
    ensures
        rank[i] <= highest(rank, upto),
    decreases upto,
{
    if i < upto - 1 {
        lemma_highest(rank, upto - 1, i);
    }
}

proof fn lemma_visited_back(lowered: &Lowered, visited: Set<int>, rank: Seq<nat>, b: int)
    requires
        lowered.wf(),
        lowered.ranked_by(rank),
        backward_visits(lowered, visited),
        0 <= b < lowered.blocks@.len(),
    ensures
        visited.contains(b),
    decreases highest(rank, rank.len() as int) - rank[b],
{
    lemma_highest(rank, rank.len() as int, b);
    assert forall|k: int| 0 <= k < lowered.successors(b).len() implies visited.contains(
        (#[trigger] lowered.successors(b)[k]).0 as int,
    ) by {
        let t = lowered.successors(b)[k].0 as int;
        lemma_highest(rank, rank.len() as int, t);
        lemma_visited_back(lowered, visited, rank, t);
    }
}

/// In a function without cycles a backward run visits every block.
pub proof fn lemma_backward_visits_all(lowered: &Lowered, visited: Set<int>)
    requires
        lowered.wf(),
        lowered.acyclic(),
        backward_visits(lowered, visited),
    ensures
        forall|b: int| 0 <= b < lowered.blocks@.len() <==> visited.contains(b),
{
    let rank = choose|rank: Seq<nat>| lowered.ranked_by(rank);
    assert forall|b: int| 0 <= b < lowered.blocks@.len() implies visited.contains(b) by {
        lemma_visited_back(lowered, visited, rank, b);
    }
}

} // verus!
