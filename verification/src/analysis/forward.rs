//! The forward driver: it goes through the blocks of an acyclic control-flow
//! graph from the entry block, each block after all the blocks with an edge
//! to it, and hands the state from block to block along the edges.

use crate::analysis::dataflow::{
    edge_from, edge_target, edge_to, in_edges, is_edge, result_site, start_site, DataflowAnalyzer,
    Direction, Edge, EdgeId, Place, Site,
};
use crate::analysis::edges::{
    arm_hits, edge_count, edges_into, in_degree, lemma_edge_count_positive, lemma_edges_add,
    lemma_edges_full, lemma_edges_mono, lemma_edges_zero, lemma_hits_bounds, lemma_hits_zero,
};
use crate::analysis::worklist::{
    blocks_with_info, is_current, lemma_queue_pop, lemma_queue_push, queue_ok, waits,
};
use crate::ir::{BlockEnd, BlockId, Lowered};
use vstd::prelude::*;

verus! {

/// How many edges into `target` have been followed from the block that is
/// under way: `current` names that block and how many of its edges are done.
pub open spec fn under_way(lowered: &Lowered, current: Option<EdgeId>, target: int) -> nat {
    match current {
        Some(c) => arm_hits(lowered.successors(c.0), target, c.1),
        None => 0,
    }
}

/// How many edges into `target` have been followed so far.
pub open spec fn arrivals(
    lowered: &Lowered,
    done: Set<int>,
    current: Option<EdgeId>,
    target: int,
) -> nat {
    edges_into(lowered, done, target, lowered.blocks@.len() as int) + under_way(
        lowered,
        current,
        target,
    )
}

/// The edges into `target` that have been followed so far.
pub open spec fn followed(
    lowered: &Lowered,
    done: Set<int>,
    current: Option<EdgeId>,
    target: int,
) -> Set<EdgeId> {
    Set::new(
        |e: EdgeId|
            is_edge(lowered, e) && edge_target(lowered, e) == target && (done.contains(e.0) || (
            current is Some && e.0 == current.unwrap().0 && e.1 < current.unwrap().1)),
    )
}

/// What a forward run visits: the entry block, and every other block that
/// has predecessors, all of which are visited.
pub open spec fn forward_visits(lowered: &Lowered, visited: Set<int>) -> bool {
    &&& visited.contains(0)
    &&& forall|t: int| #[trigger] visited.contains(t) ==> 0 <= t < lowered.blocks@.len()
    &&& forall|t: int|
        0 < t < lowered.blocks@.len() ==> (#[trigger] visited.contains(t) <==> in_degree(lowered, t)
            > 0 && forall|b: int| #[trigger] lowered.has_edge(b, t) ==> visited.contains(b))
}

/// The machine can count the edges into every block.
pub open spec fn degrees_fit(lowered: &Lowered) -> bool {
    forall|t: int| 0 <= t < lowered.blocks@.len() ==> #[trigger] in_degree(lowered, t) <= usize::MAX
}

/// Runs a forward analysis over a function.
pub struct ForwardDataflowAnalysis<'a, TAnalyzer: DataflowAnalyzer> {
    lowered: &'a Lowered,
    pub analyzer: TAnalyzer,
    /// For each block, the number of edges into it that are still to be followed.
    predecessor_counts: Vec<usize>,
    /// For each block, the join of the states that have arrived so far.
    incoming: Vec<Option<TAnalyzer::Info>>,
}

/// The number of edges into each block; nothing where the machine cannot
/// count the edges into some block.
pub(crate) fn compute_predecessor_counts(lowered: &Lowered) -> (r: Option<Vec<usize>>)
    requires
        lowered.wf(),
    ensures
        r is Some <==> degrees_fit(lowered),
        r is Some ==> r.unwrap()@.len() == lowered.blocks@.len() && forall|t: int|
            0 <= t < r.unwrap()@.len() ==> #[trigger] r.unwrap()@[t] == in_degree(lowered, t),
{
    let n_blocks = lowered.blocks.len();
    let ghost all = Set::<int>::full();
    let mut counts: Vec<usize> = Vec::new();
    while counts.len() < n_blocks
        invariant
            counts@.len() <= n_blocks,
            forall|t: int| 0 <= t < counts@.len() ==> #[trigger] counts@[t] == 0,
        decreases n_blocks - counts.len(),
    {
        counts.push(0usize);
    }
    let mut b: usize = 0;
    while b < n_blocks
        invariant
            b <= n_blocks,
            n_blocks == lowered.blocks@.len(),
            counts@.len() == n_blocks,
            lowered.wf(),
            all == Set::<int>::full(),
            forall|t: int|
                0 <= t < n_blocks ==> #[trigger] counts@[t]
                    == edges_into(lowered, all, t, b as int),
        decreases n_blocks - b,
    {
        let ghost succs = lowered.successors(b as int);
        let ghost next: int = b + 1;
        proof {
            assert(all.contains(b as int));
        }
        match &lowered.blocks[b].end {
            BlockEnd::Goto(target, _) => {
                proof {
                    reveal_with_fuel(arm_hits, 2);
                    assert(succs[0] == *target);
                    assert(succs.len() == 1);
                    assert(edges_into(lowered, all, target.0 as int, next) == edges_into(
                        lowered,
                        all,
                        target.0 as int,
                        b as int,
                    ) + edge_count(lowered, b as int, target.0 as int));
                    lemma_edges_upto(lowered, target.0 as int, next);
                }
                if counts[target.0] == usize::MAX {
                    proof {
                        assert(in_degree(lowered, target.0 as int) > usize::MAX);
                    }
                    return None;
                }
                counts[target.0] += 1;
            },
            BlockEnd::Match { info } => {
                let arms = info.arms();
                let mut k: usize = 0;
                while k < arms.len()
                    invariant
                        k <= arms@.len(),
                        succs.len() == arms@.len(),
                        forall|j: int| 0 <= j < arms@.len() ==> succs[j] == arms@[j].block_id,
                        forall|j: int| 0 <= j < succs.len() ==> (#[trigger] succs[j]).0 < n_blocks,
                        b < n_blocks,
                        n_blocks == lowered.blocks@.len(),
                        counts@.len() == n_blocks,
                        succs == lowered.successors(b as int),
                        all == Set::<int>::full(),
                        next == b + 1,
                        forall|t: int|
                            0 <= t < n_blocks ==> #[trigger] counts@[t] == edges_into(
                                lowered,
                                all,
                                t,
                                b as int,
                            ) + arm_hits(succs, t, k as int),
                    decreases arms@.len() - k,
                {
                    let target = arms[k].block_id;
                    proof {
                        assert(succs[k as int] == target);
                        lemma_hits_bounds(succs, target.0 as int, k + 1, succs.len() as int);
                        assert(arm_hits(succs, target.0 as int, k + 1) == arm_hits(
                            succs,
                            target.0 as int,
                            k as int,
                        ) + 1);
                        assert(edges_into(lowered, all, target.0 as int, next) == edges_into(
                            lowered,
                            all,
                            target.0 as int,
                            b as int,
                        ) + edge_count(lowered, b as int, target.0 as int));
                        lemma_edges_upto(lowered, target.0 as int, next);
                    }
                    if counts[target.0] == usize::MAX {
                        proof {
                            assert(edge_count(lowered, b as int, target.0 as int) >= arm_hits(
                                succs,
                                target.0 as int,
                                k + 1,
                            ));
                            assert(counts@[target.0 as int] == edges_into(
                                lowered,
                                all,
                                target.0 as int,
                                b as int,
                            ) + arm_hits(succs, target.0 as int, k as int));
                            assert(edges_into(lowered, all, target.0 as int, next) <= in_degree(
                                lowered,
                                target.0 as int,
                            ));
                            assert(in_degree(lowered, target.0 as int) > usize::MAX);
                        }
                        return None;
                    }
                    counts[target.0] += 1;
                    k += 1;
                }
            },
            _ => {},
        }
        b += 1;
    }
    proof {
        assert forall|t: int| 0 <= t < n_blocks implies #[trigger] in_degree(lowered, t)
            <= usize::MAX by {
            assert(counts@[t] == in_degree(lowered, t));
        }
    }
    Some(counts)
}

impl<'a, TAnalyzer: DataflowAnalyzer> ForwardDataflowAnalysis<'a, TAnalyzer> {
    /// The function under analysis.
    pub closed spec fn program(&self) -> &Lowered {
        self.lowered
    }

    /// The analyzer, as a value.
    pub closed spec fn spec_analyzer(&self) -> TAnalyzer {
        self.analyzer
    }

    /// The analyzer, to look at while the driver is in use.
    pub fn analyzer_ref(&self) -> (analyzer: &TAnalyzer)
        ensures
            *analyzer == self.spec_analyzer(),
    {
        &self.analyzer
    }

    /// Ends the use of the driver and gives the analyzer back.
    pub fn into_analyzer(self) -> (analyzer: TAnalyzer)
        ensures
            analyzer == self.spec_analyzer(),
    {
        self.analyzer
    }

    /// The driver is as `new` made it: nothing has run yet.
    pub closed spec fn fresh(&self) -> bool {
        &&& self.lowered.wf()
        &&& self.lowered.acyclic()
        &&& TAnalyzer::DIRECTION is Forward
        &&& self.analyzer.inv(self.lowered)
        &&& forall|t: int| #[trigger] self.analyzer.untouched(self.lowered, t)
        &&& self.predecessor_counts@.len() == self.lowered.blocks@.len()
        &&& self.incoming@.len() == self.lowered.blocks@.len()
        &&& forall|t: int|
            0 <= t < self.lowered.blocks@.len() ==> #[trigger] self.predecessor_counts@[t]
                == in_degree(self.lowered, t)
        &&& forall|t: int|
            0 <= t < self.lowered.blocks@.len() ==> #[trigger] self.incoming@[t] is None
    }

    /// What holds of the block `t` while the blocks are gone through.
    spec fn block_ok(
        &self,
        rank: Seq<nat>,
        done: Set<int>,
        current: Option<EdgeId>,
        ready: Seq<BlockId>,
        t: int,
    ) -> bool {
        let lowered = self.lowered;
        let arrived = arrivals(lowered, done, current, t);
        let taken = done.contains(t) || is_current(current, t);
        &&& self.predecessor_counts@[t] + arrived == in_degree(lowered, t)
        &&& taken || waits(ready, t) ==> rank[t] >= rank[0]
        &&& waits(ready, t) ==> !taken
        &&& t != 0 ==> (taken || waits(ready, t) <==> self.predecessor_counts@[t] == 0 && arrived
            > 0)
        &&& self.incoming@[t] is Some <==> !taken && (t == 0 || arrived > 0)
        &&& self.incoming@[t] is Some ==> self.analyzer.sound(
            lowered,
            Site::Join { block: t, edges: followed(lowered, done, current, t) },
            &self.incoming@[t].unwrap(),
        )
        &&& taken ==> self.analyzer.done(lowered, Place::Block(t))
        &&& !taken ==> self.analyzer.untouched(lowered, t)
        &&& forall|k: int|
            0 <= k < lowered.successors(t).len() && (done.contains(t) || (is_current(current, t)
                && k < current.unwrap().1)) ==> #[trigger] self.analyzer.done(
                lowered,
                Place::Edge((t, k)),
            )
    }

    /// What holds while the blocks are gone through: `done` are the blocks
    /// that are finished, `current` the block under way with the number of
    /// its edges that have been followed, `ready` the blocks that wait.
    spec fn running(
        &self,
        rank: Seq<nat>,
        done: Set<int>,
        current: Option<EdgeId>,
        ready: Seq<BlockId>,
    ) -> bool {
        let lowered = self.lowered;
        let n = lowered.blocks@.len() as int;
        &&& lowered.wf()
        &&& lowered.ranked_by(rank)
        &&& TAnalyzer::DIRECTION is Forward
        &&& self.analyzer.inv(lowered)
        &&& self.predecessor_counts@.len() == n
        &&& self.incoming@.len() == n
        &&& forall|b: int| #[trigger] done.contains(b) ==> 0 <= b < n
        &&& current is Some ==> 0 <= current.unwrap().0 < n && 0 <= current.unwrap().1
            <= lowered.successors(current.unwrap().0).len() && !done.contains(current.unwrap().0)
        &&& queue_ok(ready, n)
        &&& done.contains(0) || is_current(current, 0) || waits(ready, 0)
        &&& arrivals(lowered, done, current, 0) == 0
        &&& forall|t: int| 0 <= t < n ==> #[trigger] self.block_ok(rank, done, current, ready, t)
    }

    /// A driver for `analyzer` on `lowered`.
    pub fn new(lowered: &'a Lowered, analyzer: TAnalyzer) -> (r: Self)
        requires
            lowered.wf(),
            lowered.acyclic(),
            degrees_fit(lowered),
            TAnalyzer::DIRECTION is Forward,
            analyzer.inv(lowered),
            forall|t: int| #[trigger] analyzer.untouched(lowered, t),
        ensures
            r.fresh(),
            r.program() == lowered,
            r.spec_analyzer() == analyzer,
    {
        let predecessor_counts = match compute_predecessor_counts(lowered) {
            Some(counts) => counts,
            None => {
                assert(false);
                vstd::pervasive::unreached()
            },
        };
        let n_blocks = lowered.blocks.len();
        let mut incoming: Vec<Option<TAnalyzer::Info>> = Vec::new();
        while incoming.len() < n_blocks
            invariant
                incoming@.len() <= n_blocks,
                forall|t: int| 0 <= t < incoming@.len() ==> #[trigger] incoming@[t] is None,
            decreases n_blocks - incoming.len(),
        {
            incoming.push(None);
        }
        Self { lowered, analyzer, predecessor_counts, incoming }
    }

    /// A callback that changes the analyzer alone leaves everything in place.
    proof fn lemma_reanalyzed(
        &self,
        before: &Self,
        rank: Seq<nat>,
        done: Set<int>,
        current: Option<EdgeId>,
        ready: Seq<BlockId>,
    )
        requires
            before.running(rank, done, current, ready),
            self.lowered == before.lowered,
            self.predecessor_counts == before.predecessor_counts,
            self.incoming == before.incoming,
            self.analyzer.inv(self.lowered),
            forall|site: Site, state: TAnalyzer::Info| #[trigger]
                self.analyzer.sound(self.lowered, site, &state) == before.analyzer.sound(
                    self.lowered,
                    site,
                    &state,
                ),
            forall|place: Place|
                before.analyzer.done(self.lowered, place) ==> #[trigger] self.analyzer.done(
                    self.lowered,
                    place,
                ),
            forall|b: int|
                before.analyzer.untouched(self.lowered, b) ==> #[trigger] self.analyzer.untouched(
                    self.lowered,
                    b,
                ),
        ensures
            self.running(rank, done, current, ready),
    {
        assert forall|t: int| 0 <= t < self.lowered.blocks@.len() implies #[trigger] self.block_ok(
            rank,
            done,
            current,
            ready,
            t,
        ) by {
            assert(before.block_ok(rank, done, current, ready, t));
        }
    }

    /// Once all edges of the block under way are followed, the block is done.
    proof fn lemma_finish(&self, rank: Seq<nat>, done: Set<int>, block: int, ready: Seq<BlockId>)
        requires
            self.running(
                rank,
                done,
                Some((block, self.lowered.successors(block).len() as int)),
                ready,
            ),
        ensures
            self.running(rank, done.insert(block), None, ready),
    {
        let lowered = self.lowered;
        let n = lowered.blocks@.len() as int;
        let current = Some((block, lowered.successors(block).len() as int));
        let after = done.insert(block);
        assert forall|t: int| 0 <= t < n implies arrivals(lowered, after, None, t) == arrivals(
            lowered,
            done,
            current,
            t,
        ) && followed(lowered, after, None, t) == followed(lowered, done, current, t) by {
            lemma_edges_add(lowered, done, block, t, n);
            assert(followed(lowered, after, None, t) =~= followed(lowered, done, current, t));
        }
        assert forall|t: int| 0 <= t < n implies #[trigger] self.block_ok(
            rank,
            after,
            None,
            ready,
            t,
        ) by {
            assert(self.block_ok(rank, done, current, ready, t));
        }
    }

    /// Before the first edge of a block that waited is followed, the block is taken up.
    proof fn lemma_take_up(
        &self,
        before: &Self,
        rank: Seq<nat>,
        done: Set<int>,
        block: int,
        ready: Seq<BlockId>,
    )
        requires
            before.running(rank, done, None, ready),
            ready.len() > 0,
            ready.last().0 == block,
            self.lowered == before.lowered,
            self.predecessor_counts == before.predecessor_counts,
            self.incoming@ == before.incoming@.update(block, None),
            self.analyzer.inv(self.lowered),
            self.analyzer.done(self.lowered, Place::Block(block)),
            forall|site: Site, state: TAnalyzer::Info| #[trigger]
                self.analyzer.sound(self.lowered, site, &state) == before.analyzer.sound(
                    self.lowered,
                    site,
                    &state,
                ),
            forall|place: Place|
                before.analyzer.done(self.lowered, place) ==> #[trigger] self.analyzer.done(
                    self.lowered,
                    place,
                ),
            forall|b: int|
                b != block && before.analyzer.untouched(self.lowered, b)
                    ==> #[trigger] self.analyzer.untouched(self.lowered, b),
        ensures
            self.running(rank, done, Some((block, 0int)), ready.drop_last()),
    {
        let lowered = self.lowered;
        let n = lowered.blocks@.len() as int;
        let current = Some((block, 0int));
        let none: Option<EdgeId> = None;
        lemma_queue_pop(ready, n);
        assert(before.block_ok(rank, done, none, ready, block));
        assert forall|t: int| 0 <= t < n implies arrivals(lowered, done, current, t) == arrivals(
            lowered,
            done,
            none,
            t,
        ) && followed(lowered, done, current, t) == followed(lowered, done, none, t) by {
            assert(followed(lowered, done, current, t) =~= followed(lowered, done, none, t));
        }
        assert forall|t: int| 0 <= t < n implies #[trigger] self.block_ok(
            rank,
            done,
            current,
            ready.drop_last(),
            t,
        ) by {
            assert(before.block_ok(rank, done, none, ready, t));
        }
    }

    /// When a block is taken up, every edge into it has been followed; into
    /// the entry block there is none to follow.
    proof fn lemma_all_arrived(
        &self,
        rank: Seq<nat>,
        done: Set<int>,
        block: int,
        ready: Seq<BlockId>,
    )
        requires
            self.running(rank, done, None, ready),
            waits(ready, block),
            0 <= block < self.lowered.blocks@.len(),
        ensures
            self.incoming@[block] is Some,
            self.analyzer.sound(
                self.lowered,
                start_site(Direction::Forward, self.lowered, block),
                &self.incoming@[block].unwrap(),
            ),
    {
        let lowered = self.lowered;
        let n = lowered.blocks@.len() as int;
        let none: Option<EdgeId> = None;
        assert(self.block_ok(rank, done, none, ready, block));
        if block != 0 {
            lemma_edges_full(lowered, done, block, n);
            assert forall|e: EdgeId| in_edges(lowered, block).contains(e) implies followed(
                lowered,
                done,
                none,
                block,
            ).contains(e) by {
                lemma_hits_zero(lowered.successors(e.0), block, lowered.successors(e.0).len(
                    ) as int);
                assert(lowered.successors(e.0)[e.1].0 == block);
                assert(edge_count(lowered, e.0, block) > 0);
            }
            assert(followed(lowered, done, none, block) =~= in_edges(lowered, block));
        } else {
            lemma_edges_zero(lowered, done, 0, n);
            assert forall|e: EdgeId| !followed(lowered, done, none, 0).contains(e) by {
                if is_edge(lowered, e) && edge_target(lowered, e) == 0 && done.contains(e.0) {
                    assert(edge_count(lowered, e.0, 0) == 0);
                    lemma_hits_zero(lowered.successors(e.0), 0, lowered.successors(e.0).len(
                        ) as int);
                    assert(lowered.successors(e.0)[e.1].0 != 0);
                }
            }
            assert(followed(lowered, done, none, 0) =~= Set::<EdgeId>::empty());
        }
    }

    /// What handing a result across the first `upto` of the edges `succs`
    /// has changed since `before`: the count of each block is lower by the
    /// number of those edges that lead to it; a block that none of them
    /// leads to has the state it had, each other block has a state; and
    /// where no edge was followed the analyzer is as it was.
    spec fn handed_on(&self, before: &Self, succs: Seq<BlockId>, upto: int) -> bool {
        &&& self.incoming@.len() == before.incoming@.len()
        &&& self.predecessor_counts@.len() == before.predecessor_counts@.len()
        &&& forall|x: int|
            0 <= x < self.predecessor_counts@.len() ==> #[trigger] self.predecessor_counts@[x]
                + arm_hits(succs, x, upto) == before.predecessor_counts@[x]
        &&& forall|x: int|
            #![trigger self.incoming@[x]]
            0 <= x < self.incoming@.len() ==> if arm_hits(succs, x, upto) == 0 {
                self.incoming@[x] == before.incoming@[x]
            } else {
                self.incoming@[x] is Some
            }
        &&& upto <= 0 ==> self.analyzer == before.analyzer
    }

    /// Hands `info`, which arrived along the edge `edge`, to the block
    /// `target`: it is joined with what arrived before. With the last edge
    /// into it the block becomes ready.
    fn add_and_maybe_ready(
        &mut self,
        target: BlockId,
        info: TAnalyzer::Info,
        ready: &mut Vec<BlockId>,
        Ghost(rank): Ghost<Seq<nat>>,
        Ghost(done): Ghost<Set<int>>,
        Ghost(edge): Ghost<EdgeId>,
    )
        requires
            old(self).running(rank, done, Some(edge), old(ready)@),
            edge.1 < old(self).lowered.successors(edge.0).len(),
            old(self).lowered.successors(edge.0)[edge.1] == target,
            old(self).analyzer.sound(
                old(self).lowered,
                Site::Join { block: target.0 as int, edges: set![edge] },
                &info,
            ),
            old(self).analyzer.done(old(self).lowered, Place::Edge(edge)),
        ensures
            final(self).running(rank, done, Some((edge.0, edge.1 + 1)), final(ready)@),
            final(self).lowered == old(self).lowered,
            final(self).incoming@.len() == old(self).incoming@.len(),
            forall|x: int|
                0 <= x < old(self).incoming@.len() && x != target.0
                    ==> #[trigger] final(self).incoming@[x] == old(self).incoming@[x],
            final(self).incoming@[target.0 as int] is Some,
            old(self).incoming@[target.0 as int] is None ==> final(self).incoming@[target.0 as int]
                == Some(info) && final(self).analyzer == old(self).analyzer,
            old(self).predecessor_counts@[target.0 as int] >= 1,
            final(self).predecessor_counts@ == old(self).predecessor_counts@.update(
                target.0 as int,
                (old(self).predecessor_counts@[target.0 as int] - 1) as usize,
            ),
            final(ready)@ == if old(self).predecessor_counts@[target.0 as int] == 1 {
                old(ready)@.push(target)
            } else {
                old(ready)@
            },
            forall|site: Site, state: TAnalyzer::Info| #[trigger]
                final(self).analyzer.sound(final(self).lowered, site, &state)
                    == old(self).analyzer.sound(final(self).lowered, site, &state),
            forall|place: Place|
                old(self).analyzer.done(final(self).lowered, place)
                    ==> #[trigger] final(self).analyzer.done(final(self).lowered, place),
    {
        let lowered = self.lowered;
        let ghost n = lowered.blocks@.len() as int;
        let ghost t = target.0 as int;
        let ghost current = Some(edge);
        let ghost next = Some((edge.0, edge.1 + 1));
        let ghost succs = lowered.successors(edge.0);
        let ghost before = *self;
        let ghost ready0 = ready@;
        proof {
            assert(succs[edge.1].0 < n);
            assert(rank[t] > rank[edge.0]);
            assert(before.block_ok(rank, done, current, ready0, edge.0));
            assert(before.block_ok(rank, done, current, ready0, t));
            // The edge has not been counted yet, so the count of the target is not zero.
            lemma_edges_add(lowered, done, edge.0, t, n);
            lemma_edges_mono(lowered, done.insert(edge.0), Set::full(), t, n);
            lemma_hits_bounds(succs, t, edge.1 + 1, succs.len() as int);
            assert(arm_hits(succs, t, edge.1 + 1) == arm_hits(succs, t, edge.1) + 1);
            assert(self.predecessor_counts@[t] >= 1);
            assert(t != 0);
            assert(!done.contains(t) && !is_current(current, t) && !waits(ready0, t));
            assert forall|x: int| 0 <= x < n implies arrivals(lowered, done, next, x) == arrivals(
                lowered,
                done,
                current,
                x,
            ) + if x == t {
                1nat
            } else {
                0nat
            } by {
                assert(arm_hits(succs, x, edge.1 + 1) == arm_hits(succs, x, edge.1) + if x == t {
                    1nat
                } else {
                    0nat
                });
            }
            assert forall|x: int| 0 <= x < n implies followed(lowered, done, next, x) == if x == t {
                followed(lowered, done, current, x).union(set![edge])
            } else {
                followed(lowered, done, current, x)
            } by {
                if x == t {
                    assert(followed(lowered, done, next, x) =~= followed(
                        lowered,
                        done,
                        current,
                        x,
                    ).union(set![edge]));
                } else {
                    assert(followed(lowered, done, next, x) =~= followed(
                        lowered, done, current, x));
                }
            }
            if arrivals(lowered, done, current, t) == 0 {
                // Nothing has arrived at the target: no edge into it has been followed.
                lemma_edges_zero(lowered, done, t, n);
                lemma_hits_zero(succs, t, edge.1);
                assert forall|e: EdgeId| !followed(lowered, done, current, t).contains(e) by {
                    if is_edge(lowered, e) && edge_target(lowered, e) == t {
                        if done.contains(e.0) {
                            assert(edge_count(lowered, e.0, t) == 0);
                            lemma_hits_zero(
                                lowered.successors(e.0),
                                t,
                                lowered.successors(e.0).len() as int,
                            );
                            assert(lowered.successors(e.0)[e.1].0 != t);
                        } else if e.0 == edge.0 && e.1 < edge.1 {
                            assert(succs[e.1].0 != t);
                        }
                    }
                }
                assert(followed(lowered, done, current, t) =~= Set::<EdgeId>::empty());
                assert(followed(lowered, done, current, t).union(set![edge]) =~= set![edge]);
            }
        }
        let merged_info = match self.incoming[target.0].take() {
            Some(existing) => {
                assert(self.analyzer.sound(
                    lowered,
                    Site::Join { block: t, edges: followed(lowered, done, current, t) },
                    &existing,
                ));
                assert(followed(lowered, done, current, t).disjoint(set![edge]));
                self.analyzer.merge(lowered, (target, 0), existing, info)
            },
            None => info,
        };
        proof {
            assert(self.analyzer.sound(
                lowered,
                Site::Join { block: t, edges: followed(lowered, done, next, t) },
                &merged_info,
            ));
        }
        self.incoming[target.0] = Some(merged_info);
        self.predecessor_counts[target.0] -= 1;
        if self.predecessor_counts[target.0] == 0 {
            proof {
                lemma_queue_push(ready0, n, target);
            }
            ready.push(target);
        }
        proof {
            let ready1 = ready@;
            assert forall|x: int| 0 <= x < n implies #[trigger] self.block_ok(
                rank,
                done,
                next,
                ready1,
                x,
            ) by {
                assert(before.block_ok(rank, done, current, ready0, x));
            }
            assert(before.block_ok(rank, done, current, ready0, 0));
        }
    }

    /// Hands the result `info` of the block `block_id` to its successors,
    /// each across its edge.
    fn propagate_to_successors(
        &mut self,
        block_id: BlockId,
        info: &TAnalyzer::Info,
        ready: &mut Vec<BlockId>,
        Ghost(rank): Ghost<Seq<nat>>,
        Ghost(done): Ghost<Set<int>>,
    )
        requires
            old(self).running(rank, done, Some((block_id.0 as int, 0)), old(ready)@),
            old(self).analyzer.sound(
                old(self).lowered,
                result_site(Direction::Forward, old(self).lowered, block_id.0 as int),
                info,
            ),
        ensures
            final(self).running(rank, done.insert(block_id.0 as int), None, final(ready)@),
            final(self).lowered == old(self).lowered,
            final(self).handed_on(
                old(self),
                old(self).lowered.successors(block_id.0 as int),
                old(self).lowered.successors(block_id.0 as int).len() as int,
            ),
            old(ready)@.is_prefix_of(final(ready)@),
            old(self).lowered.successors(block_id.0 as int).len() == 0 ==> {
                &&& final(ready)@ == old(ready)@
                &&& final(self).incoming@ == old(self).incoming@
                &&& final(self).predecessor_counts@ == old(self).predecessor_counts@
                &&& final(self).analyzer == old(self).analyzer
            },
            forall|site: Site, state: TAnalyzer::Info| #[trigger]
                final(self).analyzer.sound(final(self).lowered, site, &state)
                    == old(self).analyzer.sound(final(self).lowered, site, &state),
            forall|place: Place|
                old(self).analyzer.done(final(self).lowered, place)
                    ==> #[trigger] final(self).analyzer.done(final(self).lowered, place),
    {
        let lowered = self.lowered;
        let ghost c = block_id.0 as int;
        let ghost start = *self;
        let block = &lowered.blocks[block_id.0];
        match &block.end {
            BlockEnd::Goto(target, remapping) => {
                let edge = Edge::Goto { target: *target, remapping };
                let ghost before = *self;
                proof {
                    assert(edge.leaves(lowered, c, 0));
                    assert(edge_from(Direction::Forward, lowered, (c, 0int)) == result_site(
                        Direction::Forward,
                        lowered,
                        c,
                    ));
                    assert(lowered.successors(c)[0] == *target);
                    assert(edge_to(Direction::Forward, lowered, (c, 0int)) == Site::Join {
                        block: target.0 as int,
                        edges: set![(c, 0int)],
                    });
                }
                let target_info = self.analyzer.transfer_edge(lowered, info, &edge);
                proof {
                    self.lemma_reanalyzed(&before, rank, done, Some((c, 0int)), ready@);
                }
                self.add_and_maybe_ready(
                    *target,
                    target_info,
                    ready,
                    Ghost(rank),
                    Ghost(done),
                    Ghost((c, 0int)),
                );
                proof {
                    let succs = lowered.successors(c);
                    assert forall|x: int| 0 <= x < lowered.blocks@.len() implies arm_hits(
                        succs,
                        x,
                        1,
                    ) == if x == target.0 {
                        1nat
                    } else {
                        0nat
                    } by {
                        assert(arm_hits(succs, x, 0) == 0);
                    }
                    assert(self.handed_on(&start, succs, 1));
                }
            },
            BlockEnd::Match { info: match_info } => {
                let arms = match_info.arms();
                let mut k: usize = 0;
                while k < arms.len()
                    invariant
                        k <= arms@.len(),
                        arms@ == match_info.spec_arms(),
                        c == block_id.0,
                        c < lowered.blocks@.len(),
                        lowered.blocks@[c].end == (BlockEnd::Match { info: *match_info }),
                        self.lowered == lowered,
                        self.running(rank, done, Some((c, k as int)), ready@),
                        self.handed_on(&start, lowered.successors(c), k as int),
                        k == 0 ==> *self == start && ready@ == old(ready)@,
                        old(ready)@.is_prefix_of(ready@),
                        self.incoming@.len() == lowered.blocks@.len(),
                        self.predecessor_counts@.len() == lowered.blocks@.len(),
                        self.analyzer.sound(
                            lowered,
                            result_site(Direction::Forward, lowered, c),
                            info,
                        ),
                        forall|site: Site, state: TAnalyzer::Info| #[trigger]
                            self.analyzer.sound(lowered, site, &state) == start.analyzer.sound(
                                lowered,
                                site,
                                &state,
                            ),
                        forall|place: Place|
                            start.analyzer.done(lowered, place) ==> #[trigger] self.analyzer.done(
                                lowered,
                                place,
                            ),
                    decreases arms@.len() - k,
                {
                    let arm = &arms[k];
                    let edge = Edge::MatchArm { arm, match_info };
                    let ghost before = *self;
                    let ghost e = (c, k as int);
                    proof {
                        assert(edge.leaves(lowered, c, k as int));
                        assert(edge_from(Direction::Forward, lowered, e) == result_site(
                            Direction::Forward,
                            lowered,
                            c,
                        ));
                        assert(lowered.successors(c)[k as int] == arm.block_id);
                        assert(edge_to(Direction::Forward, lowered, e) == Site::Join {
                            block: arm.block_id.0 as int,
                            edges: set![e],
                        });
                    }
                    let arm_info = self.analyzer.transfer_edge(lowered, info, &edge);
                    proof {
                        self.lemma_reanalyzed(&before, rank, done, Some(e), ready@);
                    }
                    self.add_and_maybe_ready(
                        arm.block_id,
                        arm_info,
                        ready,
                        Ghost(rank),
                        Ghost(done),
                        Ghost(e),
                    );
                    proof {
                        let succs = lowered.successors(c);
                        let next = k + 1;
                        assert forall|x: int|
                            0 <= x < lowered.blocks@.len() implies arm_hits(succs, x, next as int)
                            == arm_hits(succs, x, k as int) + if x == arm.block_id.0 {
                            1nat
                        } else {
                            0nat
                        } by {}
                        assert(self.handed_on(&start, succs, next as int));
                    }
                    k += 1;
                }
            },
            _ => {},
        }
        proof {
            assert(self.running(rank, done, Some((c, lowered.successors(c).len() as int)), ready@));
            self.lemma_finish(rank, done, c, ready@);
        }
    }

    /// Runs the analysis and returns, for each block, the state at its end.
    /// Each block that is reached gets its state from the blocks before it,
    /// once all of them have theirs.
    pub fn run(&mut self) -> (block_info: Vec<Option<TAnalyzer::Info>>)
        requires
            old(self).fresh(),
        ensures
            final(self).program() == old(self).program(),
            final(self).spec_analyzer().inv(final(self).program()),
            forall|site: Site, state: TAnalyzer::Info| #[trigger]
                final(self).spec_analyzer().sound(final(self).program(), site, &state)
                    == old(self).spec_analyzer().sound(final(self).program(), site, &state),
            forall|place: Place|
                old(self).spec_analyzer().done(final(self).program(), place)
                    ==> #[trigger] final(self).spec_analyzer().done(final(self).program(), place),
            block_info@.len() == final(self).program().blocks@.len(),
            forward_visits(final(self).program(), blocks_with_info(block_info@)),
            forall|b: int|
                0 <= b < block_info@.len() && #[trigger] block_info@[b] is Some
                    ==> final(self).spec_analyzer().done(final(self).program(), Place::Block(b)),
            forall|b: int, k: int|
                0 <= b < block_info@.len() && block_info@[b] is Some
                    && 0 <= k < final(self).program().successors(b).len()
                        ==> #[trigger] final(self).spec_analyzer().done(
                    final(self).program(),
                    Place::Edge((b, k)),
                ),
            forall|b: int|
                0 <= b < block_info@.len() && #[trigger] block_info@[b] is Some
                    ==> final(self).spec_analyzer().sound(
                    final(self).program(),
                    result_site(Direction::Forward, final(self).program(), b),
                    &block_info@[b].unwrap(),
                ),
    {
        let lowered = self.lowered;
        let n_blocks = lowered.blocks.len();
        let ghost n = n_blocks as int;
        let ghost start = *self;
        let ghost rank = choose|rank: Seq<nat>| lowered.ranked_by(rank);
        let mut block_info: Vec<Option<TAnalyzer::Info>> = Vec::new();
        while block_info.len() < n_blocks
            invariant
                block_info@.len() <= n_blocks,
                forall|t: int| 0 <= t < block_info@.len() ==> #[trigger] block_info@[t] is None,
            decreases n_blocks - block_info.len(),
        {
            block_info.push(None);
        }
        let root_id = BlockId::root();
        let initial = self.analyzer.initial_info(lowered, root_id, &lowered.blocks[0].end);
        self.incoming[0] = Some(initial);
        let mut ready: Vec<BlockId> = Vec::new();
        ready.push(root_id);
        let ghost mut done: Set<int> = Set::empty();
        proof {
            let none: Option<EdgeId> = None;
            assert(ready@[0].0 == 0);
            assert(waits(ready@, 0));
            assert forall|t: int| 0 <= t < n implies arrivals(lowered, done, none, t) == 0
                && followed(
                lowered,
                done,
                none,
                t,
            ) == Set::<EdgeId>::empty() by {
                lemma_edges_zero(lowered, done, t, n);
                assert(followed(lowered, done, none, t) =~= Set::<EdgeId>::empty());
            }
            assert forall|t: int| 0 <= t < n implies #[trigger] self.block_ok(
                rank,
                done,
                none,
                ready@,
                t,
            ) by {
                assert(start.predecessor_counts@[t] == in_degree(lowered, t));
                assert(start.incoming@[t] is None);
                if waits(ready@, t) {
                    let i = choose|i: int| 0 <= i < ready@.len() && (#[trigger] ready@[i]).0 == t;
                }
            }
            assert(self.running(rank, done, none, ready@));
        }
        while ready.len() > 0
            invariant
                self.lowered == lowered,
                n == lowered.blocks@.len(),
                self.running(rank, done, None, ready@),
                done.finite(),
                block_info@.len() == n,
                forall|b: int| 0 <= b < n ==> (#[trigger] block_info@[b] is Some
                    <==> done.contains(b)),
                forall|b: int|
                    0 <= b < n && #[trigger] block_info@[b] is Some ==> self.analyzer.sound(
                        lowered,
                        result_site(Direction::Forward, lowered, b),
                        &block_info@[b].unwrap(),
                    ),
                forall|site: Site, state: TAnalyzer::Info| #[trigger]
                    self.analyzer.sound(lowered, site, &state) == start.analyzer.sound(
                        lowered,
                        site,
                        &state,
                    ),
                forall|place: Place|
                    start.analyzer.done(lowered, place) ==> #[trigger] self.analyzer.done(
                        lowered,
                        place,
                    ),
            decreases n - done.len(),
        {
            let ghost ready0 = ready@;
            let ghost before = *self;
            proof {
                lemma_queue_pop(ready0, n);
            }
            let block_id = ready.pop().unwrap();
            let ghost c = block_id.0 as int;
            let block = &lowered.blocks[block_id.0];
            proof {
                assert(ready@ == ready0.drop_last());
                before.lemma_all_arrived(rank, done, c, ready0);
                assert(before.block_ok(rank, done, None, ready0, c));
            }
            let mut info = self.incoming[block_id.0].take().unwrap();
            self.analyzer.visit_block_start(lowered, &mut info, block_id, block);
            self.analyzer.transfer_block(lowered, &mut info, block_id, block);
            proof {
                self.lemma_take_up(&before, rank, done, c, ready0);
            }
            self.propagate_to_successors(block_id, &info, &mut ready, Ghost(rank), Ghost(done));
            block_info[block_id.0] = Some(info);
            proof {
                vstd::set_lib::lemma_int_range(0, n);
                vstd::set_lib::lemma_len_subset(done.insert(c), vstd::set_lib::set_int_range(0, n));
                done = done.insert(c);
            }
        }
        proof {
            let visited = blocks_with_info(block_info@);
            let none: Option<EdgeId> = None;
            assert(visited =~= done);
            assert(self.block_ok(rank, done, none, ready@, 0));
            assert(visited == done);
            assert forall|t: int| 0 < t < n implies (#[trigger] done.contains(t) <==> in_degree(
                lowered,
                t,
            ) > 0 && forall|b: int| #[trigger] lowered.has_edge(b, t) ==> done.contains(b)) by {
                lemma_edges_full(lowered, done, t, n);
                assert(self.block_ok(rank, done, none, ready@, t));
                assert(!waits(ready@, t));
                assert(arrivals(lowered, done, none, t) == edges_into(lowered, done, t, n));
                assert forall|b: int| 0 <= b < n implies (#[trigger] edge_count(lowered, b, t) > 0
                    <==> lowered.has_edge(b, t)) by {
                    lemma_edge_count_positive(lowered, b, t);
                }
                if done.contains(t) {
                    assert(edges_into(lowered, done, t, n) == in_degree(lowered, t));
                    assert forall|b: int| #[trigger] lowered.has_edge(b, t) implies done.contains(
                        b,
                    ) by {
                        assert(edge_count(lowered, b, t) > 0);
                    }
                }
                if in_degree(lowered, t) > 0 && forall|b: int| #[trigger]
                    lowered.has_edge(b, t) ==> done.contains(b) {
                    assert forall|b: int|
                        0 <= b < n && #[trigger] edge_count(lowered, b, t) > 0
                            implies done.contains(
                        b,
                    ) by {
                        assert(lowered.has_edge(b, t));
                    }
                    assert(edges_into(lowered, done, t, n) == in_degree(lowered, t));
                }
            }
            assert(!waits(ready@, 0));
            assert forall|b: int| 0 <= b < n && block_info@[b] is Some implies self.analyzer.done(
                lowered,
                Place::Block(b),
            ) && forall|k: int|
                0 <= k < lowered.successors(b).len() ==> #[trigger] self.analyzer.done(
                    lowered,
                    Place::Edge((b, k)),
                ) by {
                assert(self.block_ok(rank, done, none, ready@, b));
            }
        }
        block_info
    }
}

/// Every block to which an edge leads from a block that control can reach
/// is entered only from blocks that control can reach.
pub open spec fn entered_from_reachable(lowered: &Lowered) -> bool {
    forall|b: int, t: int| #[trigger]
        lowered.has_edge(b, t) && lowered.reachable(t) ==> lowered.reachable(b)
}

proof fn lemma_visited_is_reachable(lowered: &Lowered, visited: Set<int>, rank: Seq<nat>, t: int)
    requires
        lowered.wf(),
        lowered.ranked_by(rank),
        forward_visits(lowered, visited),
        visited.contains(t),
    ensures
        lowered.reachable(t),
    decreases rank[t],
{
    if t == 0 {
        let path = seq![0int];
        assert(lowered.path_from_root(path) && path.last() == 0);
    } else {
        crate::analysis::edges::lemma_in_degree_positive(lowered, t);
        let b = choose|b: int| #[trigger] lowered.has_edge(b, t);
        lemma_visited_is_reachable(lowered, visited, rank, b);
        let before = choose|path: Seq<int>| #[trigger]
            lowered.path_from_root(path) && path.last() == b;
        let path = before.push(t);
        assert forall|i: int| 0 <= i < path.len() - 1 implies lowered.has_edge(
            #[trigger] path[i],
            path[i + 1],
        ) by {
            if i < before.len() - 1 {
                assert(lowered.has_edge(before[i], before[i + 1]));
            }
        }
        assert(lowered.path_from_root(path) && path.last() == t);
    }
}

proof fn lemma_reachable_is_visited(lowered: &Lowered, visited: Set<int>, rank: Seq<nat>, t: int)
    requires
        lowered.wf(),
        lowered.ranked_by(rank),
        forward_visits(lowered, visited),
        entered_from_reachable(lowered),
        lowered.reachable(t),
    ensures
        visited.contains(t),
    decreases rank[t],
{
    let path = choose|path: Seq<int>| #[trigger] lowered.path_from_root(path) && path.last() == t;
    if t != 0 {
        let i = path.len() - 2;
        assert(lowered.has_edge(path[i], path[i + 1]));
        assert(0 < t < lowered.blocks@.len());
        crate::analysis::edges::lemma_in_degree_positive(lowered, t);
        assert forall|b: int| #[trigger] lowered.has_edge(b, t) implies visited.contains(b) by {
            lemma_reachable_is_visited(lowered, visited, rank, b);
        }
    }
}

/// A forward run visits the blocks that control can reach from the entry
/// block, and no others, where no block that cannot be reached jumps into one that can.
pub proof fn lemma_forward_visits_reachable(lowered: &Lowered, visited: Set<int>)
    requires
        lowered.wf(),
        lowered.acyclic(),
        entered_from_reachable(lowered),
        forward_visits(lowered, visited),
    ensures
        forall|b: int| visited.contains(b) <==> lowered.reachable(b),
{
    let rank = choose|rank: Seq<nat>| lowered.ranked_by(rank);
    assert forall|b: int| visited.contains(b) <==> lowered.reachable(b) by {
        if visited.contains(b) {
            lemma_visited_is_reachable(lowered, visited, rank, b);
        }
        if lowered.reachable(b) {
            lemma_reachable_is_visited(lowered, visited, rank, b);
        }
    }
}

/// Without any condition on the blocks that cannot be reached: a forward run
/// visits only blocks that control can reach.
pub proof fn lemma_forward_visits_only_reachable(lowered: &Lowered, visited: Set<int>)
    requires
        lowered.wf(),
        lowered.acyclic(),
        forward_visits(lowered, visited),
    ensures
        forall|b: int| visited.contains(b) ==> lowered.reachable(b),
{
    let rank = choose|rank: Seq<nat>| lowered.ranked_by(rank);
    assert forall|b: int| visited.contains(b) implies lowered.reachable(b) by {
        lemma_visited_is_reachable(lowered, visited, rank, b);
    }
}

/// What a forward run visits is fixed by the function alone.
pub proof fn lemma_forward_visits_unique(lowered: &Lowered, first: Set<int>, second: Set<int>)
    requires
        lowered.wf(),
        lowered.acyclic(),
        forward_visits(lowered, first),
        forward_visits(lowered, second),
    ensures
        first == second,
{
    let rank = choose|rank: Seq<nat>| lowered.ranked_by(rank);
    assert forall|b: int| first.contains(b) == second.contains(b) by {
        lemma_visits_agree(lowered, first, second, rank, b);
    }
    assert(first =~= second);
}

proof fn lemma_visits_agree(
    lowered: &Lowered,
    first: Set<int>,
    second: Set<int>,
    rank: Seq<nat>,
    t: int,
)
    requires
        lowered.wf(),
        lowered.ranked_by(rank),
        forward_visits(lowered, first),
        forward_visits(lowered, second),
    ensures
        first.contains(t) == second.contains(t),
    decreases
            if 0 <= t < rank.len() {
                rank[t] + 1
            } else {
                0
            },
{
    if 0 < t < lowered.blocks@.len() {
        assert forall|b: int| #[trigger] lowered.has_edge(b, t) implies first.contains(b)
            == second.contains(b) by {
            lemma_visits_agree(lowered, first, second, rank, b);
        }
    }
}

/// Among the first `upto` blocks no more edges lead to `target` than among all.
proof fn lemma_edges_upto(lowered: &Lowered, target: int, upto: int)
    requires
        upto <= lowered.blocks@.len(),
    ensures
        edges_into(lowered, Set::full(), target, upto) <= in_degree(lowered, target),
    decreases lowered.blocks@.len() - upto,
{
    if upto < lowered.blocks@.len() {
        lemma_edges_upto(lowered, target, upto + 1);
    }
}

} // verus!
