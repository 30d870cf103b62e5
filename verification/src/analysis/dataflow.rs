//! The contract between an analysis and the drivers that run it.
//!
//! An analysis computes a state for places of a function. The drivers do not
//! know what a state means; they know at which place each state holds, and an
//! analyzer says, through `sound`, which states it accepts at which place.
//! Each callback takes states that are sound where the driver got them and
//! gives back states that are sound where the driver puts them.

use crate::ir::{
    Block, BlockEnd, BlockId, Lowered, MatchArm, MatchInfo, Statement, StatementLocation,
    VarRemapping,
};
use vstd::prelude::*;

verus! {

/// The way in which an analysis moves through the control-flow graph.
#[derive(Clone, Copy, Debug, PartialEq, Eq, Structural)]
pub enum Direction {
    /// From the entry block along the edges.
    Forward,
    /// From the blocks without successors against the edges.
    Backward,
}

/// An edge of the control-flow graph, as a callback sees it.
pub enum Edge<'a> {
    Goto { target: BlockId, remapping: &'a VarRemapping },
    MatchArm { arm: &'a MatchArm, match_info: &'a MatchInfo },
}

impl<'a> Edge<'a> {
    /// The block that the edge leads to.
    pub open spec fn spec_target(&self) -> BlockId {
        match *self {
            Edge::Goto { target, remapping } => target,
            Edge::MatchArm { arm, match_info } => arm.block_id,
        }
    }

    /// The block that the edge leads to.
    pub fn target(&self) -> (r: BlockId)
        ensures
            r == self.spec_target(),
    {
        match self {
            Edge::Goto { target, remapping } => *target,
            Edge::MatchArm { arm, match_info } => arm.block_id,
        }
    }

    /// This is edge number `k` out of block `src` of `lowered`.
    pub open spec fn leaves(&self, lowered: &Lowered, src: int, k: int) -> bool {
        &&& 0 <= src < lowered.blocks@.len()
        &&& match *self {
            Edge::Goto { target, remapping } => k == 0 && lowered.blocks@[src].end
                == BlockEnd::Goto(target, *remapping),
            Edge::MatchArm { arm, match_info } => 0 <= k < match_info.spec_arms().len()
                && match_info.spec_arms()[k] == *arm && lowered.blocks@[src].end == (
            BlockEnd::Match { info: *match_info }),
        }
    }
}

/// An edge, named by its source block and its number among the edges that
/// leave that block.
pub type EdgeId = (int, int);

/// A place of a function at which a state holds.
pub enum Site {
    /// The side of `block` at which edges meet (its entry in a forward
    /// analysis, its end in a backward one), with what comes along `edges`
    /// taken in and nothing else.
    Join { block: int, edges: Set<EdgeId> },
    /// Just before statement `index` of `block`.
    Point { block: int, index: int },
}

/// A piece of work that an analysis has done on a function.
pub enum Place {
    /// The block has been gone through.
    Block(int),
    /// The state has been taken across the edge.
    Edge(EdgeId),
}

/// Whether `e` is an edge of `lowered`.
pub open spec fn is_edge(lowered: &Lowered, e: EdgeId) -> bool {
    0 <= e.0 < lowered.blocks@.len() && 0 <= e.1 < lowered.successors(e.0).len()
}

/// The block that the edge `e` leads to.
pub open spec fn edge_target(lowered: &Lowered, e: EdgeId) -> int {
    lowered.successors(e.0)[e.1].0 as int
}

/// The edges that lead to `block`.
pub open spec fn in_edges(lowered: &Lowered, block: int) -> Set<EdgeId> {
    Set::new(|e: EdgeId| is_edge(lowered, e) && edge_target(lowered, e) == block)
}

/// The edges that leave `block`.
pub open spec fn out_edges(lowered: &Lowered, block: int) -> Set<EdgeId> {
    Set::new(|e: EdgeId| is_edge(lowered, e) && e.0 == block)
}

/// The place at which the analysis of `block` starts: where all its edges
/// have met. The entry block of a forward analysis starts from no edge.
pub open spec fn start_site(direction: Direction, lowered: &Lowered, block: int) -> Site {
    match direction {
        Direction::Forward => Site::Join {
            block,
            edges: if block == 0 {
                Set::empty()
            } else {
                in_edges(lowered, block)
            },
        },
        Direction::Backward => Site::Join { block, edges: out_edges(lowered, block) },
    }
}

/// The place just before statement `index` of `block`; the place where the
/// analysis of the block starts is the join of its edges.
pub open spec fn point_site(
    direction: Direction,
    lowered: &Lowered,
    block: int,
    index: int,
) -> Site {
    let first = match direction {
        Direction::Forward => 0,
        Direction::Backward => lowered.blocks@[block].statements@.len() as int,
    };
    if index == first {
        start_site(direction, lowered, block)
    } else {
        Site::Point { block, index }
    }
}

/// The place at which the analysis of `block` ends, and whose state is the
/// block's result.
pub open spec fn result_site(direction: Direction, lowered: &Lowered, block: int) -> Site {
    match direction {
        Direction::Forward => point_site(
            direction,
            lowered,
            block,
            lowered.blocks@[block].statements@.len() as int,
        ),
        Direction::Backward => point_site(direction, lowered, block, 0),
    }
}

/// The place whose state crosses the edge `e`.
pub open spec fn edge_from(direction: Direction, lowered: &Lowered, e: EdgeId) -> Site {
    match direction {
        Direction::Forward => result_site(direction, lowered, e.0),
        Direction::Backward => result_site(direction, lowered, edge_target(lowered, e)),
    }
}

/// The place at which the state that crossed the edge `e` arrives.
pub open spec fn edge_to(direction: Direction, lowered: &Lowered, e: EdgeId) -> Site {
    match direction {
        Direction::Forward => Site::Join { block: edge_target(lowered, e), edges: set![e] },
        Direction::Backward => Site::Join { block: e.0, edges: set![e] },
    }
}

/// An analysis, as the drivers see it.
pub trait DataflowAnalyzer: Sized {
    /// The state that the analysis computes.
    type Info;

    /// The direction in which the analysis has to be run.
    const DIRECTION: Direction;

    /// What the analyzer keeps true of itself from one callback to the
    /// next. An analyzer that says nothing keeps nothing.
    open spec fn inv(&self, lowered: &Lowered) -> bool {
        true
    }

    /// Whether the analysis accepts the state `info` at `site`. An analyzer
    /// that says nothing accepts every state everywhere.
    open spec fn sound(&self, lowered: &Lowered, site: Site, info: &Self::Info) -> bool {
        true
    }

    /// What the analyzer has to show for a piece of work once it is done,
    /// and keeps from then on. An analyzer that says nothing has nothing to show.
    open spec fn done(&self, lowered: &Lowered, place: Place) -> bool {
        true
    }

    /// Whether the analyzer has not yet had to do with `block`. A block
    /// is gone through only while this holds of it, and until then no
    /// callback for another block ends it: forward no callback but
    /// `transfer_block` and `transfer_stmt` for the block itself, backward
    /// also `transfer_edge` for an edge into it. An analyzer that says
    /// nothing has never had to do with any block.
    open spec fn untouched(&self, lowered: &Lowered, block: int) -> bool {
        true
    }

    /// The state from which the analysis starts at a block where no edge
    /// arrives: the entry block, forward; a block without successors, backward.
    fn initial_info(&mut self, lowered: &Lowered, block_id: BlockId, block_end: &BlockEnd) -> (info:
        Self::Info)
        requires
            old(self).inv(lowered),
            lowered.wf(),
            block_id.0 < lowered.blocks@.len(),
            *block_end == lowered.blocks@[block_id.0 as int].end,
            Self::DIRECTION is Forward ==> block_id.0 == 0,
            Self::DIRECTION is Backward ==> block_end.successors().len() == 0,
        ensures
            final(self).inv(lowered),
            forall|site: Site, state: Self::Info| #[trigger]
                final(self).sound(lowered, site, &state) == old(self).sound(lowered, site, &state),
            forall|place: Place|
                old(self).done(lowered, place) ==> #[trigger] final(self).done(lowered, place),
            forall|b: int|
                old(self).untouched(lowered, b) ==> #[trigger] final(self).untouched(lowered, b),
            final(self).sound(
                lowered,
                Site::Join { block: block_id.0 as int, edges: Set::empty() },
                &info,
            ),
    ;

    /// Joins two states that arrive at the same side of the block
    /// `statement_location.0` along different sets of edges. Forward,
    /// states never meet at the entry block, and the two sets have no edge
    /// in common; backward, states meet only at the end of a match with
    /// more than one arm.
    fn merge(
        &mut self,
        lowered: &Lowered,
        statement_location: StatementLocation,
        info1: Self::Info,
        info2: Self::Info,
    ) -> (info: Self::Info)
        requires
            old(self).inv(lowered),
            lowered.wf(),
            statement_location.0.0 < lowered.blocks@.len(),
            Self::DIRECTION is Forward ==> statement_location.0.0 != 0,
            Self::DIRECTION is Backward ==> lowered.blocks@[statement_location.0.0 as int].end
                is Match && lowered.successors(statement_location.0.0 as int).len() >= 2,
            exists|edges1: Set<EdgeId>, edges2: Set<EdgeId>|
                #![trigger edges1.union(edges2)]
                old(self).sound(
                    lowered,
                    Site::Join { block: statement_location.0.0 as int, edges: edges1 },
                    &info1,
                ) && old(self).sound(
                    lowered,
                    Site::Join { block: statement_location.0.0 as int, edges: edges2 },
                    &info2,
                ) && (Self::DIRECTION is Forward ==> edges1.disjoint(edges2)),
        ensures
            final(self).inv(lowered),
            forall|site: Site, state: Self::Info| #[trigger]
                final(self).sound(lowered, site, &state) == old(self).sound(lowered, site, &state),
            forall|place: Place|
                old(self).done(lowered, place) ==> #[trigger] final(self).done(lowered, place),
            forall|b: int|
                old(self).untouched(lowered, b) ==> #[trigger] final(self).untouched(lowered, b),
            forall|edges1: Set<EdgeId>, edges2: Set<EdgeId>|
                #![trigger edges1.union(edges2)]
                old(self).sound(
                    lowered,
                    Site::Join { block: statement_location.0.0 as int, edges: edges1 },
                    &info1,
                ) && old(self).sound(
                    lowered,
                    Site::Join { block: statement_location.0.0 as int, edges: edges2 },
                    &info2,
                ) && (Self::DIRECTION is Forward ==> edges1.disjoint(edges2)) ==> final(self).sound(
                    lowered,
                    Site::Join {
                        block: statement_location.0.0 as int,
                        edges: edges1.union(edges2),
                    },
                    &info,
                ),
    ;

    /// Takes the state across the statement at `statement_location`: forward,
    /// from before it to after it; backward, from after it to before it.
    fn transfer_stmt(
        &mut self,
        lowered: &Lowered,
        info: &mut Self::Info,
        statement_location: StatementLocation,
        stmt: &Statement,
    )
        requires
            old(self).inv(lowered),
            lowered.wf(),
            statement_location.0.0 < lowered.blocks@.len(),
            statement_location.1 < lowered.blocks@[statement_location.0.0 as int].statements@.len(),
            *stmt == lowered.blocks@[statement_location.0.0 as int].statements@[statement_location.1 as int
            ],
            old(self).sound(
                lowered,
                point_site(
                    Self::DIRECTION,
                    lowered,
                    statement_location.0.0 as int,
                    stmt_from(Self::DIRECTION, statement_location.1 as int),
                ),
                old(info),
            ),
        ensures
            final(self).inv(lowered),
            forall|site: Site, state: Self::Info| #[trigger]
                final(self).sound(lowered, site, &state) == old(self).sound(lowered, site, &state),
            forall|place: Place|
                old(self).done(lowered, place) ==> #[trigger] final(self).done(lowered, place),
            forall|b: int|
                b != statement_location.0.0 && old(self).untouched(lowered, b)
                    ==> #[trigger] final(self).untouched(lowered, b),
            final(self).sound(
                lowered,
                point_site(
                    Self::DIRECTION,
                    lowered,
                    statement_location.0.0 as int,
                    stmt_to(Self::DIRECTION, statement_location.1 as int),
                ),
                final(info),
            ),
    ;

    /// Takes the state through the whole block, from the side where its
    /// edges have met to the other side. `transfer_statements` does so
    /// statement by statement.
    fn transfer_block(
        &mut self,
        lowered: &Lowered,
        info: &mut Self::Info,
        block_id: BlockId,
        block: &Block,
    )
        requires
            old(self).inv(lowered),
            lowered.wf(),
            block_id.0 < lowered.blocks@.len(),
            *block == lowered.blocks@[block_id.0 as int],
            old(self).sound(
                lowered,
                start_site(Self::DIRECTION, lowered, block_id.0 as int),
                old(info),
            ),
            old(self).untouched(lowered, block_id.0 as int),
        ensures
            final(self).inv(lowered),
            forall|site: Site, state: Self::Info| #[trigger]
                final(self).sound(lowered, site, &state) == old(self).sound(lowered, site, &state),
            forall|place: Place|
                old(self).done(lowered, place) ==> #[trigger] final(self).done(lowered, place),
            forall|b: int|
                b != block_id.0 && old(self).untouched(lowered, b)
                    ==> #[trigger] final(self).untouched(lowered, b),
            final(self).sound(
                lowered,
                result_site(Self::DIRECTION, lowered, block_id.0 as int),
                final(info),
            ),
            final(self).done(lowered, Place::Block(block_id.0 as int)),
    ;

    /// Takes the state that is the result of one block across an edge, to
    /// the block at the other end.
    fn transfer_edge(&mut self, lowered: &Lowered, info: &Self::Info, edge: &Edge) -> (crossed:
        Self::Info)
        requires
            old(self).inv(lowered),
            lowered.wf(),
            exists|e: EdgeId|
                edge.leaves(lowered, e.0, e.1) && #[trigger] old(self).sound(
                    lowered,
                    edge_from(Self::DIRECTION, lowered, e),
                    info,
                ),
        ensures
            final(self).inv(lowered),
            forall|site: Site, state: Self::Info| #[trigger]
                final(self).sound(lowered, site, &state) == old(self).sound(lowered, site, &state),
            forall|place: Place|
                old(self).done(lowered, place) ==> #[trigger] final(self).done(lowered, place),
            forall|b: int|
                (Self::DIRECTION is Backward ==> b != edge.spec_target().0) && old(self).untouched(
                    lowered,
                    b,
                ) ==> #[trigger] final(self).untouched(lowered, b),
            forall|e: EdgeId|
                edge.leaves(lowered, e.0, e.1) && #[trigger] old(self).sound(
                    lowered,
                    edge_from(Self::DIRECTION, lowered, e),
                    info,
                ) ==> final(self).sound(lowered, edge_to(Self::DIRECTION, lowered, e), &crossed)
                    && final(self).done(lowered, Place::Edge(e)),
    ;

    /// Called by the forward driver on the state with which a block is
    /// entered, before the block is gone through.
    fn visit_block_start(
        &mut self,
        lowered: &Lowered,
        info: &mut Self::Info,
        block_id: BlockId,
        block: &Block,
    )
        requires
            old(self).inv(lowered),
            lowered.wf(),
            block_id.0 < lowered.blocks@.len(),
            *block == lowered.blocks@[block_id.0 as int],
            old(self).sound(
                lowered,
                start_site(Self::DIRECTION, lowered, block_id.0 as int),
                old(info),
            ),
        ensures
            final(self).inv(lowered),
            forall|site: Site, state: Self::Info| #[trigger]
                final(self).sound(lowered, site, &state) == old(self).sound(lowered, site, &state),
            forall|place: Place|
                old(self).done(lowered, place) ==> #[trigger] final(self).done(lowered, place),
            forall|b: int|
                old(self).untouched(lowered, b) ==> #[trigger] final(self).untouched(lowered, b),
            final(self).sound(
                lowered,
                start_site(Self::DIRECTION, lowered, block_id.0 as int),
                final(info),
            ),
    {
    }
}

/// Takes the state through a block statement by statement, in the order of
/// the direction: what an analyzer's `transfer_block` does where the
/// analyzer has nothing to do for the block as a whole.
pub fn transfer_statements<A: DataflowAnalyzer>(
    analyzer: &mut A,
    lowered: &Lowered,
    info: &mut A::Info,
    block_id: BlockId,
    block: &Block,
)
    requires
        old(analyzer).inv(lowered),
        lowered.wf(),
        block_id.0 < lowered.blocks@.len(),
        *block == lowered.blocks@[block_id.0 as int],
        old(analyzer).sound(
            lowered,
            start_site(A::DIRECTION, lowered, block_id.0 as int),
            old(info),
        ),
    ensures
        final(analyzer).inv(lowered),
        forall|site: Site, state: A::Info| #[trigger]
            final(analyzer).sound(lowered, site, &state) == old(analyzer).sound(
                lowered,
                site,
                &state,
            ),
        forall|place: Place|
            old(analyzer).done(lowered, place) ==> #[trigger] final(analyzer).done(lowered, place),
        forall|x: int|
            x != block_id.0 && old(analyzer).untouched(lowered, x)
                ==> #[trigger] final(analyzer).untouched(lowered, x),
        final(analyzer).sound(
            lowered,
            result_site(A::DIRECTION, lowered, block_id.0 as int),
            final(info),
        ),
{
    let n = block.statements.len();
    let ghost b = block_id.0 as int;
    let ghost start = *analyzer;
    match A::DIRECTION {
        Direction::Forward => {
            let mut i: usize = 0;
            while i < n
                invariant
                    i <= n,
                    n == block.statements@.len(),
                    b == block_id.0,
                    A::DIRECTION is Forward,
                    analyzer.inv(lowered),
                    lowered.wf(),
                    block_id.0 < lowered.blocks@.len(),
                    *block == lowered.blocks@[b],
                    forall|site: Site, state: A::Info| #[trigger]
                        analyzer.sound(lowered, site, &state) == start.sound(
                            lowered,
                            site,
                            &state,
                        ),
                    forall|place: Place|
                        start.done(lowered, place) ==> #[trigger] analyzer.done(lowered, place),
                    forall|x: int|
                        x != block_id.0 && start.untouched(lowered, x)
                            ==> #[trigger] analyzer.untouched(lowered, x),
                    analyzer.sound(lowered, point_site(A::DIRECTION, lowered, b, i as int), info),
                decreases n - i,
            {
                analyzer.transfer_stmt(lowered, info, (block_id, i), &block.statements[i]);
                i += 1;
            }
        },
        Direction::Backward => {
            let mut i: usize = n;
            while i > 0
                invariant
                    i <= n,
                    n == block.statements@.len(),
                    b == block_id.0,
                    A::DIRECTION is Backward,
                    analyzer.inv(lowered),
                    lowered.wf(),
                    block_id.0 < lowered.blocks@.len(),
                    *block == lowered.blocks@[b],
                    forall|site: Site, state: A::Info| #[trigger]
                        analyzer.sound(lowered, site, &state) == start.sound(
                            lowered,
                            site,
                            &state,
                        ),
                    forall|place: Place|
                        start.done(lowered, place) ==> #[trigger] analyzer.done(lowered, place),
                    forall|x: int|
                        x != block_id.0 && start.untouched(lowered, x)
                            ==> #[trigger] analyzer.untouched(lowered, x),
                    analyzer.sound(lowered, point_site(A::DIRECTION, lowered, b, i as int), info),
                decreases i,
            {
                i -= 1;
                analyzer.transfer_stmt(lowered, info, (block_id, i), &block.statements[i]);
            }
        },
    }
}

/// The index of the place from which the statement `index` is crossed.
pub open spec fn stmt_from(direction: Direction, index: int) -> int {
    match direction {
        Direction::Forward => index,
        Direction::Backward => index + 1,
    }
}

/// The index of the place that crossing the statement `index` leads to.
pub open spec fn stmt_to(direction: Direction, index: int) -> int {
    match direction {
        Direction::Forward => index + 1,
        Direction::Backward => index,
    }
}

} // verus!
