//! Early termination: where neither a return nor a call with a visible
//! effect can be reached any more, the rest of the block is replaced by a
//! trap, a match on an extern function that never returns.

use crate::analysis::backward::{lemma_backward_visits_all, DataflowBackAnalysis};
use crate::analysis::dataflow::{
    edge_target, is_edge, out_edges, point_site, DataflowAnalyzer, Direction, Edge, EdgeId, Place,
    Site,
};
use crate::analysis::worklist::blocks_with_info;
use crate::ir::{
    Block, BlockEnd, BlockId, ExternFunctionId, FunctionId, LocationId, Lowered, MatchExternInfo,
    MatchInfo, Statement, StatementLocation,
};
use std::collections::HashSet;
use vstd::prelude::*;

verus! {

broadcast use vstd::std_specs::hash::group_hash_axioms;

/// Whether a return or a statement with a visible effect can still be reached.
#[derive(Clone, Copy, Debug, PartialEq, Eq, Structural)]
pub enum ReachableSideEffects {
    /// A return or a statement with a visible effect can be reached.
    Reachable,
    /// Neither can be reached. The location is that of the nearest match
    /// none of whose arms leads to one.
    Unreachable(LocationId),
}

impl Default for ReachableSideEffects {
    fn default() -> (r: ReachableSideEffects)
        ensures
            r == ReachableSideEffects::Reachable,
    {
        ReachableSideEffects::Reachable
    }
}

/// Whether `stmt` is a call of one of the extern functions `effects`.
pub open spec fn has_effect(effects: Set<u64>, stmt: &Statement) -> bool {
    match *stmt {
        Statement::Call(call) => call.function.extern_function is Some && effects.contains(
            call.function.extern_function.unwrap().0,
        ),
        _ => false,
    }
}

/// Whether control leaves the function at `end`.
pub open spec fn leaves_function(end: &BlockEnd) -> bool {
    *end is Return || *end is Panic
}

/// Whether one of the statements of `block` from `index` on has a visible effect.
pub open spec fn effect_ahead(
    effects: Set<u64>, lowered: &Lowered, block: int, index: int) -> bool {
    exists|i: int|
        index <= i < lowered.blocks@[block].statements@.len() && has_effect(
            effects,
            #[trigger] &lowered.blocks@[block].statements@[i],
        )
}

/// Whether from just before statement `index` of `block` a statement with a
/// visible effect or the end of the function can be reached across at most
/// `steps` edges.
pub open spec fn live_within(
    effects: Set<u64>,
    lowered: &Lowered,
    block: int,
    index: int,
    steps: nat,
) -> bool
    decreases steps,
{
    ||| effect_ahead(effects, lowered, block, index)
    ||| leaves_function(&lowered.blocks@[block].end)
    ||| steps > 0 && exists|k: int|
        0 <= k < lowered.successors(block).len() && live_within(
            effects,
            lowered,
            #[trigger] lowered.successors(block)[k].0 as int,
            0,
            (steps - 1) as nat,
        )
}

/// Whether from just before statement `index` of `block` a statement with a
/// visible effect or the end of the function can be reached.
pub open spec fn live(effects: Set<u64>, lowered: &Lowered, block: int, index: int) -> bool {
    exists|steps: nat| live_within(effects, lowered, block, index, steps)
}

/// Just before a statement, something can be reached if the statement has a
/// visible effect or something can be reached after it.
pub proof fn lemma_live_statement(effects: Set<u64>, lowered: &Lowered, block: int, index: int)
    requires
        0 <= index < lowered.blocks@[block].statements@.len(),
    ensures
        live(effects, lowered, block, index) <==> has_effect(
            effects,
            &lowered.blocks@[block].statements@[index],
        ) || live(effects, lowered, block, index + 1),
{
    let stmts = lowered.blocks@[block].statements@;
    assert(effect_ahead(effects, lowered, block, index) <==> has_effect(effects, &stmts[index])
        || effect_ahead(effects, lowered, block, index + 1)) by {
        if effect_ahead(effects, lowered, block, index) {
            let i = choose|i: int|
                index <= i < stmts.len() && has_effect(
                    effects,
                    #[trigger] &lowered.blocks@[block].statements@[i],
                );
            if i != index {
                assert(has_effect(effects, &lowered.blocks@[block].statements@[i]));
            }
        }
        if has_effect(effects, &stmts[index]) {
            assert(has_effect(effects, &lowered.blocks@[block].statements@[index]));
        }
    }
    if live(effects, lowered, block, index) {
        let steps = choose|steps: nat| live_within(effects, lowered, block, index, steps);
        if !has_effect(effects, &stmts[index]) {
            assert(live_within(effects, lowered, block, index + 1, steps));
        }
    }
    let next = index + 1;
    if live(effects, lowered, block, next) {
        let steps = choose|steps: nat| live_within(effects, lowered, block, next, steps);
        assert(live_within(effects, lowered, block, index, steps));
    }
    if has_effect(effects, &stmts[index]) {
        assert(live_within(effects, lowered, block, index, 0));
    }
}

/// At the end of a block, something can be reached if control leaves the
/// function there or something can be reached from a successor.
pub proof fn lemma_live_end(effects: Set<u64>, lowered: &Lowered, block: int)
    ensures
        live(effects, lowered, block, lowered.blocks@[block].statements@.len() as int)
            <==> leaves_function(&lowered.blocks@[block].end) || exists|k: int|
            0 <= k < lowered.successors(block).len() && live(
                effects,
                lowered,
                #[trigger] lowered.successors(block)[k].0 as int,
                0,
            ),
{
    let n = lowered.blocks@[block].statements@.len() as int;
    assert(!effect_ahead(effects, lowered, block, n));
    if live(effects, lowered, block, n) && !leaves_function(&lowered.blocks@[block].end) {
        let steps = choose|steps: nat| live_within(effects, lowered, block, n, steps);
        let k = choose|k: int|
            0 <= k < lowered.successors(block).len() && live_within(
                effects,
                lowered,
                #[trigger] lowered.successors(block)[k].0 as int,
                0,
                (steps - 1) as nat,
            );
        assert(live(effects, lowered, lowered.successors(block)[k].0 as int, 0));
    }
    if leaves_function(&lowered.blocks@[block].end) {
        assert(live_within(effects, lowered, block, n, 0));
    }
    if exists|k: int|
        0 <= k < lowered.successors(block).len() && live(
            effects,
            lowered,
            #[trigger] lowered.successors(block)[k].0 as int,
            0,
        ) {
        let k = choose|k: int|
            0 <= k < lowered.successors(block).len() && live(
                effects,
                lowered,
                #[trigger] lowered.successors(block)[k].0 as int,
                0,
            );
        let steps = choose|steps: nat|
            live_within(effects, lowered, lowered.successors(block)[k].0 as int, 0, steps);
        assert(live_within(effects, lowered, block, n, steps + 1));
    }
}

/// Whether something can be reached across one of `edges` out of `block`,
/// or control leaves the function at the end of `block`.
pub open spec fn live_across(
    effects: Set<u64>,
    lowered: &Lowered,
    block: int,
    edges: Set<EdgeId>,
) -> bool {
    leaves_function(&lowered.blocks@[block].end) || exists|e: EdgeId|
        edges.contains(e) && is_edge(lowered, e) && e.0 == block && live(
            effects,
            lowered,
            #[trigger] edge_target(lowered, e),
            0,
        )
}

/// The state `info` says whether something can be reached from `site`.
pub open spec fn tells_live(
    effects: Set<u64>,
    lowered: &Lowered,
    site: Site,
    info: &ReachableSideEffects,
) -> bool {
    match site {
        Site::Join { block, edges } => *info is Reachable <==> live_across(
            effects,
            lowered,
            block,
            edges,
        ),
        Site::Point { block, index } => *info is Reachable
            <==> live(effects, lowered, block, index),
    }
}

/// At every place of a block, a state is accepted exactly if it says
/// whether something can be reached from there.
pub proof fn lemma_tells_live_at(
    effects: Set<u64>,
    lowered: &Lowered,
    block: int,
    index: int,
    info: &ReachableSideEffects,
)
    requires
        0 <= block < lowered.blocks@.len(),
        0 <= index <= lowered.blocks@[block].statements@.len(),
    ensures
        tells_live(effects, lowered, point_site(Direction::Backward, lowered, block, index), info)
            <==> (*info is Reachable <==> live(effects, lowered, block, index)),
{
    let n = lowered.blocks@[block].statements@.len() as int;
    if index == n {
        lemma_live_end(effects, lowered, block);
        let all = out_edges(lowered, block);
        if live_across(effects, lowered, block, all) && !leaves_function(
            &lowered.blocks@[block].end,
        ) {
            let e = choose|e: EdgeId|
                all.contains(e) && is_edge(lowered, e) && e.0 == block && live(
                    effects,
                    lowered,
                    #[trigger] edge_target(lowered, e),
                    0,
                );
            assert(live(effects, lowered, lowered.successors(block)[e.1].0 as int, 0));
        }
        if live(effects, lowered, block, n) && !leaves_function(&lowered.blocks@[block].end) {
            let k = choose|k: int|
                0 <= k < lowered.successors(block).len() && live(
                    effects,
                    lowered,
                    #[trigger] lowered.successors(block)[k].0 as int,
                    0,
                );
            let e = (block, k);
            assert(all.contains(e) && live(effects, lowered, edge_target(lowered, e), 0));
        }
    }
}

/// The location of the nearest match that leads nowhere, seen from a
/// block from which nothing can be reached, where it is found across at
/// most `steps` edges: a block with a single edge out has it from the
/// block that the edge leads to, any other block has the location of its
/// own end.
pub open spec fn trap_source_within(lowered: &Lowered, block: int, steps: nat) -> Option<
    LocationId,
>
    decreases steps,
{
    if lowered.successors(block).len() == 1 {
        if steps == 0 {
            None
        } else {
            trap_source_within(lowered, lowered.successors(block)[0].0 as int, (steps - 1) as nat)
        }
    } else {
        lowered.blocks@[block].end.spec_location()
    }
}

/// Whether `location` is the location of the nearest match that leads
/// nowhere, seen from `block`: the location that a state carries through a
/// block from which nothing can be reached.
pub open spec fn trap_source(lowered: &Lowered, block: int, location: LocationId) -> bool {
    exists|steps: nat| trap_source_within(lowered, block, steps) == Some(location)
}

/// The index of the last of the first `upto` statements that has a
/// visible effect; -1 where none has.
pub open spec fn last_effect(effects: Set<u64>, statements: Seq<Statement>, upto: int) -> int
    decreases upto,
{
    if upto <= 0 {
        -1
    } else if has_effect(effects, &statements[upto - 1]) {
        upto - 1
    } else {
        last_effect(effects, statements, upto - 1)
    }
}

/// Where none of the statements from `from` up to `upto` has a visible
/// effect, the last one that has is among the first `from`.
proof fn lemma_last_effect_skip(effects: Set<u64>, statements: Seq<Statement>, from: int, upto: int)
    requires
        0 <= from <= upto,
        forall|j: int| from <= j < upto ==> !has_effect(effects, #[trigger] &statements[j]),
    ensures
        last_effect(effects, statements, upto) == last_effect(effects, statements, from),
    decreases upto - from,
{
    if from < upto {
        assert(!has_effect(effects, &statements[upto - 1]));
        lemma_last_effect_skip(effects, statements, from, upto - 1);
    }
}

/// The places that going back over one statement records: where nothing
/// can be reached after a statement with a visible effect, the place
/// right after it, with the location that the state carries.
pub open spec fn stmt_fixes(
    effects: Set<u64>,
    statement_location: StatementLocation,
    stmt: &Statement,
    info: ReachableSideEffects,
) -> Seq<(StatementLocation, LocationId)> {
    match info {
        ReachableSideEffects::Unreachable(location) => if has_effect(effects, stmt) {
            seq![((statement_location.0, (statement_location.1 + 1) as usize), location)]
        } else {
            Seq::empty()
        },
        ReachableSideEffects::Reachable => Seq::empty(),
    }
}

/// The places that going back through the block `block_id` records, in
/// order. Where something can be reached from its end, none. Else the
/// place of the match at its end, if it ends in one, with the location of
/// that match; then the place right after its last statement with a
/// visible effect, if it has one, with the location that the state carries.
pub open spec fn block_fixes(
    effects: Set<u64>,
    lowered: &Lowered,
    block_id: BlockId,
    info: ReachableSideEffects,
) -> Seq<(StatementLocation, LocationId)> {
    let block = lowered.blocks@[block_id.0 as int];
    let last = last_effect(effects, block.statements@, block.statements@.len() as int);
    match info {
        ReachableSideEffects::Reachable => Seq::empty(),
        ReachableSideEffects::Unreachable(location) => (if block.end is Match {
            seq![((block_id, block.statements@.len() as usize), block.end.spec_location().unwrap())]
        } else {
            Seq::empty()
        }) + (if last >= 0 {
            seq![((block_id, (last + 1) as usize), location)]
        } else {
            Seq::empty()
        }),
    }
}

/// The state at the start of a block, from the state `info` at its end:
/// something can be reached from the start if it can from the end or a
/// statement of the block has a visible effect.
pub open spec fn block_entry(
    effects: Set<u64>,
    lowered: &Lowered,
    block_id: BlockId,
    info: ReachableSideEffects,
) -> ReachableSideEffects {
    let block = lowered.blocks@[block_id.0 as int];
    if last_effect(effects, block.statements@, block.statements@.len() as int) >= 0 {
        ReachableSideEffects::Reachable
    } else {
        info
    }
}

/// The places that taking a state back across `edge` records: where
/// nothing can be reached from the block to which an arm of a match
/// leads, the start of that block, with the location that the state carries.
pub open spec fn edge_fixes(edge: &Edge, info: ReachableSideEffects) -> Seq<
    (StatementLocation, LocationId),
> {
    match info {
        ReachableSideEffects::Unreachable(location) => if *edge is MatchArm {
            seq![((edge.spec_target(), 0usize), location)]
        } else {
            Seq::empty()
        },
        ReachableSideEffects::Reachable => Seq::empty(),
    }
}

/// Whether a trap put into `block` may carry `location`: it is the
/// location of the nearest match that leads nowhere, or that of the match
/// at the end of the block itself.
pub open spec fn may_carry(lowered: &Lowered, block: int, location: LocationId) -> bool {
    trap_source(lowered, block, location) || (lowered.blocks@[block].end is Match
        && lowered.blocks@[block].end.spec_location() == Some(location))
}

/// What is found across some edges is found across more.
proof fn lemma_source_within_more(lowered: &Lowered, block: int, steps: nat, more: nat)
    requires
        trap_source_within(lowered, block, steps) is Some,
        steps <= more,
    ensures
        trap_source_within(lowered, block, more) == trap_source_within(lowered, block, steps),
    decreases steps,
{
    if lowered.successors(block).len() == 1 {
        lemma_source_within_more(
            lowered,
            lowered.successors(block)[0].0 as int,
            (steps - 1) as nat,
            (more - 1) as nat,
        );
    }
}

/// A block sees at most one nearest match that leads nowhere.
pub proof fn lemma_trap_source_unique(
    lowered: &Lowered,
    block: int,
    first: LocationId,
    second: LocationId,
)
    requires
        trap_source(lowered, block, first),
        trap_source(lowered, block, second),
    ensures
        first == second,
{
    let s1 = choose|steps: nat| trap_source_within(lowered, block, steps) == Some(first);
    let s2 = choose|steps: nat| trap_source_within(lowered, block, steps) == Some(second);
    if s1 <= s2 {
        lemma_source_within_more(lowered, block, s1, s2);
    } else {
        lemma_source_within_more(lowered, block, s2, s1);
    }
}

/// A block with a single edge out sees the match that the block at the end
/// of the edge sees; any other block sees its own end.
pub proof fn lemma_trap_source_step(lowered: &Lowered, block: int, location: LocationId)
    ensures
        trap_source(lowered, block, location) <==> if lowered.successors(block).len() == 1 {
            trap_source(lowered, lowered.successors(block)[0].0 as int, location)
        } else {
            lowered.blocks@[block].end.spec_location() == Some(location)
        },
{
    if lowered.successors(block).len() == 1 {
        let next = lowered.successors(block)[0].0 as int;
        if trap_source(lowered, block, location) {
            let steps = choose|steps: nat|
                trap_source_within(lowered, block, steps) == Some(location);
            assert(trap_source_within(lowered, next, (steps - 1) as nat) == Some(location));
        }
        if trap_source(lowered, next, location) {
            let steps = choose|steps: nat|
                trap_source_within(lowered, next, steps) == Some(location);
            assert(trap_source_within(lowered, block, steps + 1) == Some(location));
        }
    } else {
        if lowered.blocks@[block].end.spec_location() == Some(location) {
            assert(trap_source_within(lowered, block, 0) == Some(location));
        }
    }
}

/// The state `info`, where it says that nothing can be reached, carries
/// the location that belongs to `site`. Where the edges out of a block
/// meet and more than one leaves it, that is the location of the block's
/// own end, or, while only one edge has been taken in, what the block at
/// the end of that edge sees.
pub open spec fn tells_source(lowered: &Lowered, site: Site, info: &ReachableSideEffects) -> bool {
    match *info {
        ReachableSideEffects::Reachable => true,
        ReachableSideEffects::Unreachable(location) => match site {
            Site::Point { block, index } => trap_source(lowered, block, location),
            Site::Join { block, edges } => if lowered.successors(block).len() == 1 {
                trap_source(lowered, lowered.successors(block)[0].0 as int, location)
            } else {
                lowered.blocks@[block].end.spec_location() == Some(location) || exists|e: EdgeId|
                    edges == set![e] && is_edge(lowered, e) && e.0 == block && trap_source(
                        lowered,
                        #[trigger] edge_target(lowered, e),
                        location,
                    )
            },
        },
    }
}

/// At every place of a block, a state that says that nothing can be
/// reached carries the right location exactly if it carries what the
/// block sees.
pub proof fn lemma_tells_source_at(
    lowered: &Lowered,
    block: int,
    index: int,
    info: &ReachableSideEffects,
)
    requires
        0 <= block < lowered.blocks@.len(),
        0 <= index <= lowered.blocks@[block].statements@.len(),
    ensures
        tells_source(lowered, point_site(Direction::Backward, lowered, block, index), info) <==> (
        match *info {
            ReachableSideEffects::Reachable => true,
            ReachableSideEffects::Unreachable(location) => trap_source(lowered, block, location),
        }),
{
    if let ReachableSideEffects::Unreachable(location) = *info {
        lemma_trap_source_step(lowered, block, location);
        let all = out_edges(lowered, block);
        if index == lowered.blocks@[block].statements@.len() && lowered.successors(block).len()
            != 1 {
            assert forall|e: EdgeId| all != set![e] by {
                if all == set![e] {
                    assert(set![e].contains(e));
                    assert(all.contains(e));
                    assert(lowered.successors(block).len() >= 2);
                    assert(all.contains((block, 0int)));
                    assert(all.contains((block, 1int)));
                    assert(set![e].contains((block, 0int)));
                    assert(set![e].contains((block, 1int)));
                }
            }
        }
    }
}

/// The analyzer of the early-termination pass. It records where a trap can
/// be put.
pub struct UnsafePanicContext {
    /// The places where a trap can be put, each with the location to give it.
    pub fixes: Vec<(StatementLocation, LocationId)>,
    /// The extern functions whose calls have an effect that has to stay.
    libfuncs_with_sideffect: HashSet<u64>,
}

impl UnsafePanicContext {
    /// The extern functions whose calls have an effect that has to stay.
    pub closed spec fn effects(&self) -> Set<u64> {
        self.libfuncs_with_sideffect@
    }

    /// The recorded places, as a sequence.
    pub closed spec fn spec_fixes(&self) -> Seq<(StatementLocation, LocationId)> {
        self.fixes@
    }

    /// A context that has recorded nothing, for the given extern functions
    /// with a visible effect.
    pub fn new(libfuncs_with_sideffect: &Vec<ExternFunctionId>) -> (ctx: UnsafePanicContext)
        ensures
            ctx.spec_fixes().len() == 0,
            forall|id: u64|
                ctx.effects().contains(id) <==> exists|i: int|
                    0 <= i < libfuncs_with_sideffect@.len() && (
                    #[trigger] libfuncs_with_sideffect@[i]).0 == id,
    {
        let mut set: HashSet<u64> = HashSet::new();
        let mut i: usize = 0;
        while i < libfuncs_with_sideffect.len()
            invariant
                i <= libfuncs_with_sideffect@.len(),
                forall|id: u64|
                    set@.contains(id) <==> exists|j: int|
                        0 <= j < i && (#[trigger] libfuncs_with_sideffect@[j]).0 == id,
            decreases libfuncs_with_sideffect@.len() - i,
        {
            let ghost before = set@;
            set.insert(libfuncs_with_sideffect[i].0);
            proof {
                assert forall|id: u64|
                    set@.contains(id) <==> exists|j: int|
                        0 <= j < i + 1 && (#[trigger] libfuncs_with_sideffect@[j]).0 == id by {
                    if before.contains(id) {
                        let j = choose|j: int|
                            0 <= j < i && (#[trigger] libfuncs_with_sideffect@[j]).0 == id;
                        assert(libfuncs_with_sideffect@[j].0 == id);
                    }
                    if libfuncs_with_sideffect@[i as int].0 == id {
                        assert(set@.contains(id));
                    }
                }
            }
            i += 1;
        }
        UnsafePanicContext { fixes: Vec::new(), libfuncs_with_sideffect: set }
    }

    /// The places recorded so far, each with the location to give the trap.
    pub fn recorded(&self) -> (fixes: &Vec<(StatementLocation, LocationId)>)
        ensures
            fixes@ == self.spec_fixes(),
    {
        &self.fixes
    }

    /// Whether `stmt` has an effect that has to stay: it calls one of the
    /// extern functions with a visible effect.
    pub fn has_side_effects(&self, stmt: &Statement) -> (r: bool)
        ensures
            r == has_effect(self.effects(), stmt),
    {
        if let Statement::Call(call) = stmt {
            let extern_fn = match call.function.get_extern() {
                Some(extern_fn) => extern_fn,
                None => {
                    return false;
                },
            };
            if self.libfuncs_with_sideffect.contains(&extern_fn.0) {
                return true;
            }
        }
        false
    }

    /// Every recorded place lies in the function, from none of them a
    /// return or a statement with a visible effect can be reached, each is
    /// a place where a trap is put, and they are recorded in order.
    pub open spec fn fixes_ok(&self, lowered: &Lowered) -> bool {
        &&& forall|i: int|
            0 <= i < self.spec_fixes().len() ==> fix_dead(
                self.effects(),
                lowered,
                #[trigger] self.spec_fixes()[i],
            ) && fix_due(self.effects(), lowered, self.spec_fixes()[i])
        &&& fixes_ordered(lowered, self.spec_fixes())
    }

    /// Records that a trap can be put at `location`. It is the first for
    /// its block, or carries the location of the nearest match that leads
    /// nowhere.
    fn record(&mut self, lowered: &Lowered, location: StatementLocation, source: LocationId)
        requires
            old(self).fixes_ok(lowered),
            fix_dead(old(self).effects(), lowered, (location, source)),
            fix_due(old(self).effects(), lowered, (location, source)),
            !has_some_fix(old(self).spec_fixes(), location.0.0 as int) || trap_source(
                lowered,
                location.0.0 as int,
                source,
            ),
        ensures
            trap_source(lowered, location.0.0 as int, source) ==> has_source_fix(
                final(self).spec_fixes(),
                lowered,
                location.0.0 as int,
            ),
            forall|block: int|
                has_source_fix(old(self).spec_fixes(), lowered, block) ==> #[trigger] has_source_fix(
                    final(self).spec_fixes(),
                    lowered,
                    block,
                ),
            final(self).fixes_ok(lowered),
            final(self).effects() == old(self).effects(),
            final(self).spec_fixes() == old(self).spec_fixes().push((location, source)),
            has_fix(final(self).spec_fixes(), location.0.0 as int, location.1 as int),
            forall|block: int, index: int|
                has_fix(old(self).spec_fixes(), block, index) ==> #[trigger] has_fix(
                    final(self).spec_fixes(),
                    block,
                    index,
                ),
            forall|place: Place|
                old(self).done(lowered, place) ==> #[trigger] final(self).done(lowered, place),
    {
        let ghost before = self.fixes@;
        self.fixes.push((location, source));
        proof {
            let after = self.spec_fixes();
            assert forall|i: int| 0 <= i < after.len() implies fix_dead(
                self.effects(),
                lowered,
                #[trigger] after[i],
            ) && fix_due(self.effects(), lowered, after[i]) by {
                if i < before.len() {
                    assert(after[i] == old(self).spec_fixes()[i]);
                }
            }
            assert(after[before.len() as int] == (location, source));
            assert forall|i: int, j: int|
                0 <= i < j < after.len() && (#[trigger] after[i]).0.0.0 == (
                #[trigger] after[j]).0.0.0 implies trap_source(
                lowered,
                after[j].0.0.0 as int,
                after[j].1,
            ) by {
                assert(after[i] == before[i]);
                if j < before.len() {
                    assert(after[j] == before[j]);
                } else {
                    assert(has_some_fix(before, location.0.0 as int));
                }
            }
            assert forall|block: int|
                has_source_fix(before, lowered, block) implies #[trigger] has_source_fix(
                after,
                lowered,
                block,
            ) by {
                let j = choose|j: int|
                    0 <= j < before.len() && (#[trigger] before[j]).0.0.0 == block && trap_source(
                        lowered,
                        block,
                        before[j].1,
                    );
                assert(after[j] == before[j]);
            }
            assert forall|block: int, index: int|
                has_fix(before, block, index) implies #[trigger] has_fix(after, block, index) by {
                let j = choose|j: int|
                    0 <= j < before.len() && (#[trigger] before[j]).0.0.0 == block && before[j].0.1
                        == index;
                assert(after[j] == before[j]);
            }
        }
    }
}

/// Whether a trap has been recorded for `block` with the location of the
/// nearest match that leads nowhere.
pub open spec fn has_source_fix(
    fixes: Seq<(StatementLocation, LocationId)>,
    lowered: &Lowered,
    block: int,
) -> bool {
    exists|j: int|
        0 <= j < fixes.len() && (#[trigger] fixes[j]).0.0.0 == block && trap_source(
            lowered,
            block,
            fixes[j].1,
        )
}

/// Whether the places are recorded in order: for each block, only the
/// first may carry another location than that of the nearest match that
/// leads nowhere. So the place of a match at the end of a block, which
/// carries the location of that match, comes before the others of the block.
pub open spec fn fixes_ordered(lowered: &Lowered, fixes: Seq<(StatementLocation, LocationId)>) -> bool {
    forall|i: int, j: int|
        0 <= i < j < fixes.len() && (#[trigger] fixes[i]).0.0.0 == (#[trigger] fixes[j]).0.0.0
            ==> trap_source(lowered, fixes[j].0.0.0 as int, fixes[j].1)
}

/// Whether a trap has been recorded for the place before statement `index` of `block`.
pub open spec fn has_fix(
    fixes: Seq<(StatementLocation, LocationId)>,
    block: int,
    index: int,
) -> bool {
    exists|j: int|
        0 <= j < fixes.len() && (#[trigger] fixes[j]).0.0.0 == block && fixes[j].0.1 == index
}

/// Whether an arm of some match leads to `block`.
pub open spec fn is_arm_target(lowered: &Lowered, block: int) -> bool {
    exists|p: int, k: int|
        0 <= p < lowered.blocks@.len() && lowered.blocks@[p].end is Match && 0 <= k
            < lowered.successors(p).len() && (#[trigger] lowered.successors(p)[k]).0 == block
}

/// The place `fix.0` is one where a trap is put, and `fix.1` the location
/// that the trap carries there: at the start of a block to which an arm of
/// a match leads, or right after a statement with a visible effect, the
/// location of the nearest match that leads nowhere; in the place of a
/// match at the end of a block, the location of that match.
pub open spec fn fix_due(
    effects: Set<u64>,
    lowered: &Lowered,
    fix: (StatementLocation, LocationId),
) -> bool {
    let block = fix.0.0.0 as int;
    let index = fix.0.1 as int;
    let statements = lowered.blocks@[block].statements@;
    ||| index == 0 && is_arm_target(lowered, block) && trap_source(lowered, block, fix.1)
    ||| index == statements.len() && lowered.blocks@[block].end is Match
        && lowered.blocks@[block].end.spec_location() == Some(fix.1)
    ||| 0 < index <= statements.len() && has_effect(effects, &statements[index - 1])
        && trap_source(lowered, block, fix.1)
}

/// What has to be recorded for a block once it has been gone through: a
/// trap in the place of a match at its end from which nothing can be
/// reached, and a trap right after each statement with a visible effect
/// after which nothing can be reached.
pub open spec fn block_duty(
    effects: Set<u64>,
    fixes: Seq<(StatementLocation, LocationId)>,
    lowered: &Lowered,
    block: int,
) -> bool {
    let statements = lowered.blocks@[block].statements@;
    &&& lowered.blocks@[block].end is Match && !live(
        effects,
        lowered,
        block,
        statements.len() as int,
    ) ==> has_fix(fixes, block, statements.len() as int)
    &&& forall|i: int|
        0 <= i < statements.len() && has_effect(effects, #[trigger] &statements[i]) && !live(
            effects,
            lowered,
            block,
            i + 1,
        ) ==> has_fix(fixes, block, i + 1) && has_source_fix(fixes, lowered, block)
}

/// What has to be recorded for an edge once the state has crossed it: a
/// trap at the start of the block to which an arm of a match leads and
/// from which nothing can be reached.
pub open spec fn edge_duty(
    effects: Set<u64>,
    fixes: Seq<(StatementLocation, LocationId)>,
    lowered: &Lowered,
    e: EdgeId,
) -> bool {
    lowered.blocks@[e.0].end is Match && !live(effects, lowered, edge_target(lowered, e), 0)
        ==> has_fix(fixes, edge_target(lowered, e), 0) && has_source_fix(
        fixes,
        lowered,
        edge_target(lowered, e),
    )
}

/// The place `fix.0` lies in the function, and from it neither a return
/// nor a statement with a visible effect can be reached.
pub open spec fn fix_dead(
    effects: Set<u64>,
    lowered: &Lowered,
    fix: (StatementLocation, LocationId),
) -> bool {
    &&& fix.0.0.0 < lowered.blocks@.len()
    &&& fix.0.1 <= lowered.blocks@[fix.0.0.0 as int].statements@.len()
    &&& !live(effects, lowered, fix.0.0.0 as int, fix.0.1 as int)
}

/// The pass runs backward: it can be handed to the backward driver, and
/// its `merge` is for blocks that end in a match.
pub proof fn lemma_pass_runs_backward()
    ensures
        UnsafePanicContext::DIRECTION == Direction::Backward,
{
}

impl DataflowAnalyzer for UnsafePanicContext {
    type Info = ReachableSideEffects;

    const DIRECTION: Direction = Direction::Backward;

    open spec fn inv(&self, lowered: &Lowered) -> bool {
        self.fixes_ok(lowered)
    }

    /// Nothing is recorded for the block.
    open spec fn untouched(&self, lowered: &Lowered, block: int) -> bool {
        !has_some_fix(self.spec_fixes(), block)
    }

    open spec fn done(&self, lowered: &Lowered, place: Place) -> bool {
        match place {
            Place::Block(block) => 0 <= block < lowered.blocks@.len() ==> block_duty(
                self.effects(),
                self.spec_fixes(),
                lowered,
                block,
            ),
            Place::Edge(e) => is_edge(lowered, e) ==> edge_duty(
                self.effects(),
                self.spec_fixes(),
                lowered,
                e,
            ),
        }
    }

    open spec fn sound(&self, lowered: &Lowered, site: Site, info: &ReachableSideEffects) -> bool {
        tells_live(self.effects(), lowered, site, info) && tells_source(lowered, site, info)
    }

    /// At the end of a block without successors: a match leads nowhere, any
    /// other end leaves the function.
    fn initial_info(&mut self, lowered: &Lowered, block_id: BlockId, block_end: &BlockEnd) -> (info:
        ReachableSideEffects)
        ensures
            *final(self) == *old(self),
            info == match *block_end {
                BlockEnd::Match { info } => ReachableSideEffects::Unreachable(info.spec_location()),
                _ => ReachableSideEffects::Reachable,
            },
    {
        assert(UnsafePanicContext::DIRECTION == Direction::Backward);
        match block_end {
            BlockEnd::Match { info } => ReachableSideEffects::Unreachable(info.location()),
            _ => ReachableSideEffects::Reachable,
        }
    }

    /// Something can be reached from the end of a block if it can be
    /// reached across some edge. If not, the match at the end of the block
    /// is the nearest one that leads nowhere.
    fn merge(
        &mut self,
        lowered: &Lowered,
        statement_location: StatementLocation,
        info1: ReachableSideEffects,
        info2: ReachableSideEffects,
    ) -> (info: ReachableSideEffects)
        ensures
            *final(self) == *old(self),
            info == if info1 is Reachable || info2 is Reachable {
                ReachableSideEffects::Reachable
            } else {
                ReachableSideEffects::Unreachable(
                    lowered.blocks@[statement_location.0.0 as int].end.spec_location().unwrap(),
                )
            },
    {
        assert(UnsafePanicContext::DIRECTION == Direction::Backward);
        let ghost b = statement_location.0.0 as int;
        proof {
            assert forall|edges1: Set<EdgeId>, edges2: Set<EdgeId>|
                live_across(self.effects(), lowered, b, edges1.union(edges2)) <==> (live_across(
                    self.effects(),
                    lowered,
                    b,
                    edges1,
                ) || live_across(self.effects(), lowered, b, edges2)) by {
                lemma_live_across_union(self.effects(), lowered, b, edges1, edges2);
            }
        }
        match (info1, info2) {
            (ReachableSideEffects::Reachable, _) => ReachableSideEffects::Reachable,
            (_, ReachableSideEffects::Reachable) => ReachableSideEffects::Reachable,
            (ReachableSideEffects::Unreachable(_), ReachableSideEffects::Unreachable(_)) => {
                match lowered.blocks[statement_location.0.0].end.location() {
                    Some(location) => ReachableSideEffects::Unreachable(location),
                    None => {
                        assert(false);
                        vstd::pervasive::unreached()
                    },
                }
            },
        }
    }

    /// Before a statement with a visible effect something can be reached.
    /// Where nothing can be reached after such a statement, a trap can be
    /// put right after it.
    fn transfer_stmt(
        &mut self,
        lowered: &Lowered,
        info: &mut ReachableSideEffects,
        statement_location: StatementLocation,
        stmt: &Statement,
    )
        ensures
            final(self).effects() == old(self).effects(),
            final(self).spec_fixes() == old(self).spec_fixes() + stmt_fixes(
                old(self).effects(),
                statement_location,
                stmt,
                *old(info),
            ),
            *final(info) == if has_effect(old(self).effects(), stmt) {
                ReachableSideEffects::Reachable
            } else {
                *old(info)
            },
    {
        assert(UnsafePanicContext::DIRECTION == Direction::Backward);
        let ghost b = statement_location.0.0 as int;
        let ghost i = statement_location.1 as int;
        proof {
            lemma_live_statement(self.effects(), lowered, b, i);
            lemma_tells_live_at(self.effects(), lowered, b, i, info);
            lemma_tells_live_at(self.effects(), lowered, b, i + 1, info);
            lemma_tells_live_at(self.effects(), lowered, b, i, &ReachableSideEffects::Reachable);
            lemma_tells_source_at(lowered, b, i, info);
            lemma_tells_source_at(lowered, b, i + 1, info);
            assert(self.spec_fixes() + Seq::empty() =~= self.spec_fixes());
        }
        let n_statements = lowered.blocks[statement_location.0.0].statements.len();
        assert(statement_location.1 < n_statements);
        if self.has_side_effects(stmt) {
            if let ReachableSideEffects::Unreachable(location) = *info {
                proof {
                    assert(has_effect(self.effects(), &lowered.blocks@[b].statements@[i + 1 - 1]));
                    assert(old(self).spec_fixes() + seq![
                        ((statement_location.0, (statement_location.1 + 1) as usize), location),
                    ] =~= old(self).spec_fixes().push(
                        ((statement_location.0, (statement_location.1 + 1) as usize), location),
                    ));
                }
                self.record(lowered, (statement_location.0, statement_location.1 + 1), location);
                *info = ReachableSideEffects::Reachable;
            }
        }
    }

    /// Goes back through a block. Where nothing can be reached from its end
    /// and the block ends in a match, a trap can take the place of the match.
    /// Where nothing can be reached from the end and a statement has a
    /// visible effect, a trap can be put right after the last such statement.
    /// Where something can be reached from the end, nothing is recorded.
    fn transfer_block(
        &mut self,
        lowered: &Lowered,
        info: &mut ReachableSideEffects,
        block_id: BlockId,
        block: &Block,
    )
        ensures
            final(self).effects() == old(self).effects(),
            final(self).spec_fixes() == old(self).spec_fixes() + block_fixes(
                old(self).effects(),
                lowered,
                block_id,
                *old(info),
            ),
            *final(info) == block_entry(old(self).effects(), lowered, block_id, *old(info)),
    {
        assert(UnsafePanicContext::DIRECTION == Direction::Backward);
        let ghost b = block_id.0 as int;
        let n = block.statements.len();
        let ghost effects = self.effects();
        let ghost start = self.spec_fixes();
        let ghost statements = block.statements@;
        proof {
            lemma_tells_live_at(effects, lowered, b, n as int, info);
            lemma_tells_source_at(lowered, b, n as int, info);
            assert(start + Seq::empty() =~= start);
        }
        if let BlockEnd::Match { info: match_info } = &block.end {
            if let ReachableSideEffects::Unreachable(_) = info {
                self.record(lowered, (block_id, n), match_info.location());
            }
        }
        let ghost at_end = self.spec_fixes();
        if let ReachableSideEffects::Reachable = *info {
            proof {
                lemma_live_from_later(effects, lowered, b, 0, n as int);
                lemma_tells_live_at(effects, lowered, b, 0, info);
                lemma_tells_source_at(lowered, b, 0, info);
                assert forall|j: int|
                    0 <= j < n && has_effect(effects, #[trigger] &block.statements@[j]) && !live(
                        effects,
                        lowered,
                        b,
                        j + 1,
                    ) implies has_fix(self.spec_fixes(), b, j + 1) by {
                    lemma_live_from_later(effects, lowered, b, j + 1, n as int);
                }
            }
            return ;
        }
        let ghost carried = info->0;
        proof {
            let at_match = if block.end is Match {
                seq![((block_id, n), block.end.spec_location().unwrap())]
            } else {
                Seq::empty()
            };
            if block.end is Match {
                assert(start.push(((block_id, n), block.end.spec_location().unwrap())) =~= start
                    + at_match);
            }
            assert(at_end == start + at_match);
        }
        let mut i: usize = n;
        while i > 0
            invariant
                i <= n,
                n == block.statements@.len(),
                statements == block.statements@,
                b == block_id.0,
                b < lowered.blocks@.len(),
                *block == lowered.blocks@[b],
                effects == self.effects(),
                self.fixes_ok(lowered),
                self.effects() == old(self).effects(),
                self.spec_fixes() == at_end,
                start == old(self).spec_fixes(),
                at_end == start + (if block.end is Match {
                    seq![((block_id, n), block.end.spec_location().unwrap())]
                } else {
                    Seq::empty()
                }),
                forall|place: Place|
                    old(self).done(lowered, place) ==> #[trigger] self.done(lowered, place),
                lowered.blocks@[b].end is Match ==> has_fix(self.spec_fixes(), b, n as int),
                forall|j: int|
                    i <= j < n ==> !has_effect(effects, #[trigger] &block.statements@[j]),
                *info == ReachableSideEffects::Unreachable(carried),
                *info == *old(info),
                trap_source(lowered, b, carried),
                !live(effects, lowered, b, i as int),
            decreases i,
        {
            i -= 1;
            proof {
                lemma_live_statement(effects, lowered, b, i as int);
            }
            if self.has_side_effects(&block.statements[i]) {
                if let ReachableSideEffects::Unreachable(location) = *info {
                    proof {
                        assert(has_effect(effects, &lowered.blocks@[b].statements@[i + 1 - 1]));
                        lemma_last_effect_skip(effects, statements, i + 1, n as int);
                        assert(last_effect(effects, statements, i + 1) == i);
                        assert(at_end + seq![((block_id, (i + 1) as usize), location)]
                            =~= at_end.push(((block_id, (i + 1) as usize), location)));
                    }
                    self.record(lowered, (block_id, i + 1), location);
                    *info = ReachableSideEffects::Reachable;
                    proof {
                        lemma_live_from_later(effects, lowered, b, 0, i as int);
                        lemma_tells_live_at(effects, lowered, b, 0, info);
                        lemma_tells_source_at(lowered, b, 0, info);
                        assert forall|j: int|
                            0 <= j < n && has_effect(effects, #[trigger] &block.statements@[j])
                                && !live(effects, lowered, b, j + 1) implies has_fix(
                            self.spec_fixes(),
                            b,
                            j + 1,
                        ) by {
                            if j < i {
                                lemma_live_from_later(effects, lowered, b, j + 1, i as int);
                            }
                        }
                        assert(last_effect(effects, statements, n as int) == i);
                        assert(self.spec_fixes() =~= at_end + seq![
                            ((block_id, (i + 1) as usize), carried),
                        ]);
                        assert(self.spec_fixes() =~= start + block_fixes(
                            effects,
                            lowered,
                            block_id,
                            *old(info),
                        ));
                    }
                    return ;
                }
            }
        }
        proof {
            lemma_tells_live_at(effects, lowered, b, 0, info);
            lemma_tells_source_at(lowered, b, 0, info);
            lemma_last_effect_skip(effects, statements, 0, n as int);
            assert(self.spec_fixes() =~= start + block_fixes(
                effects,
                lowered,
                block_id,
                *old(info),
            ));
        }
    }

    /// What holds at the start of a block holds at the far end of every
    /// edge into it. Where nothing can be reached from a block that is the
    /// arm of a match, a trap can take the place of the whole block.
    fn transfer_edge(&mut self, lowered: &Lowered, info: &ReachableSideEffects, edge: &Edge) -> (
        crossed:
        ReachableSideEffects)
        ensures
            final(self).effects() == old(self).effects(),
            final(self).spec_fixes() == old(self).spec_fixes() + edge_fixes(edge, *info),
            crossed == *info,
    {
        assert(UnsafePanicContext::DIRECTION == Direction::Backward);
        let ghost effects = self.effects();
        proof {
            assert(self.spec_fixes() + Seq::empty() =~= self.spec_fixes());
            assert forall|x: EdgeId|
                edge.leaves(lowered, x.0, x.1) && tells_source(
                    lowered,
                    crate::analysis::dataflow::edge_from(Direction::Backward, lowered, x),
                    info,
                ) implies tells_source(
                lowered,
                crate::analysis::dataflow::edge_to(Direction::Backward, lowered, x),
                info,
            ) by {
                lemma_tells_source_at(lowered, edge_target(lowered, x), 0, info);
                if let ReachableSideEffects::Unreachable(location) = *info {
                    assert(trap_source(lowered, edge_target(lowered, x), location));
                    assert(is_edge(lowered, x));
                    if lowered.successors(x.0).len() == 1 {
                        assert(x.1 == 0);
                    }
                }
            }
            let e = choose|e: EdgeId|
                edge.leaves(lowered, e.0, e.1) && #[trigger] self.sound(
                    lowered,
                    crate::analysis::dataflow::edge_from(Direction::Backward, lowered, e),
                    info,
                );
            let t = edge_target(lowered, e);
            assert(lowered.successors(e.0)[e.1].0 == t);
            lemma_tells_live_at(effects, lowered, t, 0, info);
            assert forall|x: EdgeId| edge.leaves(lowered, x.0, x.1) implies edge_target(lowered, x)
                == edge.spec_target().0 && is_edge(lowered, x) && !leaves_function(
                &lowered.blocks@[x.0].end,
            ) by {}
            assert forall|x: EdgeId|
                edge.leaves(lowered, x.0, x.1) implies (live_across(effects, lowered, x.0, set![x])
                <==> live(effects, lowered, edge_target(lowered, x), 0)) by {
                if live_across(effects, lowered, x.0, set![x]) {
                    let y = choose|y: EdgeId|
                        set![x].contains(y) && is_edge(lowered, y) && y.0 == x.0 && live(
                            effects,
                            lowered,
                            #[trigger] edge_target(lowered, y),
                            0,
                        );
                    assert(y == x);
                }
                if live(effects, lowered, edge_target(lowered, x), 0) {
                    assert(set![x].contains(x));
                }
            }
            assert forall|x: EdgeId|
                edge.leaves(lowered, x.0, x.1) implies (tells_live(
                effects,
                lowered,
                crate::analysis::dataflow::edge_from(Direction::Backward, lowered, x),
                info,
            ) <==> (*info is Reachable
                <==> live(effects, lowered, edge_target(lowered, x), 0))) by {
                lemma_tells_live_at(effects, lowered, edge_target(lowered, x), 0, info);
            }
        }
        if let Edge::MatchArm { arm, match_info } = edge {
            if let ReachableSideEffects::Unreachable(location) = info {
                proof {
                    let e = choose|e: EdgeId|
                        edge.leaves(lowered, e.0, e.1) && #[trigger] self.sound(
                            lowered,
                            crate::analysis::dataflow::edge_from(Direction::Backward, lowered, e),
                            info,
                        );
                    assert(lowered.successors(e.0)[e.1].0 == arm.block_id.0);
                    assert(is_arm_target(lowered, arm.block_id.0 as int));
                    lemma_tells_source_at(lowered, arm.block_id.0 as int, 0, info);
                    assert(old(self).spec_fixes() + seq![((arm.block_id, 0usize), *location)]
                        =~= old(self).spec_fixes().push(((arm.block_id, 0usize), *location)));
                }
                self.record(lowered, (arm.block_id, 0), *location);
            }
        }
        proof {
            assert forall|x: EdgeId|
                edge.leaves(lowered, x.0, x.1) && old(self).sound(
                    lowered,
                    crate::analysis::dataflow::edge_from(Direction::Backward, lowered, x),
                    info,
                ) implies #[trigger] self.done(lowered, Place::Edge(x)) by {
                assert(edge_target(lowered, x) == edge.spec_target().0);
            }
        }
        *info
    }
}

/// Something can be reached from early in a block if something can be
/// reached from later in it.
proof fn lemma_live_from_later(
    effects: Set<u64>,
    lowered: &Lowered,
    block: int,
    index: int,
    later: int,
)
    requires
        0 <= index <= later <= lowered.blocks@[block].statements@.len(),
        live(effects, lowered, block, later) || (later < lowered.blocks@[block].statements@.len()
            && has_effect(effects, &lowered.blocks@[block].statements@[later])),
    ensures
        live(effects, lowered, block, index),
    decreases later - index,
{
    if later < lowered.blocks@[block].statements@.len() {
        lemma_live_statement(effects, lowered, block, later);
    }
    if index < later {
        lemma_live_from_later(effects, lowered, block, index + 1, later);
        lemma_live_statement(effects, lowered, block, index);
    }
}

proof fn lemma_live_across_union(
    effects: Set<u64>,
    lowered: &Lowered,
    block: int,
    edges1: Set<EdgeId>,
    edges2: Set<EdgeId>,
)
    ensures
        live_across(effects, lowered, block, edges1.union(edges2)) <==> (live_across(
            effects,
            lowered,
            block,
            edges1,
        ) || live_across(effects, lowered, block, edges2)),
{
    let both = edges1.union(edges2);
    if live_across(effects, lowered, block, both) && !leaves_function(&lowered.blocks@[block].end) {
        let e = choose|e: EdgeId|
            both.contains(e) && is_edge(lowered, e) && e.0 == block && live(
                effects,
                lowered,
                #[trigger] edge_target(lowered, e),
                0,
            );
        if edges1.contains(e) {
            assert(live_across(effects, lowered, block, edges1));
        } else {
            assert(live_across(effects, lowered, block, edges2));
        }
    }
    if live_across(effects, lowered, block, edges1) && !leaves_function(
        &lowered.blocks@[block].end,
    ) {
        let e = choose|e: EdgeId|
            edges1.contains(e) && is_edge(lowered, e) && e.0 == block && live(
                effects,
                lowered,
                #[trigger] edge_target(lowered, e),
                0,
            );
        assert(both.contains(e));
    }
    if live_across(effects, lowered, block, edges2) && !leaves_function(
        &lowered.blocks@[block].end,
    ) {
        let e = choose|e: EdgeId|
            edges2.contains(e) && is_edge(lowered, e) && e.0 == block && live(
                effects,
                lowered,
                #[trigger] edge_target(lowered, e),
                0,
            );
        assert(both.contains(e));
    }
}

/// Whether `end` is a trap: a match on the extern function `function`,
/// without inputs and without arms.
pub open spec fn is_trap(end: &BlockEnd, function: FunctionId) -> bool {
    match *end {
        BlockEnd::Match { info: MatchInfo::Extern(info) } => info.function == function
            && info.arms@.len() == 0 && info.inputs@.len() == 0,
        _ => false,
    }
}

/// Whether `after` is `before` cut off by a trap at a place of the block
/// `block` of `lowered` from which nothing can be reached, the trap with a
/// location that it may carry there.
pub open spec fn cut_where_dead(
    effects: Set<u64>,
    lowered: &Lowered,
    block: int,
    after: &Block,
    function: FunctionId,
) -> bool {
    let before = lowered.blocks@[block];
    &&& is_trap(&after.end, function)
    &&& may_carry(lowered, block, after.end.spec_location().unwrap())
    &&& exists|i: int|
        0 <= i <= before.statements@.len() && #[trigger] before.statements@.subrange(0, i)
            == after.statements@ && !live(effects, lowered, block, i)
}

/// The extern functions that `list` names.
pub open spec fn named(list: Seq<ExternFunctionId>) -> Set<u64> {
    Set::new(|id: u64| exists|i: int| 0 <= i < list.len() && (#[trigger] list[i]).0 == id)
}

/// Whether a trap is due in `block`: an arm of a match leads to the block
/// and nothing can be reached from its start; or the block ends in a match
/// and nothing can be reached from its end; or nothing can be reached after
/// one of its statements with a visible effect.
pub open spec fn trap_due(effects: Set<u64>, lowered: &Lowered, block: int) -> bool {
    let statements = lowered.blocks@[block].statements@;
    ||| is_arm_target(lowered, block) && !live(effects, lowered, block, 0)
    ||| lowered.blocks@[block].end is Match && !live(
        effects,
        lowered,
        block,
        statements.len() as int,
    )
    ||| effect_before_dead(effects, lowered, block)
}

/// Whether nothing can be reached after one of the statements of `block`
/// with a visible effect.
pub open spec fn effect_before_dead(effects: Set<u64>, lowered: &Lowered, block: int) -> bool {
    exists|i: int|
        0 <= i < lowered.blocks@[block].statements@.len() && has_effect(
            effects,
            #[trigger] &lowered.blocks@[block].statements@[i],
        ) && !live(effects, lowered, block, i + 1)
}

/// Whether `location` is what the trap of `block` carries: where an arm of
/// a match leads to the block and nothing can be reached from its start,
/// or nothing can be reached after one of its statements with a visible
/// effect, the location of the nearest match that leads nowhere; else
/// the location of the match at the end of the block itself.
pub open spec fn trap_carries(
    effects: Set<u64>,
    lowered: &Lowered,
    block: int,
    location: LocationId,
) -> bool {
    if (is_arm_target(lowered, block) && !live(effects, lowered, block, 0)) || effect_before_dead(
        effects,
        lowered,
        block,
    ) {
        trap_source(lowered, block, location)
    } else {
        lowered.blocks@[block].end.spec_location() == Some(location)
    }
}

/// `after` is `before` with a trap at the end of every block in which one
/// is due, each with the location that it carries there, and with the
/// other blocks as they are. A block to which an arm
/// of a match leads and from whose start nothing can be reached is nothing
/// but the trap; a block after one of whose statements with a visible
/// effect nothing can be reached ends right after that statement; any
/// other block in which a trap is due keeps its statements.
pub open spec fn traps_where_due(
    effects: Set<u64>,
    before: &Lowered,
    after: &Lowered,
    function: FunctionId,
) -> bool {
    &&& forall|b: int|
        0 <= b < before.blocks@.len() && !trap_due(effects, before, b)
            ==> #[trigger] after.blocks@[b] == before.blocks@[b]
    &&& forall|b: int|
        0 <= b < before.blocks@.len() && trap_due(effects, before, b) ==> is_trap(
            &(#[trigger] after.blocks@[b]).end,
            function,
        ) && trap_carries(effects, before, b, after.blocks@[b].end.spec_location().unwrap())
    &&& forall|b: int|
        0 <= b < before.blocks@.len() && is_arm_target(before, b) && !live(effects, before, b, 0)
            ==> (#[trigger] after.blocks@[b]).statements@.len() == 0
    &&& forall|b: int|
        0 <= b < before.blocks@.len() && trap_due(effects, before, b) && !(is_arm_target(before, b)
            && !live(effects, before, b, 0)) && !effect_before_dead(effects, before, b) ==> (
        #[trigger] after.blocks@[b]).statements@ == before.blocks@[b].statements@
    &&& forall|b: int, i: int|
        0 <= b < before.blocks@.len() && 0 <= i < before.blocks@[b].statements@.len()
            && has_effect(effects, #[trigger] &before.blocks@[b].statements@[i]) && !live(
            effects,
            before,
            b,
            i + 1,
        ) ==> after.blocks@[b].statements@ == before.blocks@[b].statements@.subrange(0, i + 1)
}

/// Where the traps are due fixes what a function becomes: two functions
/// that both are `before` with the traps where they are due have the same
/// statements in every block, end in a trap in the same blocks, and are
/// the same elsewhere. The traps carry the same location too.
pub proof fn lemma_traps_determined(
    effects: Set<u64>,
    before: &Lowered,
    first: &Lowered,
    second: &Lowered,
    function: FunctionId,
    block: int,
)
    requires
        traps_where_due(effects, before, first, function),
        traps_where_due(effects, before, second, function),
        0 <= block < before.blocks@.len(),
    ensures
        first.blocks@[block].statements@ == second.blocks@[block].statements@,
        trap_due(effects, before, block) ==> is_trap(&first.blocks@[block].end, function)
            && is_trap(&second.blocks@[block].end, function),
        trap_due(effects, before, block) ==> first.blocks@[block].end.spec_location()
            == second.blocks@[block].end.spec_location(),
        !trap_due(effects, before, block) ==> first.blocks@[block] == second.blocks@[block],
{
    let one = first.blocks@[block];
    let other = second.blocks@[block];
    if trap_due(effects, before, block) {
        let here = one.end.spec_location().unwrap();
        let there = other.end.spec_location().unwrap();
        assert(trap_carries(effects, before, block, here));
        assert(trap_carries(effects, before, block, there));
        if (is_arm_target(before, block) && !live(effects, before, block, 0))
            || effect_before_dead(effects, before, block) {
            lemma_trap_source_unique(before, block, here, there);
        }
        if is_arm_target(before, block) && !live(effects, before, block, 0) {
            assert(one.statements@ =~= other.statements@);
        } else if effect_before_dead(effects, before, block) {
            let i = choose|i: int|
                0 <= i < before.blocks@[block].statements@.len() && has_effect(
                    effects,
                    #[trigger] &before.blocks@[block].statements@[i],
                ) && !live(effects, before, block, i + 1);
            assert(one.statements@ == before.blocks@[block].statements@.subrange(0, i + 1));
            assert(other.statements@ == before.blocks@[block].statements@.subrange(0, i + 1));
        }
    }
}

/// Where nothing can be reached right after a statement, the statement has
/// a visible effect exactly if something can be reached just before it.
proof fn lemma_effect_is_live(effects: Set<u64>, lowered: &Lowered, block: int, index: int)
    requires
        0 <= index < lowered.blocks@[block].statements@.len(),
        !live(effects, lowered, block, index + 1),
    ensures
        has_effect(effects, &lowered.blocks@[block].statements@[index]) == live(
            effects,
            lowered,
            block,
            index,
        ),
{
    lemma_live_statement(effects, lowered, block, index);
}

/// The traps that the analyzer has recorded are where they are due.
proof fn lemma_traps_where_due(
    effects: Set<u64>,
    ctx: &UnsafePanicContext,
    before: &Lowered,
    after: &Lowered,
    function: FunctionId,
)
    requires
        before.wf(),
        after.blocks@.len() == before.blocks@.len(),
        ctx.fixes_ok(before),
        forall|b: int, i: int|
            live(ctx.effects(), before, b, i) == live(effects, before, b, i),
        forall|b: int|
            0 <= b < before.blocks@.len() ==> #[trigger] ctx.done(before, Place::Block(b)),
        forall|b: int, k: int|
            0 <= b < before.blocks@.len() && 0 <= k < before.successors(b).len()
                ==> #[trigger] ctx.done(before, Place::Edge((b, k))),
        forall|b: int|
            0 <= b < before.blocks@.len() && (forall|i: int|
                0 <= i < ctx.spec_fixes().len() ==> (#[trigger] ctx.spec_fixes()[i]).0.0.0 != b)
                ==> #[trigger] after.blocks@[b] == before.blocks@[b],
        forall|i: int|
            0 <= i < ctx.spec_fixes().len() ==> cut_where_dead(
                effects,
                before,
                (#[trigger] ctx.spec_fixes()[i]).0.0.0 as int,
                &after.blocks@[ctx.spec_fixes()[i].0.0.0 as int],
                function,
            ) && after.blocks@[ctx.spec_fixes()[i].0.0.0 as int].statements@.len()
                <= ctx.spec_fixes()[i].0.1,
        forall|b: int|
            0 <= b < before.blocks@.len() ==> #[trigger] after.blocks@[b] == before.blocks@[b]
                || has_fix(ctx.spec_fixes(), b, after.blocks@[b].statements@.len() as int),
        forall|b: int|
            0 <= b < before.blocks@.len() && #[trigger] has_some_fix(ctx.spec_fixes(), b)
                ==> carries_last(
                ctx.spec_fixes(),
                b,
                after.blocks@[b].end.spec_location().unwrap(),
            ),
    ensures
        traps_where_due(effects, before, after, function),
{
    let fixes = ctx.spec_fixes();
    let known = ctx.effects();
    assert forall|b: int, i: int|
        0 <= i < before.blocks@[b].statements@.len() implies has_effect(
        known,
        #[trigger] &before.blocks@[b].statements@[i],
    ) == has_effect(effects, &before.blocks@[b].statements@[i]) || live(effects, before, b, i + 1) by {
        lemma_live_statement(effects, before, b, i);
        lemma_live_statement(known, before, b, i);
        assert(live(known, before, b, i) == live(effects, before, b, i));
        assert(live(known, before, b, i + 1) == live(effects, before, b, i + 1));
    }
    assert forall|b: int|
        0 <= b < before.blocks@.len() && #[trigger] has_some_fix(fixes, b) implies trap_carries(
        effects,
        before,
        b,
        after.blocks@[b].end.spec_location().unwrap(),
    ) by {
        let location = after.blocks@[b].end.spec_location().unwrap();
        let last = choose|j: int|
            0 <= j < fixes.len() && (#[trigger] fixes[j]).0.0.0 == b && fixes[j].1 == location
                && forall|i: int| j < i < fixes.len() ==> (#[trigger] fixes[i]).0.0.0 != b;
        assert(ctx.done(before, Place::Block(b)));
        if (is_arm_target(before, b) && !live(effects, before, b, 0)) || effect_before_dead(
            effects,
            before,
            b,
        ) {
            if is_arm_target(before, b) && !live(effects, before, b, 0) {
                let (p, k) = choose|p: int, k: int|
                    0 <= p < before.blocks@.len() && before.blocks@[p].end is Match && 0 <= k
                        < before.successors(p).len() && (#[trigger] before.successors(p)[k]).0
                        == b;
                assert(ctx.done(before, Place::Edge((p, k))));
                assert(live(known, before, b, 0) == live(effects, before, b, 0));
                assert(edge_target(before, (p, k)) == b);
                assert(has_source_fix(fixes, before, b));
            } else {
                let i = choose|i: int|
                    0 <= i < before.blocks@[b].statements@.len() && has_effect(
                        effects,
                        #[trigger] &before.blocks@[b].statements@[i],
                    ) && !live(effects, before, b, i + 1);
                assert(live(known, before, b, i + 1) == live(effects, before, b, i + 1));
                assert(has_effect(known, &before.blocks@[b].statements@[i]));
                assert(has_source_fix(fixes, before, b));
            }
            let source = choose|j: int|
                0 <= j < fixes.len() && (#[trigger] fixes[j]).0.0.0 == b && trap_source(
                    before,
                    b,
                    fixes[j].1,
                );
            if source != last {
                assert(source < last);
                assert(fixes[source].0.0.0 == fixes[last].0.0.0);
            }
            assert(trap_source(before, b, location));
        } else {
            assert(fix_dead(known, before, fixes[last]) && fix_due(known, before, fixes[last]));
            let index = fixes[last].0.1 as int;
            let statements = before.blocks@[b].statements@;
            assert(live(known, before, b, index) == live(effects, before, b, index));
            if 0 < index <= statements.len() && has_effect(known, &statements[index - 1]) {
                let i = index - 1;
                assert(has_effect(known, &before.blocks@[b].statements@[i]) == has_effect(
                    effects,
                    &before.blocks@[b].statements@[i],
                ) || live(effects, before, b, i + 1));
                assert(has_effect(effects, &before.blocks@[b].statements@[i]));
                assert(effect_before_dead(effects, before, b));
            }
        }
    }
    assert forall|b: int| 0 <= b < before.blocks@.len() && trap_due(effects, before, b) implies {
        &&& has_some_fix(fixes, b)
        &&& is_arm_target(before, b) && !live(effects, before, b, 0) ==> has_fix(fixes, b, 0)
        &&& forall|i: int|
            0 <= i < before.blocks@[b].statements@.len() && has_effect(
                effects,
                #[trigger] &before.blocks@[b].statements@[i],
            ) && !live(effects, before, b, i + 1) ==> has_fix(fixes, b, i + 1)
    } by {
        let statements = before.blocks@[b].statements@;
        assert(ctx.done(before, Place::Block(b)));
        if is_arm_target(before, b) && !live(effects, before, b, 0) {
            let (p, k) = choose|p: int, k: int|
                0 <= p < before.blocks@.len() && before.blocks@[p].end is Match && 0 <= k
                    < before.successors(p).len() && (#[trigger] before.successors(p)[k]).0 == b;
            assert(ctx.done(before, Place::Edge((p, k))));
            assert(live(known, before, b, 0) == live(effects, before, b, 0));
            assert(has_fix(fixes, b, 0));
        }
        if before.blocks@[b].end is Match && !live(
            effects,
            before,
            b,
            statements.len() as int,
        ) {
            assert(live(known, before, b, statements.len() as int) == live(
                effects,
                before,
                b,
                statements.len() as int,
            ));
            assert(has_fix(fixes, b, statements.len() as int));
        }
        assert forall|i: int|
            0 <= i < statements.len() && has_effect(
                effects,
                #[trigger] &before.blocks@[b].statements@[i],
            ) && !live(effects, before, b, i + 1) implies has_fix(fixes, b, i + 1) by {
            let next = i + 1;
            assert(live(known, before, b, next) == live(effects, before, b, next));
            assert(live(known, before, b, i) == live(effects, before, b, i));
            lemma_effect_is_live(effects, before, b, i);
            lemma_effect_is_live(known, before, b, i);
            assert(has_effect(known, &statements[i]));
        }
        if effect_before_dead(effects, before, b) {
            let i = choose|i: int|
                0 <= i < statements.len() && has_effect(
                    effects,
                    #[trigger] &before.blocks@[b].statements@[i],
                ) && !live(effects, before, b, i + 1);
            assert(has_fix(fixes, b, i + 1));
        }
    }
    assert forall|b: int| 0 <= b < before.blocks@.len() && has_some_fix(fixes, b) implies trap_due(
        effects,
        before,
        b,
    ) && is_trap(&after.blocks@[b].end, function) by {
        let statements = before.blocks@[b].statements@;
        let j = choose|j: int| 0 <= j < fixes.len() && (#[trigger] fixes[j]).0.0.0 == b;
        let index = fixes[j].0.1 as int;
        assert(fix_dead(known, before, fixes[j]) && fix_due(known, before, fixes[j]));
        assert(live(known, before, b, index) == live(effects, before, b, index));
        if 0 < index <= statements.len() && has_effect(known, &statements[index - 1]) {
            let i = index - 1;
            assert(live(known, before, b, i) == live(effects, before, b, i));
            lemma_effect_is_live(effects, before, b, i);
            lemma_effect_is_live(known, before, b, i);
            assert(has_effect(effects, &statements[i]));
        }
        assert(cut_where_dead(effects, before, b, &after.blocks@[b], function));
    }
    assert forall|b: int|
        0 <= b < before.blocks@.len() && !trap_due(
            effects,
            before,
            b,
        ) implies #[trigger] after.blocks@[b] == before.blocks@[b] by {
        if !has_some_fix(fixes, b) {
            assert forall|i: int| 0 <= i < fixes.len()
                implies (#[trigger] fixes[i]).0.0.0 != b by {}
        }
    }
    assert forall|b: int|
        0 <= b < before.blocks@.len() && is_arm_target(before, b) && !live(
            effects,
            before,
            b,
            0,
        ) implies (#[trigger] after.blocks@[b]).statements@.len() == 0 by {
        assert(trap_due(effects, before, b));
        let j = choose|j: int|
            0 <= j < fixes.len() && (#[trigger] fixes[j]).0.0.0 == b && fixes[j].0.1 == 0;
        assert(after.blocks@[fixes[j].0.0.0 as int].statements@.len() <= fixes[j].0.1);
    }
    assert forall|b: int, i: int|
        0 <= b < before.blocks@.len() && 0 <= i < before.blocks@[b].statements@.len()
            && has_effect(effects, #[trigger] &before.blocks@[b].statements@[i]) && !live(
            effects,
            before,
            b,
            i + 1,
        ) implies after.blocks@[b].statements@ == before.blocks@[b].statements@.subrange(
        0,
        i + 1,
    ) by {
        let statements = before.blocks@[b].statements@;
        assert(trap_due(effects, before, b));
        assert(has_fix(fixes, b, i + 1));
        let j = choose|j: int|
            0 <= j < fixes.len() && (#[trigger] fixes[j]).0.0.0 == b && fixes[j].0.1 == i + 1;
        assert(cut_where_dead(
            effects,
            before,
            fixes[j].0.0.0 as int,
            &after.blocks@[fixes[j].0.0.0 as int],
            function,
        ));
        let m = choose|m: int|
            0 <= m <= statements.len() && #[trigger] statements.subrange(0, m)
                == after.blocks@[b].statements@ && !live(effects, before, b, m);
        assert(statements.subrange(0, m).len() == m);
        if m <= i {
            lemma_live_from_later(effects, before, b, m, i);
        }
    }
    assert forall|b: int|
        0 <= b < before.blocks@.len() && trap_due(effects, before, b) && !(is_arm_target(before, b)
            && !live(effects, before, b, 0)) && !effect_before_dead(effects, before, b) implies (
    #[trigger] after.blocks@[b]).statements@ == before.blocks@[b].statements@ by {
        let statements = before.blocks@[b].statements@;
        if after.blocks@[b] != before.blocks@[b] {
            let length = after.blocks@[b].statements@.len() as int;
            let j = choose|j: int|
                0 <= j < fixes.len() && (#[trigger] fixes[j]).0.0.0 == b && fixes[j].0.1 == length;
            assert(fix_dead(known, before, fixes[j]) && fix_due(known, before, fixes[j]));
            assert(live(known, before, b, length) == live(effects, before, b, length));
            if 0 < length <= statements.len() && has_effect(known, &statements[length - 1]) {
                let i = length - 1;
                assert(live(known, before, b, i) == live(effects, before, b, i));
                lemma_effect_is_live(effects, before, b, i);
                lemma_effect_is_live(known, before, b, i);
                assert(has_effect(effects, &before.blocks@[b].statements@[i]));
                assert(effect_before_dead(effects, before, b));
            }
            assert(length == statements.len());
            assert(cut_where_dead(effects, before, b, &after.blocks@[b], function));
            let m = choose|m: int|
                0 <= m <= statements.len() && #[trigger] statements.subrange(0, m)
                    == after.blocks@[b].statements@ && !live(effects, before, b, m);
            assert(statements.subrange(0, m).len() == m);
            assert(statements.subrange(0, m) =~= statements);
        }
    }
}

/// Whether `location` is what the last of `fixes` for `block` carries.
pub open spec fn carries_last(
    fixes: Seq<(StatementLocation, LocationId)>,
    block: int,
    location: LocationId,
) -> bool {
    exists|j: int|
        0 <= j < fixes.len() && (#[trigger] fixes[j]).0.0.0 == block && fixes[j].1 == location
            && forall|i: int| j < i < fixes.len() ==> (#[trigger] fixes[i]).0.0.0 != block
}

/// Whether a trap has been recorded for some place of `block`.
pub open spec fn has_some_fix(fixes: Seq<(StatementLocation, LocationId)>, block: int) -> bool {
    exists|j: int| 0 <= j < fixes.len() && (#[trigger] fixes[j]).0.0.0 == block
}

/// Puts a trap at each of `fixes`.
fn apply_fixes(
    lowered: &mut Lowered,
    fixes: &Vec<(StatementLocation, LocationId)>,
    panic_func_id: FunctionId,
    Ghost(effects): Ghost<Set<u64>>,
)
    requires
        forall|i: int|
            0 <= i < fixes@.len() ==> fix_dead(effects, old(lowered), #[trigger] fixes@[i]),
        forall|i: int|
            0 <= i < fixes@.len() ==> may_carry(
                old(lowered),
                (#[trigger] fixes@[i]).0.0.0 as int,
                fixes@[i].1,
            ),
    ensures
        final(lowered).blocks@.len() == old(lowered).blocks@.len(),
        forall|b: int|
            0 <= b < old(lowered).blocks@.len() && #[trigger] has_some_fix(fixes@, b)
                ==> carries_last(fixes@, b, final(lowered).blocks@[b].end.spec_location().unwrap()),
        final(lowered).variables == old(lowered).variables,
        final(lowered).parameters == old(lowered).parameters,
        forall|b: int|
            0 <= b < old(lowered).blocks@.len() ==> #[trigger] final(lowered).blocks@[b]
                == old(lowered).blocks@[b] || cut_where_dead(
                effects,
                old(lowered),
                b,
                &final(lowered).blocks@[b],
                panic_func_id,
            ),
        forall|b: int|
            0 <= b < old(lowered).blocks@.len() && (forall|i: int|
                0 <= i < fixes@.len() ==> (#[trigger] fixes@[i]).0.0.0 != b)
                    ==> #[trigger] final(lowered).blocks@[b] == old(lowered).blocks@[b],
        forall|b: int|
            0 <= b < old(lowered).blocks@.len() ==> #[trigger] final(lowered).blocks@[b]
                == old(lowered).blocks@[b]
                    || has_fix(fixes@, b, final(lowered).blocks@[b].statements@.len() as int),
        forall|i: int|
            0 <= i < fixes@.len() ==> cut_where_dead(
                effects,
                old(lowered),
                (#[trigger] fixes@[i]).0.0.0 as int,
                &final(lowered).blocks@[fixes@[i].0.0.0 as int],
                panic_func_id,
            ) && final(lowered).blocks@[fixes@[i].0.0.0 as int].statements@.len() <= fixes@[i].0.1,
{
    let ghost start = *lowered;
    let mut f: usize = 0;
    while f < fixes.len()
        invariant
            f <= fixes@.len(),
            lowered.blocks@.len() == start.blocks@.len(),
            lowered.variables == start.variables,
            lowered.parameters == start.parameters,
            forall|i: int| 0 <= i < fixes@.len()
                ==> fix_dead(effects, &start, #[trigger] fixes@[i]),
            forall|i: int|
                0 <= i < fixes@.len() ==> may_carry(
                    &start,
                    (#[trigger] fixes@[i]).0.0.0 as int,
                    fixes@[i].1,
                ),
            forall|b: int|
                0 <= b < start.blocks@.len() && #[trigger] has_some_fix(
                    fixes@.subrange(0, f as int),
                    b,
                ) ==> carries_last(
                    fixes@.subrange(0, f as int),
                    b,
                    lowered.blocks@[b].end.spec_location().unwrap(),
                ),
            forall|b: int|
                0 <= b < start.blocks@.len() ==> #[trigger] lowered.blocks@[b] == start.blocks@[b]
                    || cut_where_dead(effects, &start, b, &lowered.blocks@[b], panic_func_id),
            forall|b: int|
                0 <= b < start.blocks@.len() && (forall|i: int|
                    0 <= i < f ==> (#[trigger] fixes@[i]).0.0.0 != b)
                        ==> #[trigger] lowered.blocks@[b]
                    == start.blocks@[b],
            forall|i: int|
                0 <= i < f ==> cut_where_dead(
                    effects,
                    &start,
                    (#[trigger] fixes@[i]).0.0.0 as int,
                    &lowered.blocks@[fixes@[i].0.0.0 as int],
                    panic_func_id,
                ) && lowered.blocks@[fixes@[i].0.0.0 as int].statements@.len() <= fixes@[i].0.1,
            forall|b: int|
                0 <= b < start.blocks@.len() ==> #[trigger] lowered.blocks@[b] == start.blocks@[b]
                    || has_fix(
                    fixes@.subrange(0, f as int),
                    b,
                    lowered.blocks@[b].statements@.len() as int,
                ),
        decreases fixes@.len() - f,
    {
        let ((block_id, statement_idx), location) = fixes[f];
        let ghost b = block_id.0 as int;
        let ghost before = lowered.blocks@[b];
        let ghost blocks_before = lowered.blocks@;
        proof {
            assert(fix_dead(effects, &start, fixes@[f as int]));
        }
        lowered.blocks[block_id.0].statements.truncate(statement_idx);
        lowered.blocks[block_id.0].end = BlockEnd::Match {
            info: MatchInfo::Extern(
                MatchExternInfo {
                    arms: Vec::new(),
                    location,
                    function: panic_func_id,
                    inputs: Vec::new(),
                },
            ),
        };
        proof {
            let after = lowered.blocks@[b];
            let original = start.blocks@[b].statements@;
            assert(is_trap(&after.end, panic_func_id));
            assert(may_carry(&start, fixes@[f as int].0.0.0 as int, fixes@[f as int].1));
            assert(after.end.spec_location() == Some(location));
            assert forall|x: int|
                0 <= x < start.blocks@.len() && #[trigger] has_some_fix(
                    fixes@.subrange(0, f + 1),
                    x,
                ) implies carries_last(
                fixes@.subrange(0, f + 1),
                x,
                lowered.blocks@[x].end.spec_location().unwrap(),
            ) by {
                let earlier = fixes@.subrange(0, f as int);
                let now = fixes@.subrange(0, f + 1);
                assert(now[f as int] == fixes@[f as int]);
                if x == b {
                    assert(now[f as int].0.0.0 == x && now[f as int].1 == location);
                } else {
                    let w = choose|w: int| 0 <= w < now.len() && (#[trigger] now[w]).0.0.0 == x;
                    assert(w < f);
                    assert(earlier[w] == now[w]);
                    assert(has_some_fix(earlier, x));
                    assert(lowered.blocks@[x] == blocks_before[x]);
                    let j = choose|j: int|
                        0 <= j < earlier.len() && (#[trigger] earlier[j]).0.0.0 == x
                            && earlier[j].1 == blocks_before[x].end.spec_location().unwrap()
                            && forall|i: int|
                            j < i < earlier.len() ==> (#[trigger] earlier[i]).0.0.0 != x;
                    assert(now[j] == earlier[j]);
                    assert forall|i: int| j < i < now.len() implies (#[trigger] now[i]).0.0.0
                        != x by {
                        if i < f {
                            assert(earlier[i] == now[i]);
                        }
                    }
                }
            }
            if before == start.blocks@[b] {
                assert(original.subrange(0, statement_idx as int) == after.statements@);
            } else {
                let i = choose|i: int|
                    0 <= i <= original.len() && #[trigger] original.subrange(0, i)
                        == before.statements@ && !live(effects, &start, b, i);
                if statement_idx <= i {
                    assert(original.subrange(0, statement_idx as int) =~= after.statements@);
                } else {
                    assert(original.subrange(0, i) == after.statements@);
                }
            }
            assert(cut_where_dead(effects, &start, b, &after, panic_func_id));
            assert forall|x: int| 0 <= x < start.blocks@.len() && x != b implies lowered.blocks@[x]
                == blocks_before[x] by {}
            assert(after.statements@.len() <= before.statements@.len());
            let earlier = fixes@.subrange(0, f as int);
            let now = fixes@.subrange(0, f + 1);
            assert(now[f as int] == fixes@[f as int]);
            assert forall|x: int| 0 <= x < start.blocks@.len() implies #[trigger] lowered.blocks@[x]
                == start.blocks@[x] || has_fix(
                now,
                x,
                lowered.blocks@[x].statements@.len() as int,
            ) by {
                let length = blocks_before[x].statements@.len() as int;
                if blocks_before[x] != start.blocks@[x] {
                    let j = choose|j: int|
                        0 <= j < earlier.len() && (#[trigger] earlier[j]).0.0.0 == x
                            && earlier[j].0.1 == length;
                    assert(now[j] == earlier[j]);
                    assert(has_fix(now, x, length));
                }
                if x == b {
                    if statement_idx <= before.statements@.len() {
                        assert(has_fix(now, x, statement_idx as int));
                    }
                }
            }
            assert forall|i: int| 0 <= i < f + 1 implies cut_where_dead(
                effects,
                &start,
                (#[trigger] fixes@[i]).0.0.0 as int,
                &lowered.blocks@[fixes@[i].0.0.0 as int],
                panic_func_id,
            ) && lowered.blocks@[fixes@[i].0.0.0 as int].statements@.len() <= fixes@[i].0.1 by {
                if fixes@[i].0.0.0 != b {
                    assert(lowered.blocks@[fixes@[i].0.0.0 as int]
                        == blocks_before[fixes@[i].0.0.0 as int]);
                }
            }
        }
        f += 1;
    }
    proof {
        assert(fixes@.subrange(0, f as int) =~= fixes@);
    }
}

/// What the pass makes of a function. With the pass off, or without
/// blocks, the function stays as it is. Otherwise every block stays as it
/// is or is cut off by a trap at a place from which nothing can be reached.
/// Where something can be reached from the start of the function, the
/// traps are where they are due; where nothing can be reached from there,
/// the entry block is nothing but the trap, with the location of the
/// nearest match that leads nowhere, and every other block stays as it is.
pub open spec fn trapped_early(
    enabled: bool,
    effects: Set<u64>,
    before: &Lowered,
    after: &Lowered,
    function: FunctionId,
) -> bool {
    &&& after.blocks@.len() == before.blocks@.len()
    &&& after.variables == before.variables
    &&& after.parameters == before.parameters
    &&& !enabled || before.blocks@.len() == 0 ==> *after == *before
    &&& forall|b: int|
        0 <= b < before.blocks@.len() ==> #[trigger] after.blocks@[b] == before.blocks@[b]
            || cut_where_dead(effects, before, b, &after.blocks@[b], function)
    &&& enabled && before.blocks@.len() > 0 && live(effects, before, 0, 0) ==> traps_where_due(
        effects,
        before,
        after,
        function,
    )
    &&& enabled && before.blocks@.len() > 0 && !live(effects, before, 0, 0)
        ==> after.blocks@[0].statements@.len() == 0 && is_trap(&after.blocks@[0].end, function)
        && trap_source(before, 0, after.blocks@[0].end.spec_location().unwrap()) && forall|b: int|
        0 < b < before.blocks@.len() ==> #[trigger] after.blocks@[b] == before.blocks@[b]
}

/// The pass gives one result: two functions that both are what the pass
/// makes of `before` have the same statements in every block; a block is
/// left as it is in both or ends in a trap in both, with the same location.
pub proof fn lemma_rewrite_determined(
    enabled: bool,
    effects: Set<u64>,
    before: &Lowered,
    first: &Lowered,
    second: &Lowered,
    function: FunctionId,
    block: int,
)
    requires
        trapped_early(enabled, effects, before, first, function),
        trapped_early(enabled, effects, before, second, function),
        0 <= block < before.blocks@.len(),
    ensures
        first.blocks@[block].statements@ == second.blocks@[block].statements@,
        first.blocks@[block] == second.blocks@[block] || (is_trap(
            &first.blocks@[block].end,
            function,
        ) && is_trap(&second.blocks@[block].end, function)
            && first.blocks@[block].end.spec_location()
            == second.blocks@[block].end.spec_location()),
{
    if !enabled {
    } else if live(effects, before, 0, 0) {
        lemma_traps_determined(effects, before, first, second, function, block);
    } else if block == 0 {
        assert(first.blocks@[0].statements@ =~= second.blocks@[0].statements@);
        lemma_trap_source_unique(
            before,
            0,
            first.blocks@[0].end.spec_location().unwrap(),
            second.blocks@[0].end.spec_location().unwrap(),
        );
    }
}

/// Puts the traps as `early_unsafe_panic` does, where `lowered` is a
/// function that the analyses take or there is nothing to do; else leaves
/// `lowered` as it is and says so.
pub fn try_early_unsafe_panic(
    lowered: &mut Lowered,
    enable_unsafe_panic: bool,
    libfuncs_with_sideffect: &Vec<ExternFunctionId>,
    panic_func_id: FunctionId,
) -> (applied: bool)
    ensures
        applied == (!enable_unsafe_panic || old(lowered).blocks@.len() == 0 || (old(lowered).wf()
            && crate::analysis::forward::degrees_fit(old(lowered)) && old(lowered).acyclic())),
        applied ==> trapped_early(
            enable_unsafe_panic,
            named(libfuncs_with_sideffect@),
            old(lowered),
            final(lowered),
            panic_func_id,
        ),
        !applied ==> *final(lowered) == *old(lowered),
{
    if enable_unsafe_panic && lowered.blocks.len() > 0 && !crate::analysis::validate::is_analyzable(
        &*lowered,
    ) {
        return false;
    }
    early_unsafe_panic(lowered, enable_unsafe_panic, libfuncs_with_sideffect, panic_func_id);
    true
}

/// Puts a trap wherever the early-termination analysis finds that neither
/// a return nor a call of one of `libfuncs_with_sideffect` can be reached
/// any more: the statements from there on are dropped and the block ends in
/// a match on `panic_func_id` without arms. Where nothing can be reached
/// from the start of the function, the whole entry block becomes the trap
/// and nothing else changes. With `enable_unsafe_panic` off, or on a
/// function without blocks, nothing changes at all.
pub fn early_unsafe_panic(
    lowered: &mut Lowered,
    enable_unsafe_panic: bool,
    libfuncs_with_sideffect: &Vec<ExternFunctionId>,
    panic_func_id: FunctionId,
)
    requires
        enable_unsafe_panic && old(lowered).blocks@.len() > 0 ==> old(lowered).wf() && old(
            lowered,
        ).acyclic(),
    ensures
        trapped_early(
            enable_unsafe_panic,
            named(libfuncs_with_sideffect@),
            old(lowered),
            final(lowered),
            panic_func_id,
        ),
{
    if !enable_unsafe_panic || lowered.blocks.len() == 0 {
        return ;
    }
    let ctx = UnsafePanicContext::new(libfuncs_with_sideffect);
    let ghost effects = ctx.effects();
    proof {
        assert(effects =~= named(libfuncs_with_sideffect@));
        assert(UnsafePanicContext::DIRECTION == Direction::Backward);
    }
    let ghost initial = ctx;
    let mut analysis = DataflowBackAnalysis::new(&*lowered, ctx);
    let block_info = analysis.run();
    let ctx = analysis.into_analyzer();
    proof {
        lemma_backward_visits_all(&*lowered, blocks_with_info(block_info@));
        assert(blocks_with_info(block_info@).contains(0));
        lemma_tells_live_at(ctx.effects(), &*lowered, 0, 0, &block_info@[0].unwrap());
        lemma_tells_source_at(&*lowered, 0, 0, &block_info@[0].unwrap());
        assert forall|b: int| 0 <= b < lowered.blocks@.len() implies #[trigger] ctx.done(
            &*lowered,
            Place::Block(b),
        ) by {
            assert(blocks_with_info(block_info@).contains(b));
            assert(block_info@[b] is Some);
        }
        assert forall|b: int, k: int|
            0 <= b < lowered.blocks@.len() && 0 <= k < lowered.successors(b).len()
                implies #[trigger] ctx.done(&*lowered, Place::Edge((b, k))) by {
            let t = lowered.successors(b)[k].0 as int;
            assert(blocks_with_info(block_info@).contains(t));
            assert(block_info@[t] is Some);
        }
        // The analyzer judges as it did at the start, so it means the same by what can be reached.
        assert forall|b: int, i: int|
            live(ctx.effects(), &*lowered, b, i) == live(effects, &*lowered, b, i) by {
            let site = Site::Point { block: b, index: i };
            let state = ReachableSideEffects::Reachable;
            assert(ctx.sound(&*lowered, site, &state) == initial.sound(&*lowered, site, &state));
        }
    }
    // Where nothing can be reached from the start, the whole function is a trap.
    let fixes = match block_info[0] {
        Some(ReachableSideEffects::Unreachable(location)) => {
            let mut fixes = Vec::new();
            fixes.push(((BlockId::root(), 0usize), location));
            fixes
        },
        _ => ctx.fixes,
    };
    proof {
        assert forall|i: int| 0 <= i < fixes@.len() implies fix_dead(
            effects,
            &*lowered,
            #[trigger] fixes@[i],
        ) by {
            if block_info@[0].unwrap() is Reachable {
                assert(fix_dead(ctx.effects(), &*lowered, ctx.spec_fixes()[i]));
            }
            assert(live(ctx.effects(), &*lowered, fixes@[i].0.0.0 as int, fixes@[i].0.1 as int)
                == live(effects, &*lowered, fixes@[i].0.0.0 as int, fixes@[i].0.1 as int));
        }
    }
    proof {
        assert forall|i: int| 0 <= i < fixes@.len() implies may_carry(
            &*lowered,
            (#[trigger] fixes@[i]).0.0.0 as int,
            fixes@[i].1,
        ) by {
            if block_info@[0].unwrap() is Reachable {
                assert(fix_due(ctx.effects(), &*lowered, ctx.spec_fixes()[i]));
            }
        }
    }
    let ghost start = *lowered;
    apply_fixes(lowered, &fixes, panic_func_id, Ghost(effects));
    proof {
        if live(effects, &start, 0, 0) {
            assert(fixes@ == ctx.spec_fixes());
            lemma_traps_where_due(effects, &ctx, &start, lowered, panic_func_id);
        }
        if !live(effects, &start, 0, 0) {
            assert(fixes@.len() == 1 && fixes@[0].0 == (BlockId(0), 0usize));
            assert(has_some_fix(fixes@, 0));
            assert(carries_last(fixes@, 0, lowered.blocks@[0].end.spec_location().unwrap()));
            assert(cut_where_dead(
                effects,
                &start,
                fixes@[0].0.0.0 as int,
                &lowered.blocks@[fixes@[0].0.0.0 as int],
                panic_func_id,
            ));
            assert forall|b: int| 0 < b < start.blocks@.len() implies #[trigger] lowered.blocks@[b]
                == start.blocks@[b] by {
                assert(forall|i: int| 0 <= i < fixes@.len() ==> (#[trigger] fixes@[i]).0.0.0 != b);
            }
        }
    }
}

} // verus!
