use lowering_analysis::analysis::backward::DataflowBackAnalysis;
use lowering_analysis::analysis::dataflow::{DataflowAnalyzer, Edge};
use lowering_analysis::ir::{
    Block, BlockEnd, BlockId, ExternFunctionId, FunctionId, LocationId, Lowered, MatchArm,
    MatchEnumInfo, MatchExternInfo, MatchInfo, Statement, StatementCall, StatementConst,
    VarRemapping, VarUsage,
};
use lowering_analysis::optimizations::early_unsafe_panic::{
    early_unsafe_panic, try_early_unsafe_panic, ReachableSideEffects, UnsafePanicContext,
};

const PRINT: ExternFunctionId = ExternFunctionId(100);
const TRACE: ExternFunctionId = ExternFunctionId(101);

fn trap_function() -> FunctionId {
    FunctionId { id: 7, extern_function: Some(ExternFunctionId(7)) }
}

fn usage(var_id: usize) -> VarUsage {
    VarUsage { var_id, location: LocationId(0) }
}

fn call(extern_function: Option<ExternFunctionId>) -> Statement {
    Statement::Call(StatementCall {
        function: FunctionId { id: 1, extern_function },
        inputs: vec![],
        outputs: vec![],
        location: LocationId(50),
    })
}

fn constant(output: usize) -> Statement {
    Statement::Const(StatementConst { output })
}

fn dead_match(location: u64) -> BlockEnd {
    BlockEnd::Match {
        info: MatchInfo::Enum(MatchEnumInfo {
            input: usage(0),
            arms: vec![],
            location: LocationId(location),
        }),
    }
}

fn branch(first: usize, second: usize, location: u64) -> BlockEnd {
    BlockEnd::Match {
        info: MatchInfo::Enum(MatchEnumInfo {
            input: usage(0),
            arms: vec![
                MatchArm { block_id: BlockId(first), var_ids: vec![] },
                MatchArm { block_id: BlockId(second), var_ids: vec![] },
            ],
            location: LocationId(location),
        }),
    }
}

fn goto(target: usize) -> BlockEnd {
    BlockEnd::Goto(BlockId(target), VarRemapping { remapping: vec![] })
}

fn returning() -> BlockEnd {
    BlockEnd::Return(vec![usage(0)], LocationId(9))
}

fn function(blocks: Vec<Block>) -> Lowered {
    Lowered { blocks, variables: 4, parameters: vec![0] }
}

fn run(lowered: &mut Lowered) {
    early_unsafe_panic(lowered, true, &vec![PRINT, TRACE], trap_function());
}

fn assert_trap(block: &Block, statements: usize, location: u64) {
    assert_eq!(block.statements.len(), statements);
    let BlockEnd::Match { info: MatchInfo::Extern(info) } = &block.end else {
        panic!("the block does not end in a trap: {:?}", block.end);
    };
    let MatchExternInfo { function, inputs, arms, location: at } = info;
    assert_eq!(function.id, 7);
    assert!(inputs.is_empty());
    assert!(arms.is_empty());
    assert_eq!(*at, LocationId(location));
}

fn assert_same(block: &Block, original: &Block) {
    assert_eq!(format!("{:?}", block), format!("{:?}", original));
}

#[test]
fn test_dead_match_at_root_becomes_trap() {
    let mut lowered = function(vec![Block { statements: vec![constant(1)], end: dead_match(31) }]);
    run(&mut lowered);
    assert_eq!(lowered.blocks.len(), 1);
    assert_trap(&lowered.blocks[0], 0, 31);
    assert_eq!(lowered.variables, 4);
    assert_eq!(lowered.parameters, vec![0]);
}

#[test]
fn test_side_effect_anchors_trap() {
    let mut lowered = function(vec![Block {
        statements: vec![call(Some(PRINT))],
        end: dead_match(32),
    }]);
    run(&mut lowered);
    // The trap stands after the print, which stays.
    assert_trap(&lowered.blocks[0], 1, 32);
    assert!(matches!(lowered.blocks[0].statements[0], Statement::Call(_)));
}

#[test]
fn test_trap_after_last_side_effect() {
    let mut lowered = function(vec![Block {
        statements: vec![
            call(Some(PRINT)),
            constant(1),
            call(Some(TRACE)),
            constant(2),
            call(Some(ExternFunctionId(5))),
            call(None),
        ],
        end: dead_match(33),
    }]);
    run(&mut lowered);
    // What follows the last call with a visible effect goes; calls of other functions do not count.
    assert_trap(&lowered.blocks[0], 3, 33);
}

#[test]
fn test_returning_function_is_unchanged() {
    let original = function(vec![
        Block { statements: vec![constant(1)], end: branch(1, 2, 34) },
        Block { statements: vec![call(Some(PRINT))], end: goto(3) },
        Block { statements: vec![], end: goto(3) },
        Block { statements: vec![], end: returning() },
    ]);
    let mut lowered = original.clone();
    run(&mut lowered);
    for (block, before) in lowered.blocks.iter().zip(original.blocks.iter()) {
        assert_same(block, before);
    }
}

#[test]
fn test_dead_arm_becomes_trap() {
    let original = function(vec![
        Block { statements: vec![constant(1)], end: branch(1, 2, 35) },
        Block { statements: vec![constant(2)], end: goto(3) },
        Block { statements: vec![constant(3)], end: returning() },
        Block { statements: vec![constant(4)], end: dead_match(36) },
    ]);
    let mut lowered = original.clone();
    run(&mut lowered);
    // The root can return through its second arm; the first arm leads to the dead match only.
    assert_same(&lowered.blocks[0], &original.blocks[0]);
    assert_trap(&lowered.blocks[1], 0, 36);
    assert_same(&lowered.blocks[2], &original.blocks[2]);
    assert_trap(&lowered.blocks[3], 1, 36);
}

#[test]
fn test_match_with_dead_arms_only() {
    let original = function(vec![
        Block { statements: vec![call(Some(PRINT))], end: branch(1, 2, 37) },
        Block { statements: vec![], end: dead_match(38) },
        Block { statements: vec![constant(1)], end: dead_match(39) },
    ]);
    let mut lowered = original.clone();
    run(&mut lowered);
    // The print keeps the root alive up to the print; the match itself goes.
    assert_trap(&lowered.blocks[0], 1, 37);
    assert_trap(&lowered.blocks[1], 0, 38);
    assert_trap(&lowered.blocks[2], 0, 39);
}

fn single_arm(target: usize, location: u64) -> BlockEnd {
    BlockEnd::Match {
        info: MatchInfo::Enum(MatchEnumInfo {
            input: usage(0),
            arms: vec![MatchArm { block_id: BlockId(target), var_ids: vec![] }],
            location: LocationId(location),
        }),
    }
}

#[test]
fn test_single_arm_hands_the_location_on() {
    let original = function(vec![
        Block { statements: vec![call(Some(PRINT))], end: branch(1, 2, 20) },
        Block { statements: vec![], end: single_arm(3, 30) },
        Block { statements: vec![], end: returning() },
        Block { statements: vec![constant(1)], end: dead_match(40) },
    ]);
    let mut lowered = original.clone();
    run(&mut lowered);
    assert_same(&lowered.blocks[0], &original.blocks[0]);
    // Block 1 sees the dead match of block 3 through its only arm.
    assert_trap(&lowered.blocks[1], 0, 40);
    assert_same(&lowered.blocks[2], &original.blocks[2]);
    assert_trap(&lowered.blocks[3], 0, 40);
}

#[test]
fn test_single_arm_match_that_no_arm_leads_to() {
    let original = function(vec![
        Block { statements: vec![call(Some(PRINT))], end: goto(1) },
        Block { statements: vec![constant(1)], end: single_arm(2, 30) },
        Block { statements: vec![], end: dead_match(40) },
    ]);
    let mut lowered = original.clone();
    run(&mut lowered);
    // The print keeps the root alive; after it the trap carries what the root sees.
    assert_trap(&lowered.blocks[0], 1, 40);
    // Block 1 is reached by a goto only: the trap takes the place of its own match.
    assert_trap(&lowered.blocks[1], 1, 30);
    assert_trap(&lowered.blocks[2], 0, 40);
}

#[test]
fn test_unreachable_root_takes_the_nearest_location() {
    let original = function(vec![
        Block { statements: vec![constant(1)], end: goto(1) },
        Block { statements: vec![constant(2)], end: single_arm(2, 30) },
        Block { statements: vec![constant(3)], end: branch(3, 4, 41) },
        Block { statements: vec![], end: dead_match(42) },
        Block { statements: vec![], end: dead_match(43) },
    ]);
    let mut lowered = original.clone();
    run(&mut lowered);
    // Through the goto and the single arm the root sees the match of block 2.
    assert_trap(&lowered.blocks[0], 0, 41);
    for b in 1..5 {
        assert_same(&lowered.blocks[b], &original.blocks[b]);
    }
}

#[test]
fn test_panic_end_counts_as_leaving() {
    let original = function(vec![Block { statements: vec![constant(1)], end: BlockEnd::Panic(usage(1)) }]);
    let mut lowered = original.clone();
    run(&mut lowered);
    assert_same(&lowered.blocks[0], &original.blocks[0]);
}

#[test]
fn test_disabled_flag_changes_nothing() {
    let original = function(vec![Block { statements: vec![constant(1)], end: dead_match(40) }]);
    let mut lowered = original.clone();
    early_unsafe_panic(&mut lowered, false, &vec![PRINT, TRACE], trap_function());
    assert_same(&lowered.blocks[0], &original.blocks[0]);
    let mut empty = function(vec![]);
    early_unsafe_panic(&mut empty, true, &vec![PRINT, TRACE], trap_function());
    assert!(empty.blocks.is_empty());
}

#[test]
fn test_rewrite_is_deterministic() {
    let original = function(vec![
        Block { statements: vec![constant(1)], end: branch(1, 2, 41) },
        Block { statements: vec![call(Some(TRACE)), constant(2)], end: dead_match(42) },
        Block { statements: vec![], end: returning() },
    ]);
    let mut first = original.clone();
    let mut second = original.clone();
    run(&mut first);
    run(&mut second);
    assert_eq!(format!("{:?}", first), format!("{:?}", second));
    assert_trap(&first.blocks[1], 1, 42);
}

#[test]
fn test_has_side_effects() {
    let ctx = UnsafePanicContext::new(&vec![PRINT]);
    assert!(ctx.has_side_effects(&call(Some(PRINT))));
    assert!(!ctx.has_side_effects(&call(Some(TRACE))));
    assert!(!ctx.has_side_effects(&call(None)));
    assert!(!ctx.has_side_effects(&constant(0)));
    assert!(ctx.fixes.is_empty());
}

#[test]
fn test_backward_states_and_fixes() {
    let lowered = function(vec![
        Block { statements: vec![constant(1)], end: branch(1, 2, 43) },
        Block { statements: vec![constant(2)], end: dead_match(44) },
        Block { statements: vec![], end: returning() },
    ]);
    let mut analysis = DataflowBackAnalysis::new(&lowered, UnsafePanicContext::new(&vec![PRINT]));
    let states = analysis.run();
    assert_eq!(
        states,
        vec![
            Some(ReachableSideEffects::Reachable),
            Some(ReachableSideEffects::Unreachable(LocationId(44))),
            Some(ReachableSideEffects::Reachable),
        ]
    );
    assert_eq!(
        analysis.analyzer.fixes,
        vec![((BlockId(1), 1), LocationId(44)), ((BlockId(1), 0), LocationId(44))]
    );
    assert_eq!(ReachableSideEffects::default(), ReachableSideEffects::Reachable);
}

#[test]
fn test_merge_of_reachability() {
    // Three arms: two lead to matches that lead nowhere, one to a return.
    let lowered = function(vec![
        Block {
            statements: vec![],
            end: BlockEnd::Match {
                info: MatchInfo::Enum(MatchEnumInfo {
                    input: usage(0),
                    arms: vec![
                        MatchArm { block_id: BlockId(1), var_ids: vec![] },
                        MatchArm { block_id: BlockId(2), var_ids: vec![] },
                        MatchArm { block_id: BlockId(3), var_ids: vec![] },
                    ],
                    location: LocationId(45),
                }),
            },
        },
        Block { statements: vec![], end: dead_match(1) },
        Block { statements: vec![], end: dead_match(2) },
        Block { statements: vec![], end: returning() },
    ]);
    let mut ctx = UnsafePanicContext::new(&vec![]);
    let reachable = ReachableSideEffects::Reachable;
    let dead = ReachableSideEffects::Unreachable(LocationId(1));
    let at = (BlockId(0), 0);
    assert_eq!(ctx.merge(&lowered, at, reachable, dead), reachable);
    assert_eq!(ctx.merge(&lowered, at, dead, reachable), reachable);
    assert_eq!(
        ctx.merge(&lowered, at, dead, ReachableSideEffects::Unreachable(LocationId(2))),
        ReachableSideEffects::Unreachable(LocationId(45))
    );
    assert_eq!(
        ctx.initial_info(&lowered, BlockId(3), &lowered.blocks[3].end),
        ReachableSideEffects::Reachable
    );
    assert_eq!(ctx.initial_info(&lowered, BlockId(1), &lowered.blocks[1].end), dead_with(1));
    let alone = function(vec![Block { statements: vec![], end: dead_match(46) }]);
    assert_eq!(ctx.initial_info(&alone, BlockId(0), &alone.blocks[0].end), dead_with(46));
}

#[test]
fn test_block_records_match_then_last_effect() {
    let lowered = function(vec![Block {
        statements: vec![call(Some(PRINT)), call(Some(TRACE)), constant(1)],
        end: dead_match(32),
    }]);
    let mut ctx = UnsafePanicContext::new(&vec![PRINT, TRACE]);
    let mut info = ctx.initial_info(&lowered, BlockId(0), &lowered.blocks[0].end);
    ctx.transfer_block(&lowered, &mut info, BlockId(0), &lowered.blocks[0]);
    // First the place of the match, then the place after the last call with an effect.
    assert_eq!(
        ctx.fixes,
        vec![((BlockId(0), 3), LocationId(32)), ((BlockId(0), 2), LocationId(32))]
    );
    assert_eq!(info, ReachableSideEffects::Reachable);
}

#[test]
fn test_reachable_end_records_nothing() {
    let lowered = function(vec![Block {
        statements: vec![call(Some(PRINT)), constant(1)],
        end: returning(),
    }]);
    let mut ctx = UnsafePanicContext::new(&vec![PRINT, TRACE]);
    let mut info = ctx.initial_info(&lowered, BlockId(0), &lowered.blocks[0].end);
    assert_eq!(info, ReachableSideEffects::Reachable);
    ctx.transfer_block(&lowered, &mut info, BlockId(0), &lowered.blocks[0]);
    assert!(ctx.fixes.is_empty());
    assert_eq!(info, ReachableSideEffects::Reachable);
}

#[test]
fn test_edge_records_dead_arm_only() {
    let lowered = function(vec![
        Block { statements: vec![], end: branch(1, 2, 20) },
        Block { statements: vec![], end: dead_match(21) },
        Block { statements: vec![], end: goto(3) },
        Block { statements: vec![], end: dead_match(23) },
    ]);
    let BlockEnd::Match { info: match_info } = &lowered.blocks[0].end else {
        panic!("the root ends in a match");
    };
    let mut ctx = UnsafePanicContext::new(&vec![]);
    let arm = Edge::MatchArm { arm: &match_info.arms()[0], match_info };
    let crossed = ctx.transfer_edge(&lowered, &dead_with(21), &arm);
    assert_eq!(crossed, dead_with(21));
    assert_eq!(ctx.fixes, vec![((BlockId(1), 0), LocationId(21))]);
    // Along a goto nothing is recorded.
    let BlockEnd::Goto(target, remapping) = &lowered.blocks[2].end else {
        panic!("block 2 ends in a goto");
    };
    let jump = Edge::Goto { target: *target, remapping };
    let crossed = ctx.transfer_edge(&lowered, &dead_with(23), &jump);
    assert_eq!(crossed, dead_with(23));
    assert_eq!(ctx.fixes.len(), 1);
}

fn dead_with(location: u64) -> ReachableSideEffects {
    ReachableSideEffects::Unreachable(LocationId(location))
}

#[test]
fn test_backward_takes_the_last_ready_block_first() {
    // Two arms that both end the function: the one seeded last is gone through first.
    let lowered = function(vec![
        Block { statements: vec![], end: branch(1, 2, 47) },
        Block { statements: vec![], end: dead_match(48) },
        Block { statements: vec![], end: dead_match(49) },
    ]);
    let mut analysis = DataflowBackAnalysis::new(&lowered, UnsafePanicContext::new(&vec![]));
    let states = analysis.run();
    assert_eq!(
        states,
        vec![
            Some(ReachableSideEffects::Unreachable(LocationId(47))),
            Some(ReachableSideEffects::Unreachable(LocationId(48))),
            Some(ReachableSideEffects::Unreachable(LocationId(49))),
        ]
    );
    let fixes = analysis.into_analyzer().fixes;
    assert_eq!(
        fixes,
        vec![
            ((BlockId(2), 0), LocationId(49)),
            ((BlockId(2), 0), LocationId(49)),
            ((BlockId(1), 0), LocationId(48)),
            ((BlockId(1), 0), LocationId(48)),
            ((BlockId(0), 0), LocationId(47)),
        ]
    );
}

#[test]
fn test_try_early_unsafe_panic() {
    let original = function(vec![Block { statements: vec![constant(1)], end: dead_match(50) }]);
    let mut lowered = original.clone();
    assert!(try_early_unsafe_panic(&mut lowered, true, &vec![PRINT], trap_function()));
    assert_trap(&lowered.blocks[0], 0, 50);
    // A function with a cycle is left as it is.
    let looping = function(vec![
        Block { statements: vec![], end: goto(1) },
        Block { statements: vec![], end: goto(0) },
    ]);
    let mut lowered = looping.clone();
    assert!(!try_early_unsafe_panic(&mut lowered, true, &vec![PRINT], trap_function()));
    assert_same(&lowered.blocks[0], &looping.blocks[0]);
    assert_same(&lowered.blocks[1], &looping.blocks[1]);
    // With the pass off there is nothing to test.
    assert!(try_early_unsafe_panic(&mut lowered, false, &vec![PRINT], trap_function()));
    assert_same(&lowered.blocks[0], &looping.blocks[0]);
}
