//! The lowered intermediate representation that the analyses consume: basic
//! blocks of statements, each closed by one control transfer.

use vstd::prelude::*;

verus! {

/// Index of a variable in a lowered function. A lower index was defined earlier.
pub type VariableId = usize;

/// Index of a block in a lowered function.
#[derive(Clone, Copy, Debug, PartialEq, Eq, Hash, Structural)]
pub struct BlockId(pub usize);

impl BlockId {
    /// The entry block of every function.
    pub fn root() -> (r: BlockId)
        ensures
            r == BlockId(0),
    {
        BlockId(0)
    }

    /// Whether this is the entry block.
    pub fn is_root(&self) -> (r: bool)
        ensures
            r == (self.0 == 0),
    {
        self.0 == 0
    }
}

/// A position inside a function: a block and the index of a statement in it.
/// The index `statements.len()` denotes the block's end.
pub type StatementLocation = (BlockId, usize);

/// Handle of a source location.
#[derive(Clone, Copy, Debug, PartialEq, Eq, Hash, Structural)]
pub struct LocationId(pub u64);

/// Handle of an extern function.
#[derive(Clone, Copy, Debug, PartialEq, Eq, Hash, Structural)]
pub struct ExternFunctionId(pub u64);

/// Identity of a callee.
#[derive(Clone, Copy, Debug)]
pub struct FunctionId {
    /// Handle of the function itself.
    pub id: u64,
    /// The extern function behind it, if it is one.
    pub extern_function: Option<ExternFunctionId>,
}

impl FunctionId {
    /// The extern function that this callee stands for, if any.
    pub fn get_extern(&self) -> (r: Option<ExternFunctionId>)
        ensures
            r == self.extern_function,
    {
        self.extern_function
    }
}

/// One use of a variable.
#[derive(Clone, Copy, Debug)]
pub struct VarUsage {
    pub var_id: VariableId,
    pub location: LocationId,
}

/// `output` is a constant.
#[derive(Clone, Copy, Debug)]
pub struct StatementConst {
    pub output: VariableId,
}

/// `outputs` are what the call of `function` on `inputs` gives.
#[derive(Clone, Debug)]
pub struct StatementCall {
    pub function: FunctionId,
    pub inputs: Vec<VarUsage>,
    pub outputs: Vec<VariableId>,
    pub location: LocationId,
}

/// `output` is the struct with the members `inputs`.
#[derive(Clone, Debug)]
pub struct StatementStructConstruct {
    pub inputs: Vec<VarUsage>,
    pub output: VariableId,
}

/// `outputs` are the members of the struct `input`.
#[derive(Clone, Debug)]
pub struct StatementStructDestructure {
    pub input: VarUsage,
    pub outputs: Vec<VariableId>,
}

/// `output` is the variant number `variant` of an enum, holding `input`.
#[derive(Clone, Copy, Debug)]
pub struct StatementEnumConstruct {
    pub variant: usize,
    pub input: VarUsage,
    pub output: VariableId,
}

/// `original_output` is `input` again, `snapshot_output` is its snapshot.
#[derive(Clone, Copy, Debug)]
pub struct StatementSnapshot {
    pub input: VarUsage,
    pub original_output: VariableId,
    pub snapshot_output: VariableId,
}

/// `output` is the value of which `input` is a snapshot.
#[derive(Clone, Copy, Debug)]
pub struct StatementDesnap {
    pub input: VarUsage,
    pub output: VariableId,
}

/// `output` is a box that holds `input`.
#[derive(Clone, Copy, Debug)]
pub struct StatementIntoBox {
    pub input: VarUsage,
    pub output: VariableId,
}

/// `output` is what the box `input` holds.
#[derive(Clone, Copy, Debug)]
pub struct StatementUnbox {
    pub input: VarUsage,
    pub output: VariableId,
}

/// A statement of a block.
#[derive(Clone, Debug)]
pub enum Statement {
    Const(StatementConst),
    Call(StatementCall),
    StructConstruct(StatementStructConstruct),
    StructDestructure(StatementStructDestructure),
    EnumConstruct(StatementEnumConstruct),
    Snapshot(StatementSnapshot),
    Desnap(StatementDesnap),
    IntoBox(StatementIntoBox),
    Unbox(StatementUnbox),
}

/// One arm of a match: the block it jumps to and the variables it binds.
#[derive(Clone, Debug)]
pub struct MatchArm {
    pub block_id: BlockId,
    pub var_ids: Vec<VariableId>,
}

/// A match on the variant of an enum value.
#[derive(Clone, Debug)]
pub struct MatchEnumInfo {
    pub input: VarUsage,
    pub arms: Vec<MatchArm>,
    pub location: LocationId,
}

/// A match on the branch that an extern function takes.
#[derive(Clone, Debug)]
pub struct MatchExternInfo {
    pub function: FunctionId,
    pub inputs: Vec<VarUsage>,
    pub arms: Vec<MatchArm>,
    pub location: LocationId,
}

/// What a match looks at, and its arms.
#[derive(Clone, Debug)]
pub enum MatchInfo {
    Enum(MatchEnumInfo),
    Extern(MatchExternInfo),
}

impl MatchInfo {
    /// The arms, in order.
    pub open spec fn spec_arms(&self) -> Seq<MatchArm> {
        match self {
            MatchInfo::Enum(info) => info.arms@,
            MatchInfo::Extern(info) => info.arms@,
        }
    }

    /// Where the match stands in the source.
    pub open spec fn spec_location(&self) -> LocationId {
        match self {
            MatchInfo::Enum(info) => info.location,
            MatchInfo::Extern(info) => info.location,
        }
    }

    /// The arms, in order.
    pub fn arms(&self) -> (r: &Vec<MatchArm>)
        ensures
            r@ == self.spec_arms(),
    {
        match self {
            MatchInfo::Enum(info) => &info.arms,
            MatchInfo::Extern(info) => &info.arms,
        }
    }

    /// Where the match stands in the source.
    pub fn location(&self) -> (r: LocationId)
        ensures
            r == self.spec_location(),
    {
        match self {
            MatchInfo::Enum(info) => info.location,
            MatchInfo::Extern(info) => info.location,
        }
    }
}

/// The renaming applied along a goto: each destination variable, in the
/// target block, holds what the source variable held in the predecessor.
#[derive(Clone, Debug)]
pub struct VarRemapping {
    pub remapping: Vec<(VariableId, VarUsage)>,
}

/// The control transfer that closes a block.
#[derive(Clone, Debug)]
pub enum BlockEnd {
    /// The end was never set; no analysis accepts such a block.
    NotSet,
    Return(Vec<VarUsage>, LocationId),
    Panic(VarUsage),
    Goto(BlockId, VarRemapping),
    Match { info: MatchInfo },
}

impl BlockEnd {
    /// The blocks that control may move to, one entry per outgoing edge.
    pub open spec fn successors(&self) -> Seq<BlockId> {
        match self {
            BlockEnd::Goto(target, _) => seq![*target],
            BlockEnd::Match { info } => Seq::new(
                info.spec_arms().len(),
                |k: int| info.spec_arms()[k].block_id,
            ),
            _ => Seq::empty(),
        }
    }

    /// Where the control transfer stands in the source; a goto has no place of its own.
    pub open spec fn spec_location(&self) -> Option<LocationId> {
        match self {
            BlockEnd::Return(_, location) => Some(*location),
            BlockEnd::Panic(usage) => Some(usage.location),
            BlockEnd::Match { info } => Some(info.spec_location()),
            _ => None,
        }
    }

    /// Where the control transfer stands in the source; a goto has no place of its own.
    pub fn location(&self) -> (r: Option<LocationId>)
        ensures
            r == self.spec_location(),
    {
        match self {
            BlockEnd::Return(_, location) => Some(*location),
            BlockEnd::Panic(usage) => Some(usage.location),
            BlockEnd::Match { info } => Some(info.location()),
            _ => None,
        }
    }
}

/// A sequence of statements, closed by one control transfer.
#[derive(Clone, Debug)]
pub struct Block {
    pub statements: Vec<Statement>,
    pub end: BlockEnd,
}

/// A lowered function. Its entry is block 0.
#[derive(Clone, Debug)]
pub struct Lowered {
    pub blocks: Vec<Block>,
    /// Number of variables; they are numbered from 0.
    pub variables: usize,
    pub parameters: Vec<VariableId>,
}

impl Lowered {
    /// Successors of block `b`, one entry per outgoing edge.
    pub open spec fn successors(&self, b: int) -> Seq<BlockId> {
        self.blocks@[b].end.successors()
    }

    /// Every block end is set and every edge leads to a block of the function.
    pub open spec fn wf(&self) -> bool {
        &&& self.blocks@.len() > 0
        &&& forall|b: int|
            0 <= b < self.blocks@.len() ==> !(#[trigger] self.blocks@[b].end is NotSet)
        &&& forall|b: int, k: int|
            0 <= b < self.blocks@.len() && 0 <= k < self.successors(b).len() ==> (
            #[trigger] self.successors(b)[k]).0 < self.blocks@.len()
    }

    /// Whether `block -> target` is an edge of the control-flow graph.
    pub open spec fn has_edge(&self, block: int, target: int) -> bool {
        &&& 0 <= block < self.blocks@.len()
        &&& exists|k: int|
            0 <= k < self.successors(block).len() && (#[trigger] self.successors(block)[k]).0
                == target
    }

    /// `rank` numbers the blocks so that every edge leads to a higher number.
    pub open spec fn ranked_by(&self, rank: Seq<nat>) -> bool {
        &&& rank.len() == self.blocks@.len()
        &&& forall|b: int, k: int|
            0 <= b < self.blocks@.len() && 0 <= k < self.successors(b).len() ==> rank[b] < rank[(
            #[trigger] self.successors(b)[k]).0 as int]
    }

    /// The control-flow graph has no cycle.
    pub open spec fn acyclic(&self) -> bool {
        exists|rank: Seq<nat>| self.ranked_by(rank)
    }

    /// `path` starts at the entry block and follows edges.
    pub open spec fn path_from_root(&self, path: Seq<int>) -> bool {
        &&& path.len() > 0
        &&& path[0] == 0
        &&& forall|i: int| 0 <= i < path.len() - 1
            ==> self.has_edge(#[trigger] path[i], path[i + 1])
    }

    /// Control can get from the entry block to `block`.
    pub open spec fn reachable(&self, block: int) -> bool {
        exists|path: Seq<int>| #[trigger] self.path_from_root(path) && path.last() == block
    }
}

} // verus!
