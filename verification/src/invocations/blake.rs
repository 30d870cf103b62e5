//! The instructions for the blake2s compression functions.

use crate::operand::{CellRef, DerefOrImmediate, Operation, Register, ResOperand};
use vstd::prelude::*;

verus! {

/// An expression over memory cells that a reference stands for.
#[derive(Clone, Copy, Debug, PartialEq, Eq, Structural)]
pub enum CellExpression {
    Deref(CellRef),
    DoubleDeref(CellRef, i16),
    Immediate(i128),
    BinOp { op: Operation, a: CellRef, b: DerefOrImmediate },
}

impl CellExpression {
    /// The cell, where the expression is the value of one cell.
    pub open spec fn spec_to_deref(&self) -> Option<CellRef> {
        match *self {
            CellExpression::Deref(cell) => Some(cell),
            _ => None,
        }
    }

    /// The cell, where the expression is the value of one cell.
    pub fn to_deref(&self) -> (r: Option<CellRef>)
        ensures
            r == self.spec_to_deref(),
    {
        match self {
            CellExpression::Deref(cell) => Some(*cell),
            _ => None,
        }
    }
}

/// The two functions of the blake2s family.
#[derive(Clone, Copy, Debug, PartialEq, Eq, Structural)]
pub enum BlakeConcreteLibfunc {
    /// Compression of a block that is not the last one.
    Blake2sCompress,
    /// Compression of the last block.
    Blake2sFinalize,
}

/// A hint that goes with an instruction.
#[derive(Clone, Copy, Debug, PartialEq, Eq, Structural)]
pub enum Hint {
    /// Allocates a segment of a constant size and stores its start at `dst`.
    AllocConstantSize { dst: CellRef, size: ResOperand },
}

/// The instruction that compresses one block.
#[derive(Clone, Copy, Debug, PartialEq, Eq, Structural)]
pub struct Blake2sCompressInstruction {
    pub state: CellRef,
    pub byte_count: CellRef,
    pub message: CellRef,
    pub finalize: bool,
}

/// What an instruction does.
#[derive(Clone, Copy, Debug, PartialEq, Eq, Structural)]
pub enum InstructionBody {
    Blake2sCompress(Blake2sCompressInstruction),
}

/// An instruction: what it does, whether it moves the allocation pointer
/// on by one, and the hints that go with it.
#[derive(Clone, Debug)]
pub struct Instruction {
    pub body: InstructionBody,
    pub inc_ap: bool,
    pub hints: Vec<Hint>,
}

/// What a call compiles to: the instructions, and the expression for its output.
#[derive(Clone, Debug)]
pub struct CompiledInvocation {
    pub instructions: Vec<Instruction>,
    pub output: CellExpression,
}

/// Why a call cannot be compiled.
#[derive(Clone, Copy, Debug, PartialEq, Eq, Structural)]
pub enum InvocationError {
    /// An argument is not of the form that the function takes.
    InvalidReferenceExpressionForArgument,
}

/// The cell at the allocation pointer.
pub open spec fn at_ap(offset: i16) -> CellRef {
    CellRef { register: Register::AP, offset }
}

/// What `build_compress` gives for three arguments that are cells.
pub open spec fn compress_invocation(
    state: CellRef,
    byte_count: CellRef,
    message: CellRef,
    finalize: bool,
    invocation: &CompiledInvocation,
) -> bool {
    &&& invocation.instructions@.len() == 1
    &&& invocation.instructions@[0].body == InstructionBody::Blake2sCompress(
        Blake2sCompressInstruction { state, byte_count, message, finalize },
    )
    &&& invocation.instructions@[0].inc_ap
    &&& invocation.instructions@[0].hints@ == seq![
        Hint::AllocConstantSize { dst: at_ap(0i16), size: ResOperand::Immediate(8) },
    ]
    &&& invocation.output == CellExpression::Deref(at_ap(-1i16))
}

/// The instructions for one of the blake2s functions, on the expressions
/// for its three arguments: the state, the byte count and the message.
pub fn build(libfunc: BlakeConcreteLibfunc, arguments: &[CellExpression; 3]) -> (r: Result<
    CompiledInvocation,
    InvocationError,
>)
    ensures
        match r {
            Ok(invocation) => arguments@[0].spec_to_deref() is Some
                && arguments@[1].spec_to_deref() is Some && arguments@[2].spec_to_deref() is Some
                && compress_invocation(
                arguments@[0].spec_to_deref().unwrap(),
                arguments@[1].spec_to_deref().unwrap(),
                arguments@[2].spec_to_deref().unwrap(),
                libfunc is Blake2sFinalize,
                &invocation,
            ),
            Err(error) => error == InvocationError::InvalidReferenceExpressionForArgument && (
            arguments@[0].spec_to_deref() is None || arguments@[1].spec_to_deref() is None
                || arguments@[2].spec_to_deref() is None),
        },
{
    match libfunc {
        BlakeConcreteLibfunc::Blake2sCompress => build_compress(arguments, false),
        BlakeConcreteLibfunc::Blake2sFinalize => build_compress(arguments, true),
    }
}

/// The instruction that compresses one block: its three arguments have to
/// be cells. It allocates eight cells for the new state, whose start is
/// left in the cell just below the allocation pointer.
pub fn build_compress(arguments: &[CellExpression; 3], finalize: bool) -> (r: Result<
    CompiledInvocation,
    InvocationError,
>)
    ensures
        match r {
            Ok(invocation) => arguments@[0].spec_to_deref() is Some
                && arguments@[1].spec_to_deref() is Some && arguments@[2].spec_to_deref() is Some
                && compress_invocation(
                arguments@[0].spec_to_deref().unwrap(),
                arguments@[1].spec_to_deref().unwrap(),
                arguments@[2].spec_to_deref().unwrap(),
                finalize,
                &invocation,
            ),
            Err(error) => error == InvocationError::InvalidReferenceExpressionForArgument && (
            arguments@[0].spec_to_deref() is None || arguments@[1].spec_to_deref() is None
                || arguments@[2].spec_to_deref() is None),
        },
{
    let (state, byte_count, message) = match (
        arguments[0].to_deref(),
        arguments[1].to_deref(),
        arguments[2].to_deref(),
    ) {
        (Some(state), Some(byte_count), Some(message)) => (state, byte_count, message),
        _ => {
            return Err(InvocationError::InvalidReferenceExpressionForArgument);
        },
    };
    let mut hints: Vec<Hint> = Vec::new();
    hints.push(
        Hint::AllocConstantSize {
            dst: CellRef { register: Register::AP, offset: 0 },
            size: ResOperand::Immediate(8),
        },
    );
    let compress = Blake2sCompressInstruction { state, byte_count, message, finalize };
    let instruction = Instruction {
        hints,
        body: InstructionBody::Blake2sCompress(compress),
        inc_ap: true,
    };
    let fixed_output = CellExpression::Deref(CellRef { register: Register::AP, offset: -1 });
    let mut instructions: Vec<Instruction> = Vec::new();
    instructions.push(instruction);
    proof {
        assert(instructions@[0].hints@ =~= seq![
            Hint::AllocConstantSize { dst: at_ap(0i16), size: ResOperand::Immediate(8) },
        ]);
    }
    Ok(CompiledInvocation { instructions, output: fixed_output })
}

} // verus!
