//! Dataflow analyses over a lowered intermediate representation: forward and
//! backward drivers, an equality analysis and an early-termination pass;
//! with them, the text of machine operands, the instructions for the
//! blake2s functions, and the outputs of extern functions as expressions.

pub mod analysis;
pub mod invocations;
pub mod ir;
pub mod lower;
pub mod operand;
pub mod optimizations;
pub mod ordered_map;
pub mod text;
