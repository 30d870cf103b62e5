//! Pieces of the lowering of expressions.

pub mod external;
