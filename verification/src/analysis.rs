//! The dataflow framework and the analyses built on it.

pub mod backward;
pub mod dataflow;
pub mod edges;
pub mod equality_analysis;
pub mod equality_state;
pub mod forward;
pub mod knowledge;
pub mod validate;
pub mod worklist;
