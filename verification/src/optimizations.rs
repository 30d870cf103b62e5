//! Passes that rewrite a lowered function.

pub mod early_unsafe_panic;
