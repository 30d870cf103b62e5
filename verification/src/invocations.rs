//! Instructions for the calls of library functions.

pub mod blake;
