//! The kernel's runtime bookkeeping.

pub mod runtime;
