use vstd::prelude::*;

pub mod ids;
pub mod text;
pub mod utf8;
pub mod types;
pub mod decisions;
pub mod policy;
pub mod config;
pub mod validation;
pub mod governance;
pub mod daemon;
pub mod runtime;
pub mod telemetry;

verus! {
} // verus!
