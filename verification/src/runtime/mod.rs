//! Runtime-facing logic: identifiers reported by runtimes, llama-swap's
//! metrics, event stream and colocation matrix.

pub mod util;
pub mod events;
pub mod decimal;
pub mod metrics;
pub mod matrix;
pub mod snapshots;
