//! A cooperative ("green") thread scheduler for one core: a fixed pool of thread
//! control blocks, each with its own stack and saved register context, handed the
//! CPU in round-robin order. The scheduling decisions are verified here; the
//! register switch itself is performed by the caller with the contexts kept here.

pub mod context;
pub mod laws;
pub mod model;
pub mod runtime;
pub mod thread;

pub use context::ThreadContext;
pub use runtime::{PoolExhausted, Runtime};
pub use thread::{State, Thread};
