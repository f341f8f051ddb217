//! A deterministic concurrency model checker.
//!
//! The library exhaustively explores every meaningfully distinct
//! thread-scheduling and memory-ordering outcome of a test program whose
//! logical threads perform atomic operations on shared locations.
//! One complete run of the program is driven by a decision trail; after each
//! run the trail is advanced depth-first to the next unexplored outcome, until
//! the whole bounded state space has been covered.
//!
//! Scheduling is a single cooperative thread of control: exactly one logical
//! thread's operation executes between any two decision points, so a run is a
//! pure function of the trail, and a failing run can be replayed exactly.

pub mod codec;
pub mod execution;
pub mod model;
pub mod program;
pub mod scheduler;
pub mod semantics;
pub mod trail;

pub use crate::model::model;
