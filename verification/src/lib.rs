//! Parallel map over an owned sequence: apply a pure function to every
//! element, fanning the work out across worker threads and returning the
//! results in input order regardless of which worker finishes first.
//!
//! The core pieces — partitioning the input into offset-tagged chunks,
//! mapping each chunk, and reassembling the partial results by offset —
//! are verified. Dispatch runs on a `threadpool` worker pool and the
//! partial results travel back over a multi-producer channel, both behind
//! trusted wrappers with the contracts their documentation supports.

use vstd::prelude::*;

pub mod chunking;
pub mod mapper;
pub mod merge;
pub mod model;
pub mod pool;
pub mod seqmap;

pub use mapper::split;

verus! {

/// Inputs no longer than this are mapped sequentially: below this size the
/// cost of dispatching workers outweighs the work itself.
pub const PARALLELISM_THRESHOLD: usize = 4;

/// How a whole mapping call fails; no partial result is ever returned.
#[derive(Clone, Copy, Debug, PartialEq, Eq)]
pub enum SplitError {
    /// A worker terminated without handing back its partial result.
    WorkerFailure,
    /// The collected partial results do not fit the input back together:
    /// the channel delivered something no correct worker run explains.
    /// This is an internal invariant violation, never expected to occur.
    ChannelFailure,
}

} // verus!
