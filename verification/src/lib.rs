//! Storage-device benchmark orchestration library.
//!
//! The crate models a benchmark run as pure data: a job document
//! (sections of key/value options), the splitter that fans a document
//! into independently runnable jobs, the textual job format written for
//! the external load generator, the parser for that generator's output,
//! and the warmup-then-measure trial protocol with its aggregation rule.
//! Process management, file descriptors and rendering live outside the
//! library.

use vstd::prelude::*;

pub mod cli;
pub mod doc;
pub mod format;
pub mod logger;
pub mod output;
pub mod split;
pub mod trial;
pub mod version;

verus! {

/// Everything that can go wrong while orchestrating a benchmark run.
#[derive(Clone, Copy, Debug, PartialEq, Eq, Structural)]
pub enum BenchError {
    /// The job document text cannot be parsed into a document model.
    ConfigurationError,
    /// The external benchmark binary is absent.
    BackendUnavailable,
    /// A backend invocation exited with failure.
    ExecutionFailed,
    /// The backend's captured output held no parsable structured result.
    MalformedOutput,
    /// Too few retained trials to compute a mean.
    AggregationError,
}

} // verus!
