//! The errors that the search engine reports.
use vstd::prelude::*;

verus! {

/// Why an operation of the search engine was refused.
#[derive(Debug, Clone, Copy, PartialEq, Eq, Structural)]
pub enum SearchError {
    /// The operation needs a manager that was initialised.
    NotInitialized,
    /// The query has no value.
    EmptyQuery,
    /// The range of a group query is smaller than its values together.
    RangeTooSmall,
    /// The result store refused the operation.
    ResultStoreError,
}

} // verus!
