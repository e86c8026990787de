//! The reasons for which an analysis is refused.

use vstd::prelude::*;

verus! {

/// Why an analysis was refused.
#[derive(Debug, Clone, Copy, PartialEq, Eq, Structural)]
pub enum DetectError {
    /// The series holds no sample.
    InvalidInput,
}

} // verus!
