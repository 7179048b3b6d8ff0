//! How a run of the target ended.

use vstd::prelude::*;

verus! {

/// How a run of the target ended.
#[derive(Debug, Clone, Copy, PartialEq, Eq, Structural)]
pub enum StatusType {
    /// The target exited.
    Normal,
    /// The target ran out of time.
    Timeout,
    /// The target was killed by a signal, or a sanitizer stopped it.
    Crash,
    /// The seed timed out too often and is given up.
    Skip,
    /// The run could not be made.
    Error,
}

} // verus!
