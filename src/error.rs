//! The ways a run of the viewer can fail.
use vstd::prelude::*;

verus! {

/// Every failure ends the run; none is retried.
#[derive(Debug, Clone, Copy, PartialEq, Eq, Structural)]
pub enum HexViewError {
    /// A required command-line argument is absent.
    MissingArgument,
    /// The input file does not exist.
    FileNotFound,
    /// The input file cannot be opened for lack of permission.
    PermissionDenied,
    /// Any other read or write fault.
    OtherIoFailure,
    /// The patch destination already exists and is never overwritten.
    OutputAlreadyExists,
    /// The patch offset lacks its `0x` prefix or its digits do not parse.
    MalformedOffset,
    /// A hex token or hex line does not parse.
    MalformedHexToken,
}

} // verus!
