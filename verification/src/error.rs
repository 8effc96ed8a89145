//! The error kinds of the console core.
//!
//! Loads are maximally permissive and degrade to empty results, so only
//! saves, control writes, and partially decodable connection tables ever
//! surface one of these.

use vstd::prelude::*;

verus! {

#[derive(Clone, Copy, Debug, PartialEq, Eq, Structural)]
pub enum FwError {
    /// An open, read or write on a file or device failed.
    IoError,
    /// A rule row could not be encoded on save.
    SerializationError,
    /// One or more connection rows failed to decode during a refresh.
    PartialDataError,
}

} // verus!
