//! The control channel: fire-and-forget command strings for the write-only
//! control device.
//!
//! Two literal commands exist: "toggle" flips the overall enabled state, and
//! "2" asks the kernel to reload the rules after a save. Their meaning beyond
//! that is the kernel side's contract, not this crate's. The caller writes
//! the bytes to the device and hands the outcome of that write back to
//! `send_outcome`, which turns it into the console's error type.

use crate::error::FwError;
use vstd::prelude::*;
use vstd::string::StringSliceAdditionalSpecFns;

verus! {

/// The command that flips the overall enabled/disabled state.
pub open spec fn toggle_command_spec() -> Seq<u8> {
    "toggle".spec_bytes()
}

/// The command that asks the kernel to reload the rules after a save.
pub open spec fn reload_command_spec() -> Seq<u8> {
    "2".spec_bytes()
}

pub fn toggle_command() -> (r: Vec<u8>)
    ensures
        r@ == toggle_command_spec(),
{
    vstd::slice::slice_to_vec("toggle".as_bytes())
}

pub fn reload_command() -> (r: Vec<u8>)
    ensures
        r@ == reload_command_spec(),
{
    vstd::slice::slice_to_vec("2".as_bytes())
}

/// Classifies the outcome of a device write: success is success, and any
/// failure is an I/O error, distinguishable from success and from every other
/// error kind. There is no acknowledgment beyond this and no retry.
pub fn send_outcome(written: bool) -> (r: Result<(), FwError>)
    ensures
        r is Ok <==> written,
        !written ==> r == Err::<(), FwError>(FwError::IoError),
{
    if written {
        Ok(())
    } else {
        Err(FwError::IoError)
    }
}

} // verus!
