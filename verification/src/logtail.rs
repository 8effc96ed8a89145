//! The log buffer policy.
//!
//! The log pseudo-file is read wholesale on each due tick and replaces the
//! previous buffer in full. The log is best-effort diagnostic data: a failed
//! read yields an empty buffer and is never surfaced as an error.

use vstd::prelude::*;

verus! {

/// What the log buffer becomes from a read of the log source: the content
/// when the read succeeded, and an empty buffer on any failure.
pub open spec fn log_buffer_spec(content: Option<Seq<u8>>) -> Seq<u8> {
    match content {
        Some(c) => c,
        None => Seq::<u8>::empty(),
    }
}

/// Rebuilds the log buffer from a read of the log source, as
/// `log_buffer_spec` says.
pub fn log_from_content(content: Option<Vec<u8>>) -> (r: Vec<u8>)
    ensures
        r@ == log_buffer_spec(
            match content {
                Some(c) => Some(c@),
                None => None,
            },
        ),
{
    match content {
        Some(c) => c,
        None => Vec::new(),
    }
}

} // verus!
