//! Answers of the message endpoints.
use vstd::prelude::*;

verus! {

/// The answer to deleting one message.
#[derive(Debug, Clone, Copy, PartialEq, Eq)]
pub struct DeleteResponse {
    pub deleted: bool,
}

/// The answer to clearing a mailbox.
#[derive(Debug, Clone, Copy, PartialEq, Eq)]
pub struct ClearResponse {
    pub deleted_count: u64,
}

} // verus!
