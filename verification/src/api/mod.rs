//! The HTTP interface's own rules: generating addresses, the records it
//! answers with, and the selection of events for a live inbox.
pub mod address;
pub mod emails;
pub mod sse;

use vstd::prelude::*;

verus! {

/// The port on which the HTTP interface listens unless configured otherwise.
pub const HTTP_PORT_DEFAULT: u16 = 3001;

} // verus!
