//! What a client of the catalog has to keep to.

use vstd::prelude::*;

verus! {

/// The most requests per second that the catalog takes from one client.
pub const REQUESTS_PER_SECOND: u32 = 5;

/// The name under which the client introduces itself.
pub const USER_AGENT: &'static str = "biomeat/0.1.0";

} // verus!
