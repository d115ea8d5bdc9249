//! A local authoritative DNS responder core: record store and resolution
//! engine. Records come from two sources, a DHCP lease table and a
//! hosts-style file, merged into one immutable snapshot that answers
//! address queries with exact and wildcard matching.

use vstd::prelude::*;

pub mod addr;
pub mod loader;
pub mod name;
pub mod reload;
pub mod resolver;
pub mod sources;
pub mod store;

verus! {

/// Default time-to-live, in seconds, for answer records when the
/// configuration does not set one.
pub fn default_ttl() -> (t: u32)
    ensures
        t == 60,
{
    60
}

} // verus!
