//! The network endpoint of a server.

use vstd::prelude::*;

verus! {

/// The address of a server: an IPv4 or IPv6 host and a port, as plain
/// numbers. A session is kept under the address it was opened for.
#[derive(Clone, Copy, Debug, PartialEq, Eq, Hash, Structural)]
pub enum Address {
    V4 { ip: u32, port: u16 },
    V6 { ip6: u128, port: u16, flowinfo: u32, scope_id: u32 },
}

} // verus!
