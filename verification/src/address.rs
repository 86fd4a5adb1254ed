//! Where packets come from and go to.

use vstd::prelude::*;

verus! {

/// The IPv4 address of the local host.
pub const LOCALHOST: u32 = 0x7f00_0001;

/// The address of a socket.
#[derive(Debug, Clone, Copy, PartialEq, Eq, Structural)]
pub enum PeerAddr {
    /// An IPv4 address.
    V4 {
        /// The four octets, most significant first.
        v4: u32,
        port: u16,
    },
    /// An IPv6 address.
    V6 {
        /// The sixteen octets, most significant first.
        v6: u128,
        port: u16,
        flowinfo: u32,
        scope_id: u32,
    },
}

} // verus!
