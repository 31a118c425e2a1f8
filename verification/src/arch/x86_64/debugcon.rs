//! The QEMU debug console at I/O port 0x402.

use vstd::prelude::*;

verus! {

/// The I/O port the debug console listens on.
pub const DEBUGCON_PORT: u16 = 0x402;

/// The debug console; bytes written to its port appear on the host.
#[derive(Clone, Copy, Debug, PartialEq, Eq, Structural)]
pub struct DebugCon;

impl DebugCon {
    pub fn new() -> (console: Self)
        ensures
            console == DebugCon,
    {
        DebugCon
    }

    /// The port the console writes to.
    pub fn port(&self) -> (port: u16)
        ensures
            port == DEBUGCON_PORT,
    {
        DEBUGCON_PORT
    }
}

} // verus!
