//! Device kinds the stack can run over.
use vstd::prelude::*;

verus! {

/// Whether the device carries raw IPv4 packets (TUN) or Ethernet frames (TAP).
#[derive(Debug, Clone, Copy, PartialEq, Eq)]
pub enum Mode {
    Tun,
    Tap,
}

} // verus!
