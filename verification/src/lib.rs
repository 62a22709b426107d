//! A small userspace TCP/IP stack whose protocol engine is verified.
use vstd::prelude::*;

pub mod bytes;
pub mod arp;
pub mod checksum;
pub mod ethernet;
pub mod icmp;
pub mod ipv4;
pub mod stack;
pub mod tcp;
pub mod tun;
pub mod udp;

pub use stack::{Config, Stack, StackEvent};

verus! {

/// A 48-bit Ethernet hardware address.
pub type MacAddr = [u8; 6];

} // verus!
