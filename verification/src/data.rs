//! Packet formats.

pub mod arp;
