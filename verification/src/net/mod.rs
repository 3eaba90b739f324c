//! The packets and the link of the network stack.
pub mod addr;
pub mod arp;
pub mod checksum;
pub mod error;
pub mod icmpv6;
pub mod link;
