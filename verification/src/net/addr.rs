//! Link and internet addresses.
use vstd::prelude::*;

verus! {

/// An Ethernet address.
#[derive(Clone, Copy, Debug, PartialEq, Eq)]
pub struct MacAddr {
    pub octets: [u8; 6],
}

impl MacAddr {
    pub fn new(octets: [u8; 6]) -> (mac: Self)
        ensures
            mac.octets == octets,
    {
        MacAddr { octets }
    }

    pub fn octets(self) -> (octets: [u8; 6])
        ensures
            octets == self.octets,
    {
        self.octets
    }
}

/// An IPv4 address.
#[derive(Clone, Copy, Debug, PartialEq, Eq)]
pub struct Ipv4Addr {
    pub octets: [u8; 4],
}

impl Ipv4Addr {
    pub fn new(a: u8, b: u8, c: u8, d: u8) -> (address: Self)
        ensures
            address.octets@ == seq![a, b, c, d],
    {
        Ipv4Addr { octets: [a, b, c, d] }
    }

    pub fn octets(self) -> (octets: [u8; 4])
        ensures
            octets == self.octets,
    {
        self.octets
    }
}

/// An IPv6 address.
#[derive(Clone, Copy, Debug, PartialEq, Eq)]
pub struct Ipv6Addr {
    pub octets: [u8; 16],
}

impl Ipv6Addr {
    pub fn new(octets: [u8; 16]) -> (address: Self)
        ensures
            address.octets == octets,
    {
        Ipv6Addr { octets }
    }

    pub fn octets(self) -> (octets: [u8; 16])
        ensures
            octets == self.octets,
    {
        self.octets
    }
}

} // verus!
