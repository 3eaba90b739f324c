//! Ethernet/IPv4 address resolution packets.
use vstd::prelude::*;

use crate::bytes::{self, be16_bytes};
use crate::net::addr::{Ipv4Addr, MacAddr};
use crate::net::error::NetError;

verus! {

/// An ARP request or reply.
#[derive(Clone, Copy, Debug, PartialEq, Eq, Structural)]
pub enum Operation {
    Request,
    Reply,
}

/// The number an operation has on the wire.
pub open spec fn number(operation: Operation) -> u16 {
    match operation {
        Operation::Request => 1,
        Operation::Reply => 2,
    }
}

/// The operation a number on the wire stands for.
pub open spec fn operation_of(value: int) -> Option<Operation> {
    if value == 1 {
        Some(Operation::Request)
    } else if value == 2 {
        Some(Operation::Reply)
    } else {
        None
    }
}

impl Operation {
    fn value(self) -> (value: u16)
        ensures
            value == number(self),
    {
        match self {
            Operation::Request => 1,
            Operation::Reply => 2,
        }
    }

    fn parse(value: u16) -> (operation: Result<Self, NetError>)
        ensures
            operation == match operation_of(value as int) {
                Some(operation) => Ok::<Operation, NetError>(operation),
                None => Err::<Operation, NetError>(NetError::Unsupported),
            },
    {
        if value == 1 {
            Ok(Operation::Request)
        } else if value == 2 {
            Ok(Operation::Reply)
        } else {
            Err(NetError::Unsupported)
        }
    }
}

/// A fixed Ethernet/IPv4 ARP packet.
#[derive(Clone, Copy, Debug, PartialEq, Eq)]
pub struct Packet {
    pub operation: Operation,
    pub tx_hardware: MacAddr,
    pub tx_protocol: Ipv4Addr,
    pub rx_hardware: MacAddr,
    pub rx_protocol: Ipv4Addr,
}

/// The bytes of a packet.
pub const LEN: usize = 28;

/// The bytes a packet is on the wire.
pub open spec fn wire(packet: Packet) -> Seq<u8> {
    seq![0u8, 1, 8, 0, 6, 4] + be16_bytes(number(packet.operation)) + packet.tx_hardware.octets@
        + packet.tx_protocol.octets@ + packet.rx_hardware.octets@ + packet.rx_protocol.octets@
}

/// Whether bytes carry an Ethernet/IPv4 packet of a known operation.
pub open spec fn spoken(s: Seq<u8>) -> bool {
    s.take(6) =~= seq![0u8, 1, 8, 0, 6, 4] && operation_of(bytes::be16(s, 6)) is Some
}

impl Packet {
    pub fn new(
        operation: Operation,
        tx_hardware: MacAddr,
        tx_protocol: Ipv4Addr,
        rx_hardware: MacAddr,
        rx_protocol: Ipv4Addr,
    ) -> (packet: Self)
        ensures
            packet == (Packet { operation, tx_hardware, tx_protocol, rx_hardware, rx_protocol }),
    {
        Packet { operation, tx_hardware, tx_protocol, rx_hardware, rx_protocol }
    }

    pub fn parse(bytes: &[u8]) -> (packet: Result<Self, NetError>)
        ensures
            match packet {
                Ok(packet) => bytes@.len() >= LEN && bytes@.take(LEN as int) == wire(packet),
                Err(error) => if bytes@.len() < LEN {
                    error == NetError::Malformed
                } else {
                    !spoken(bytes@) && error == NetError::Unsupported
                },
            },
    {
        if bytes.len() < LEN {
            return Err(NetError::Malformed);
        }
        let ghost s = bytes@;
        if bytes[0] != 0 || bytes[1] != 1 || bytes[2] != 8 || bytes[3] != 0 || bytes[4] != 6
            || bytes[5] != 4 {
            assert(s.take(6)[0] == s[0] && s.take(6)[1] == s[1] && s.take(6)[2] == s[2] && s.take(
                6,
            )[3] == s[3] && s.take(6)[4] == s[4] && s.take(6)[5] == s[5]);
            return Err(NetError::Unsupported);
        }
        let operation = Operation::parse(bytes::get_be16(bytes, 6))?;
        let packet = Packet::new(
            operation,
            MacAddr::new([bytes[8], bytes[9], bytes[10], bytes[11], bytes[12], bytes[13]]),
            Ipv4Addr::new(bytes[14], bytes[15], bytes[16], bytes[17]),
            MacAddr::new([bytes[18], bytes[19], bytes[20], bytes[21], bytes[22], bytes[23]]),
            Ipv4Addr::new(bytes[24], bytes[25], bytes[26], bytes[27]),
        );
        assert(s.take(28) =~= wire(packet));
        Ok(packet)
    }

    pub fn emit(&self, bytes: &mut [u8]) -> (len: Result<usize, NetError>)
        ensures
            match len {
                Ok(len) => {
                    &&& len == LEN
                    &&& old(bytes)@.len() >= LEN
                    &&& final(bytes)@ == wire(*self) + old(bytes)@.skip(LEN as int)
                },
                Err(error) => {
                    &&& old(bytes)@.len() < LEN
                    &&& error == NetError::Buffer
                    &&& final(bytes)@ == old(bytes)@
                },
            },
    {
        if bytes.len() < LEN {
            return Err(NetError::Buffer);
        }
        let ghost before = bytes@;
        bytes[0] = 0;
        bytes[1] = 1;
        bytes[2] = 8;
        bytes[3] = 0;
        bytes[4] = 6;
        bytes[5] = 4;
        bytes::put_be16(bytes, 6, self.operation.value());
        let tx: [u8; 6] = self.tx_hardware.octets();
        bytes::copy_at(bytes, 8, &tx);
        let tx: [u8; 4] = self.tx_protocol.octets();
        bytes::copy_at(bytes, 14, &tx);
        let rx: [u8; 6] = self.rx_hardware.octets();
        bytes::copy_at(bytes, 18, &rx);
        let rx: [u8; 4] = self.rx_protocol.octets();
        bytes::copy_at(bytes, 24, &rx);
        assert(bytes@ =~= wire(*self) + before.skip(28));
        Ok(LEN)
    }

    pub fn operation(self) -> (operation: Operation)
        ensures
            operation == self.operation,
    {
        self.operation
    }

    pub fn tx_hardware(self) -> (address: MacAddr)
        ensures
            address == self.tx_hardware,
    {
        self.tx_hardware
    }

    pub fn tx_protocol(self) -> (address: Ipv4Addr)
        ensures
            address == self.tx_protocol,
    {
        self.tx_protocol
    }

    pub fn rx_hardware(self) -> (address: MacAddr)
        ensures
            address == self.rx_hardware,
    {
        self.rx_hardware
    }

    pub fn rx_protocol(self) -> (address: Ipv4Addr)
        ensures
            address == self.rx_protocol,
    {
        self.rx_protocol
    }
}

/// A packet that was written is read back: its bytes are spoken here, and no
/// other packet has them.
pub proof fn law_packet_survives(packet: Packet, other: Packet)
    ensures
        wire(packet).len() == LEN,
        spoken(wire(packet)),
        wire(packet) == wire(other) ==> {
            &&& packet.operation == other.operation
            &&& packet.tx_hardware.octets@ == other.tx_hardware.octets@
            &&& packet.tx_protocol.octets@ == other.tx_protocol.octets@
            &&& packet.rx_hardware.octets@ == other.rx_hardware.octets@
            &&& packet.rx_protocol.octets@ == other.rx_protocol.octets@
        },
{
    let s = wire(packet);
    let t = wire(other);
    assert(s.take(6) =~= seq![0u8, 1, 8, 0, 6, 4]);
    assert(s.subrange(8, 14) =~= packet.tx_hardware.octets@);
    assert(t.subrange(8, 14) =~= other.tx_hardware.octets@);
    assert(s.subrange(14, 18) =~= packet.tx_protocol.octets@);
    assert(t.subrange(14, 18) =~= other.tx_protocol.octets@);
    assert(s.subrange(18, 24) =~= packet.rx_hardware.octets@);
    assert(t.subrange(18, 24) =~= other.rx_hardware.octets@);
    assert(s.subrange(24, 28) =~= packet.rx_protocol.octets@);
    assert(t.subrange(24, 28) =~= other.rx_protocol.octets@);
    assert(s[7] == number(packet.operation) % 256);
    assert(t[7] == number(other.operation) % 256);
}

/// A packet's bytes, place by place: Ethernet and IPv4 with addresses of six and
/// four bytes, the operation (1 asks, 2 answers), then who says it and of whom.
pub proof fn law_packet_is_laid_out(packet: Packet)
    ensures
        wire(packet).len() == 28,
        wire(packet).subrange(0, 8) == seq![
            0u8,
            1,
            8,
            0,
            6,
            4,
            0,
            match packet.operation {
                Operation::Request => 1u8,
                Operation::Reply => 2u8,
            },
        ],
        wire(packet).subrange(8, 14) == packet.tx_hardware.octets@,
        wire(packet).subrange(14, 18) == packet.tx_protocol.octets@,
        wire(packet).subrange(18, 24) == packet.rx_hardware.octets@,
        wire(packet).subrange(24, 28) == packet.rx_protocol.octets@,
{
    let s = wire(packet);
    assert(s.subrange(8, 14) =~= packet.tx_hardware.octets@);
    assert(s.subrange(14, 18) =~= packet.tx_protocol.octets@);
    assert(s.subrange(18, 24) =~= packet.rx_hardware.octets@);
    assert(s.subrange(24, 28) =~= packet.rx_protocol.octets@);
}

/// Bytes are a packet exactly where they open as one does and ask or answer.
pub proof fn law_only_requests_and_replies_are_spoken(s: Seq<u8>)
    requires
        s.len() >= 8,
    ensures
        spoken(s) <==> s.subrange(0, 7) == seq![0u8, 1, 8, 0, 6, 4, 0] && (s[7] == 1 || s[7] == 2),
{
    if spoken(s) {
        assert forall|i: int| 0 <= i < 6 implies s[i] == #[trigger] s.take(6)[i] by {}
        assert(s.subrange(0, 7) =~= seq![0u8, 1, 8, 0, 6, 4, 0]);
    }
    if s.subrange(0, 7) == seq![0u8, 1, 8, 0, 6, 4, 0] {
        assert(s.take(6) =~= s.subrange(0, 7).take(6));
        assert(s.subrange(0, 7)[6] == 0);
        assert(s[6] == 0);
    }
}

} // verus!
