use molt::net::addr::{Ipv4Addr, Ipv6Addr, MacAddr};
use molt::net::arp::{self, Operation, Packet};
use molt::net::checksum;
use molt::net::error::NetError;
use molt::net::icmpv6::{Message, PROTOCOL};

fn address(last: u8) -> Ipv6Addr {
    let mut octets = [0u8; 16];
    octets[0] = 0xfe;
    octets[1] = 0x80;
    octets[15] = last;
    Ipv6Addr::new(octets)
}

fn packet() -> Packet {
    Packet::new(
        Operation::Request,
        MacAddr::new([1, 2, 3, 4, 5, 6]),
        Ipv4Addr::new(10, 0, 2, 15),
        MacAddr::new([0; 6]),
        Ipv4Addr::new(10, 0, 2, 2),
    )
}

#[test]
fn arp_packet_survives_round_trip() {
    let mut bytes = [0xaau8; 40];

    assert_eq!(packet().emit(&mut bytes), Ok(arp::LEN));

    assert_eq!(&bytes[..8], &[0, 1, 8, 0, 6, 4, 0, 1]);
    assert_eq!(&bytes[14..18], &[10, 0, 2, 15]);
    assert_eq!(bytes[28], 0xaa, "the bytes past the packet were touched");
    let read = Packet::parse(&bytes).unwrap();
    assert_eq!(read, packet());
    assert_eq!(read.operation(), Operation::Request);
    assert_eq!(read.tx_hardware().octets(), [1, 2, 3, 4, 5, 6]);
    assert_eq!(read.rx_protocol().octets(), [10, 0, 2, 2]);
}

#[test]
fn arp_refusals() {
    let mut bytes = [0u8; 28];
    packet().emit(&mut bytes).unwrap();

    assert_eq!(Packet::parse(&bytes[..27]), Err(NetError::Malformed));
    assert_eq!(packet().emit(&mut [0u8; 27]), Err(NetError::Buffer));
    bytes[7] = 3;
    assert_eq!(Packet::parse(&bytes), Err(NetError::Unsupported), "an unknown operation");
    bytes[7] = 2;
    assert_eq!(Packet::parse(&bytes).unwrap().operation(), Operation::Reply);
    bytes[4] = 7;
    assert_eq!(Packet::parse(&bytes), Err(NetError::Unsupported), "not Ethernet");
}

#[test]
fn checksum_of_known_bytes() {
    // ff02::1 is all zero but for three bytes, so the sum can be done by hand.
    let zero = Ipv6Addr::new([0; 16]);

    let sum = checksum::over_ipv6(zero, zero, PROTOCOL, &[0x12, 0x34, 0x56]);

    assert_eq!(sum, !(0x1234u16 + 0x5600 + 3 + 58));
}

#[test]
fn echo_survives_round_trip() {
    let (src, dst) = (address(1), address(2));
    let message = Message::EchoRequest { id: 0x1234, seq: 7, data: b"ping!" };
    let mut bytes = [0xaau8; 32];

    let len = message.emit(src, dst, &mut bytes).unwrap();

    assert_eq!((len, message.bytes()), (13, 13));
    assert_eq!(&bytes[..2], &[128, 0]);
    assert_eq!(bytes[13], 0xaa);
    assert_eq!(checksum::over_ipv6(src, dst, PROTOCOL, &bytes[..len]), 0);
    assert_eq!(Message::parse(src, dst, &bytes[..len]), Ok(message));
    assert_eq!(
        Message::parse(src, address(3), &bytes[..len]),
        Err(NetError::Checksum),
        "bound to another destination"
    );
    assert_eq!(message.emit(src, dst, &mut [0u8; 12]), Err(NetError::Buffer));
}

#[test]
fn discovery_survives_round_trip() {
    let (src, dst) = (address(1), address(2));
    let link = MacAddr::new([2, 4, 6, 8, 10, 12]);
    let messages = [
        Message::EchoReply { id: 1, seq: 2, data: b"" },
        Message::Solicitation { target: address(9), source: Some(link) },
        Message::Solicitation { target: address(9), source: None },
        Message::Advertisement { target: address(9), hardware: Some(link), solicited: true },
        Message::Advertisement { target: address(9), hardware: None, solicited: false },
    ];

    for message in messages {
        let mut bytes = [0u8; 32];
        let len = message.emit(src, dst, &mut bytes).unwrap();
        assert_eq!(Message::parse(src, dst, &bytes[..len]), Ok(message));
    }
}

/// Puts a sound checksum on a message written by hand.
fn sealed(src: Ipv6Addr, dst: Ipv6Addr, mut bytes: Vec<u8>) -> Vec<u8> {
    bytes[2] = 0;
    bytes[3] = 0;
    let sum = checksum::over_ipv6(src, dst, PROTOCOL, &bytes);
    bytes[2..4].copy_from_slice(&sum.to_be_bytes());
    bytes
}

#[test]
fn discovery_options_are_walked() {
    let (src, dst) = (address(1), address(2));
    let mut bytes = vec![0u8; 24];
    bytes[0] = 135;
    // An option of another kind, then the one that is wanted.
    bytes.extend_from_slice(&[5, 2, 0, 0, 0, 0, 0, 0, 0, 0, 0, 0, 0, 0, 0, 0]);
    bytes.extend_from_slice(&[1, 1, 9, 8, 7, 6, 5, 4]);

    let parsed = sealed(src, dst, bytes.clone());
    assert_eq!(
        Message::parse(src, dst, &parsed),
        Ok(Message::Solicitation {
            target: Ipv6Addr::new([0; 16]),
            source: Some(MacAddr::new([9, 8, 7, 6, 5, 4])),
        })
    );

    bytes[41] = 0;
    let empty = sealed(src, dst, bytes.clone());
    assert_eq!(Message::parse(src, dst, &empty), Err(NetError::Malformed), "an empty option");
    bytes[41] = 2;
    let long = sealed(src, dst, bytes);
    assert_eq!(Message::parse(src, dst, &long), Err(NetError::Malformed), "a truncated option");
}

#[test]
fn unknown_messages_are_refused() {
    let (src, dst) = (address(1), address(2));

    assert_eq!(Message::parse(src, dst, &[128; 7]), Err(NetError::Malformed));
    let other = sealed(src, dst, vec![1, 0, 0, 0, 0, 0, 0, 0]);
    assert_eq!(Message::parse(src, dst, &other), Err(NetError::Unsupported));
    let code = sealed(src, dst, vec![128, 1, 0, 0, 0, 0, 0, 0]);
    assert_eq!(Message::parse(src, dst, &code), Err(NetError::Unsupported));
    let short = sealed(src, dst, vec![136, 0, 0, 0, 0, 0, 0, 0]);
    assert_eq!(Message::parse(src, dst, &short), Err(NetError::Malformed));
}
