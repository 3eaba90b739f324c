//! ICMPv6 echo and the two neighbour discovery messages a host needs.
use vstd::prelude::*;

use crate::bytes::{self, be16, be16_bytes};
use crate::net::addr::{Ipv6Addr, MacAddr};
use crate::net::checksum::{self, sealing};
use crate::net::error::NetError;

verus! {

/// The next-header value carrying these messages.
pub const PROTOCOL: u8 = 58;

/// The hop limit discovery is sent with and accepted at (RFC 4861 §3.1).
pub const HOPS: u8 = 255;

pub const ECHO_REQUEST: u8 = 128;

pub const ECHO_REPLY: u8 = 129;

pub const SOLICITATION: u8 = 135;

pub const ADVERTISEMENT: u8 = 136;

pub const SOURCE_LINK: u8 = 1;

pub const TARGET_LINK: u8 = 2;

pub const SOLICITED: u8 = 0x40;

pub const OVERRIDE: u8 = 0x20;

/// One ICMPv6 message this stack speaks.
#[derive(Clone, Copy, Debug, PartialEq, Eq)]
pub enum Message<'a> {
    EchoRequest { id: u16, seq: u16, data: &'a [u8] },
    EchoReply { id: u16, seq: u16, data: &'a [u8] },
    /// Asks which link address answers for `target`.
    Solicitation { target: Ipv6Addr, source: Option<MacAddr> },
    /// Answers that `hardware` does, either unprompted or because it was asked.
    Advertisement { target: Ipv6Addr, hardware: Option<MacAddr>, solicited: bool },
}

/// What a message says.
pub enum Said {
    EchoRequest { id: u16, seq: u16, data: Seq<u8> },
    EchoReply { id: u16, seq: u16, data: Seq<u8> },
    Solicitation { target: Seq<u8>, source: Option<Seq<u8>> },
    Advertisement { target: Seq<u8>, hardware: Option<Seq<u8>>, solicited: bool },
}

/// The octets of a link address, if there is one.
pub open spec fn octets(link: Option<MacAddr>) -> Option<Seq<u8>> {
    match link {
        Some(link) => Some(link.octets@),
        None => None,
    }
}

/// The link-layer address the options from `at` on hold: the first one of the
/// kind wanted, the whole chain being sound.
pub open spec fn link_from(s: Seq<u8>, at: int, want: u8, found: Option<Seq<u8>>) -> Result<
    Option<Seq<u8>>,
    NetError,
>
    decreases s.len() - at,
{
    if at < 0 || at >= s.len() {
        Ok(found)
    } else if at + 2 > s.len() || s[at + 1] == 0 || at + 8 * s[at + 1] > s.len() {
        Err(NetError::Malformed)
    } else {
        let here = if s[at] == want && s[at + 1] == 1 && found is None {
            Some(s.subrange(at + 2, at + 8))
        } else {
            found
        };
        link_from(s, at + 8 * s[at + 1], want, here)
    }
}

/// What the bytes between two addresses say.
pub open spec fn heard(src: Seq<u8>, dst: Seq<u8>, s: Seq<u8>) -> Result<Said, NetError> {
    if s.len() < 8 {
        Err(NetError::Malformed)
    } else if sealing(src, dst, PROTOCOL, s) != 0 {
        Err(NetError::Checksum)
    } else if s[1] != 0 {
        Err(NetError::Unsupported)
    } else if s[0] == ECHO_REQUEST {
        Ok(Said::EchoRequest { id: be16(s, 4) as u16, seq: be16(s, 6) as u16, data: s.skip(8) })
    } else if s[0] == ECHO_REPLY {
        Ok(Said::EchoReply { id: be16(s, 4) as u16, seq: be16(s, 6) as u16, data: s.skip(8) })
    } else if s[0] == SOLICITATION {
        if s.len() < 24 {
            Err(NetError::Malformed)
        } else {
            match link_from(s, 24, SOURCE_LINK, None) {
                Err(error) => Err(error),
                Ok(source) => Ok(Said::Solicitation { target: s.subrange(8, 24), source }),
            }
        }
    } else if s[0] == ADVERTISEMENT {
        if s.len() < 24 {
            Err(NetError::Malformed)
        } else {
            match link_from(s, 24, TARGET_LINK, None) {
                Err(error) => Err(error),
                Ok(hardware) => Ok(
                    Said::Advertisement {
                        target: s.subrange(8, 24),
                        hardware,
                        solicited: s[4] / 0x40 % 2 == 1,
                    },
                ),
            }
        }
    } else {
        Err(NetError::Unsupported)
    }
}

/// A link-layer address option, or nothing where there is no address.
pub open spec fn option_bytes(kind: u8, link: Option<Seq<u8>>) -> Seq<u8> {
    match link {
        Some(link) => seq![kind, 1u8] + link,
        None => seq![],
    }
}

/// A message before its checksum is put in.
pub open spec fn unsealed(said: Said) -> Seq<u8> {
    match said {
        Said::EchoRequest { id, seq, data } => seq![ECHO_REQUEST, 0u8, 0u8, 0u8] + be16_bytes(id)
            + be16_bytes(seq) + data,
        Said::EchoReply { id, seq, data } => seq![ECHO_REPLY, 0u8, 0u8, 0u8] + be16_bytes(id)
            + be16_bytes(seq) + data,
        Said::Solicitation { target, source } => seq![
            SOLICITATION,
            0u8,
            0u8,
            0u8,
            0u8,
            0u8,
            0u8,
            0u8,
        ] + target + option_bytes(SOURCE_LINK, source),
        Said::Advertisement { target, hardware, solicited } => seq![
            ADVERTISEMENT,
            0u8,
            0u8,
            0u8,
            if solicited {
                0x60u8
            } else {
                0x20u8
            },
            0u8,
            0u8,
            0u8,
        ] + target + option_bytes(TARGET_LINK, hardware),
    }
}

/// A message as it goes out between two addresses.
pub open spec fn sent(src: Seq<u8>, dst: Seq<u8>, said: Said) -> Seq<u8> {
    let s = unsealed(said);
    let sum = be16_bytes(sealing(src, dst, PROTOCOL, s) as u16);
    s.update(2, sum[0]).update(3, sum[1])
}

impl<'a> Message<'a> {
    pub open spec fn view(&self) -> Said {
        match self {
            Message::EchoRequest { id, seq, data } => Said::EchoRequest {
                id: *id,
                seq: *seq,
                data: data@,
            },
            Message::EchoReply { id, seq, data } => Said::EchoReply {
                id: *id,
                seq: *seq,
                data: data@,
            },
            Message::Solicitation { target, source } => Said::Solicitation {
                target: target.octets@,
                source: octets(*source),
            },
            Message::Advertisement { target, hardware, solicited } => Said::Advertisement {
                target: target.octets@,
                hardware: octets(*hardware),
                solicited: *solicited,
            },
        }
    }

    /// Reads a message whose checksum covers the addresses it arrived between.
    pub fn parse(src: Ipv6Addr, dst: Ipv6Addr, bytes: &'a [u8]) -> (message: Result<
        Self,
        NetError,
    >)
        ensures
            match message {
                Ok(message) => heard(src.octets@, dst.octets@, bytes@) == Ok::<Said, NetError>(
                    message@,
                ),
                Err(error) => heard(src.octets@, dst.octets@, bytes@) == Err::<Said, NetError>(
                    error,
                ),
            },
    {
        if bytes.len() < 8 {
            return Err(NetError::Malformed);
        }
        if checksum::over_ipv6(src, dst, PROTOCOL, bytes) != 0 {
            return Err(NetError::Checksum);
        }
        if bytes[1] != 0 {
            return Err(NetError::Unsupported);
        }
        let kind: u8 = bytes[0];
        if kind == ECHO_REQUEST || kind == ECHO_REPLY {
            let id: u16 = bytes::get_be16(bytes, 4);
            let seq: u16 = bytes::get_be16(bytes, 6);
            let data = vstd::slice::slice_subrange(bytes, 8, bytes.len());
            assert(data@ =~= bytes@.skip(8));
            return Ok(
                if kind == ECHO_REQUEST {
                    Message::EchoRequest { id, seq, data }
                } else {
                    Message::EchoReply { id, seq, data }
                },
            );
        }
        if kind == SOLICITATION || kind == ADVERTISEMENT {
            if bytes.len() < 24 {
                return Err(NetError::Malformed);
            }
            let target = Ipv6Addr::new(
                [
                    bytes[8],
                    bytes[9],
                    bytes[10],
                    bytes[11],
                    bytes[12],
                    bytes[13],
                    bytes[14],
                    bytes[15],
                    bytes[16],
                    bytes[17],
                    bytes[18],
                    bytes[19],
                    bytes[20],
                    bytes[21],
                    bytes[22],
                    bytes[23],
                ],
            );
            assert(target.octets@ =~= bytes@.subrange(8, 24));
            if kind == SOLICITATION {
                let source = option(bytes, 24, SOURCE_LINK)?;
                return Ok(Message::Solicitation { target, source });
            }
            let hardware = option(bytes, 24, TARGET_LINK)?;
            return Ok(
                Message::Advertisement { target, hardware, solicited: bytes[4] / 0x40 % 2 == 1 },
            );
        }
        Err(NetError::Unsupported)
    }

    /// Writes the message and the checksum binding it to `src` and `dst`.
    pub fn emit(&self, src: Ipv6Addr, dst: Ipv6Addr, bytes: &mut [u8]) -> (len: Result<
        usize,
        NetError,
    >)
        requires
            unsealed(self@).len() <= usize::MAX,
        ensures
            match len {
                Ok(len) => {
                    &&& len == unsealed(self@).len()
                    &&& len <= old(bytes)@.len()
                    &&& final(bytes)@ == sent(src.octets@, dst.octets@, self@) + old(bytes)@.skip(
                        len as int,
                    )
                },
                Err(error) => {
                    &&& old(bytes)@.len() < unsealed(self@).len()
                    &&& error == NetError::Buffer
                    &&& final(bytes)@ == old(bytes)@
                },
            },
    {
        let len: usize = self.bytes();
        if bytes.len() < len {
            return Err(NetError::Buffer);
        }
        let mut message = self.compose();
        let sum: u16 = checksum::over_ipv6(src, dst, PROTOCOL, message.as_slice());
        let ghost plain = message@;
        bytes::put_be16(message.as_mut_slice(), 2, sum);
        assert(message@ =~= sent(src.octets@, dst.octets@, self@));
        let ghost before = bytes@;
        bytes::copy_at(bytes, 0, message.as_slice());
        assert(bytes@ =~= message@ + before.skip(len as int));
        Ok(len)
    }

    /// The message with nothing where its checksum goes.
    fn compose(&self) -> (message: Vec<u8>)
        requires
            unsealed(self@).len() <= usize::MAX,
        ensures
            message@ == unsealed(self@),
            message@.len() >= 8,
    {
        let mut message: Vec<u8> = Vec::new();
        match *self {
            Message::EchoRequest { id, seq, data } => {
                echo(&mut message, ECHO_REQUEST, id, seq, data);
            },
            Message::EchoReply { id, seq, data } => {
                echo(&mut message, ECHO_REPLY, id, seq, data);
            },
            Message::Solicitation { target, source } => {
                discovery(&mut message, SOLICITATION, 0, target);
                emit_option(&mut message, SOURCE_LINK, source);
            },
            Message::Advertisement { target, hardware, solicited } => {
                // Override is always set: this host is the address's owner, so
                // a cached entry that disagrees is stale by construction.
                let flags: u8 = if solicited {
                    OVERRIDE + SOLICITED
                } else {
                    OVERRIDE
                };
                discovery(&mut message, ADVERTISEMENT, flags, target);
                emit_option(&mut message, TARGET_LINK, hardware);
            },
        }
        assert(message@ =~= unsealed(self@));
        message
    }

    /// How much room [`emit`](Self::emit) needs.
    pub fn bytes(&self) -> (len: usize)
        requires
            unsealed(self@).len() <= usize::MAX,
        ensures
            len == unsealed(self@).len(),
    {
        match *self {
            Message::EchoRequest { data, .. } => 8 + data.len(),
            Message::EchoReply { data, .. } => 8 + data.len(),
            Message::Solicitation { source, .. } => if source.is_some() {
                32
            } else {
                24
            },
            Message::Advertisement { hardware, .. } => if hardware.is_some() {
                32
            } else {
                24
            },
        }
    }
}

/// Appends an echo message.
fn echo(message: &mut Vec<u8>, kind: u8, id: u16, seq: u16, data: &[u8])
    requires
        old(message)@.len() == 0,
    ensures
        final(message)@ == seq![kind, 0u8, 0u8, 0u8] + be16_bytes(id) + be16_bytes(seq) + data@,
{
    message.push(kind);
    message.push(0);
    message.push(0);
    message.push(0);
    message.push((id / 0x100) as u8);
    message.push((id % 0x100) as u8);
    message.push((seq / 0x100) as u8);
    message.push((seq % 0x100) as u8);
    message.extend_from_slice(data);
    assert(message@ =~= seq![kind, 0u8, 0u8, 0u8] + be16_bytes(id) + be16_bytes(seq) + data@);
}

/// Appends the fixed part of a neighbour discovery message.
fn discovery(message: &mut Vec<u8>, kind: u8, flags: u8, target: Ipv6Addr)
    requires
        old(message)@.len() == 0,
    ensures
        final(message)@ == seq![kind, 0u8, 0u8, 0u8, flags, 0u8, 0u8, 0u8] + target.octets@,
{
    message.push(kind);
    message.push(0);
    message.push(0);
    message.push(0);
    message.push(flags);
    message.push(0);
    message.push(0);
    message.push(0);
    let octets: [u8; 16] = target.octets();
    message.extend_from_slice(&octets);
    assert(message@ =~= seq![kind, 0u8, 0u8, 0u8, flags, 0u8, 0u8, 0u8] + target.octets@);
}

/// Finds one link-layer address option, refusing a truncated option chain.
fn option(bytes: &[u8], from: usize, want: u8) -> (link: Result<Option<MacAddr>, NetError>)
    requires
        from <= bytes@.len(),
    ensures
        match link {
            Ok(link) => link_from(bytes@, from as int, want, None) == Ok::<
                Option<Seq<u8>>,
                NetError,
            >(octets(link)),
            Err(error) => link_from(bytes@, from as int, want, None) == Err::<
                Option<Seq<u8>>,
                NetError,
            >(error),
        },
{
    let mut found: Option<MacAddr> = None;
    let mut at: usize = from;
    assert(bytes.len() == bytes@.len());
    while at < bytes.len()
        invariant
            at <= bytes@.len(),
            bytes@.len() == bytes.len(),
            link_from(bytes@, from as int, want, None) == link_from(
                bytes@,
                at as int,
                want,
                octets(found),
            ),
        decreases bytes.len() - at,
    {
        if bytes.len() - at < 2 || bytes[at + 1] == 0 {
            return Err(NetError::Malformed);
        }
        let len: usize = 8 * bytes[at + 1] as usize;
        if bytes.len() - at < len {
            return Err(NetError::Malformed);
        }
        if bytes[at] == want && len == 8 && found.is_none() {
            let link = MacAddr::new(
                [
                    bytes[at + 2],
                    bytes[at + 3],
                    bytes[at + 4],
                    bytes[at + 5],
                    bytes[at + 6],
                    bytes[at + 7],
                ],
            );
            assert(link.octets@ =~= bytes@.subrange(at + 2, at + 8));
            found = Some(link);
        }
        at = at + len;
    }
    Ok(found)
}

/// Appends a link-layer address option, where there is an address.
fn emit_option(message: &mut Vec<u8>, kind: u8, link: Option<MacAddr>)
    ensures
        final(message)@ == old(message)@ + option_bytes(kind, octets(link)),
{
    let ghost before = message@;
    if let Some(link) = link {
        message.push(kind);
        message.push(1);
        let octets: [u8; 6] = link.octets();
        message.extend_from_slice(&octets);
    }
    assert(message@ =~= before + option_bytes(kind, octets(link)));
}

/// Whether the addresses in a message are as long as addresses are.
pub open spec fn sized(said: Said) -> bool {
    match said {
        Said::Solicitation { target, source } => target.len() == 16 && (source matches Some(link)
            ==> link.len() == 6),
        Said::Advertisement { target, hardware, .. } => target.len() == 16 && (hardware matches Some(
            link,
        ) ==> link.len() == 6),
        _ => true,
    }
}

/// Every message is heard as it was said, between the addresses it was sent
/// between.
pub proof fn law_message_survives(src: Seq<u8>, dst: Seq<u8>, said: Said)
    requires
        sized(said),
    ensures
        heard(src, dst, sent(src, dst, said)) == Ok::<Said, NetError>(said),
{
    let plain = unsealed(said);
    let s = sent(src, dst, said);
    checksum::law_sealed_payload_checks(src, dst, PROTOCOL, plain, s);
    assert(s.len() == plain.len());
    assert(forall|i: int| 4 <= i < s.len() ==> s[i] == plain[i]);
    match said {
        Said::EchoRequest { id, seq, data } => {
            lemma_echo(s, ECHO_REQUEST, id, seq, data);
        },
        Said::EchoReply { id, seq, data } => {
            lemma_echo(s, ECHO_REPLY, id, seq, data);
        },
        Said::Solicitation { target, source } => {
            assert(s.subrange(8, 24) =~= target);
            lemma_option(s, SOURCE_LINK, source);
        },
        Said::Advertisement { target, hardware, solicited } => {
            assert(s.subrange(8, 24) =~= target);
            lemma_option(s, TARGET_LINK, hardware);
            assert(0x60u8 / 0x40 % 2 == 1);
            assert(0x20u8 / 0x40 % 2 == 0);
        },
    }
}

proof fn lemma_echo(s: Seq<u8>, kind: u8, id: u16, seq: u16, data: Seq<u8>)
    requires
        s.len() == 8 + data.len(),
        forall|i: int|
            4 <= i < s.len() ==> s[i] == (seq![kind, 0u8, 0u8, 0u8] + be16_bytes(id) + be16_bytes(
                seq,
            ) + data)[i],
    ensures
        be16(s, 4) == id,
        be16(s, 6) == seq,
        s.skip(8) == data,
{
    bytes::law_be16_round_trip(id);
    bytes::law_be16_round_trip(seq);
    assert(s[4] == be16_bytes(id)[0]);
    assert(s[5] == be16_bytes(id)[1]);
    assert(s[6] == be16_bytes(seq)[0]);
    assert(s[7] == be16_bytes(seq)[1]);
    assert(s.skip(8) =~= data);
}

proof fn lemma_option(s: Seq<u8>, kind: u8, link: Option<Seq<u8>>)
    requires
        link matches Some(link) ==> link.len() == 6,
        s.len() == 24 + option_bytes(kind, link).len(),
        forall|i: int| 24 <= i < s.len() ==> #[trigger] s[i] == option_bytes(kind, link)[i - 24],
    ensures
        link_from(s, 24, kind, None) == Ok::<Option<Seq<u8>>, NetError>(link),
{
    reveal_with_fuel(link_from, 3);
    if let Some(link) = link {
        assert(s[24] == kind && s[25] == 1);
        assert(s.subrange(26, 32) =~= link);
        assert(link_from(s, 32, kind, Some(link)) == Ok::<Option<Seq<u8>>, NetError>(Some(link)));
    }
}

/// Every message's bytes before its checksum, place by place.
pub proof fn law_message_is_laid_out(said: Said)
    ensures
        match said {
            Said::EchoRequest { id, seq, data } => unsealed(said) == seq![
                128u8,
                0,
                0,
                0,
                (id / 256) as u8,
                (id % 256) as u8,
                (seq / 256) as u8,
                (seq % 256) as u8,
            ] + data,
            Said::EchoReply { id, seq, data } => unsealed(said) == seq![
                129u8,
                0,
                0,
                0,
                (id / 256) as u8,
                (id % 256) as u8,
                (seq / 256) as u8,
                (seq % 256) as u8,
            ] + data,
            Said::Solicitation { target, source } => unsealed(said) == seq![
                135u8,
                0,
                0,
                0,
                0,
                0,
                0,
                0,
            ] + target + match source {
                Some(link) => seq![1u8, 1] + link,
                None => seq![],
            },
            Said::Advertisement { target, hardware, solicited } => unsealed(said) == seq![
                136u8,
                0,
                0,
                0,
                if solicited {
                    96u8
                } else {
                    32u8
                },
                0,
                0,
                0,
            ] + target + match hardware {
                Some(link) => seq![2u8, 1] + link,
                None => seq![],
            },
        },
{
    match said {
        Said::EchoRequest { id, seq, data } => {
            assert(unsealed(said) =~= seq![
                128u8,
                0,
                0,
                0,
                (id / 256) as u8,
                (id % 256) as u8,
                (seq / 256) as u8,
                (seq % 256) as u8,
            ] + data);
        },
        Said::EchoReply { id, seq, data } => {
            assert(unsealed(said) =~= seq![
                129u8,
                0,
                0,
                0,
                (id / 256) as u8,
                (id % 256) as u8,
                (seq / 256) as u8,
                (seq % 256) as u8,
            ] + data);
        },
        _ => {},
    }
}

/// A message goes out as its bytes with its checksum in the third and fourth,
/// high byte first, bound to both addresses and to next header 58.
pub proof fn law_checksum_goes_in_bytes_two_and_three(src: Seq<u8>, dst: Seq<u8>, said: Said)
    requires
        src.len() == 16,
        dst.len() == 16,
        sized(said),
    ensures
        sent(src, dst, said).len() == unsealed(said).len(),
        256 * sent(src, dst, said)[2] + sent(src, dst, said)[3] == sealing(
            src,
            dst,
            58,
            unsealed(said),
        ),
        forall|i: int|
            0 <= i < unsealed(said).len() && i != 2 && i != 3 ==> #[trigger] sent(
                src,
                dst,
                said,
            )[i] == unsealed(said)[i],
{
    law_message_is_laid_out(said);
    checksum::lemma_range(src, dst, PROTOCOL, unsealed(said));
    bytes::law_be16_round_trip(sealing(src, dst, PROTOCOL, unsealed(said)) as u16);
}

/// One option of a discovery message.
pub struct Choice {
    pub kind: u8,
    /// Its length in units of eight bytes, its own two first bytes counted.
    pub units: u8,
    pub body: Seq<u8>,
}

/// Options one after another.
pub open spec fn choices(options: Seq<Choice>) -> Seq<u8>
    decreases options.len(),
{
    if options.len() == 0 {
        seq![]
    } else {
        seq![options[0].kind, options[0].units] + options[0].body + choices(options.skip(1))
    }
}

/// What the first option of a kind and of one unit holds.
pub open spec fn first_of_kind(options: Seq<Choice>, kind: u8) -> Option<Seq<u8>>
    decreases options.len(),
{
    if options.len() == 0 {
        None
    } else if options[0].kind == kind && options[0].units == 1 {
        Some(options[0].body)
    } else {
        first_of_kind(options.skip(1), kind)
    }
}

proof fn lemma_choices(
    s: Seq<u8>,
    at: int,
    options: Seq<Choice>,
    want: u8,
    found: Option<Seq<u8>>,
)
    requires
        0 <= at <= s.len(),
        s.skip(at) == choices(options),
        forall|i: int|
            0 <= i < options.len() ==> (#[trigger] options[i]).units > 0 && options[i].body.len()
                == 8 * options[i].units - 2,
    ensures
        link_from(s, at, want, found) == Ok::<Option<Seq<u8>>, NetError>(
            if found is Some {
                found
            } else {
                first_of_kind(options, want)
            },
        ),
    decreases options.len(),
{
    if options.len() == 0 {
        assert(at == s.len());
    } else {
        let first = options[0];
        let rest = options.skip(1);
        let all = choices(options);
        assert(first.units > 0);
        assert(all.len() == 8 * first.units + choices(rest).len());
        assert(s.skip(at)[0] == all[0] && s.skip(at)[1] == all[1]);
        assert(s[at] == first.kind && s[at + 1] == first.units);
        let next = at + 8 * first.units;
        assert(s.skip(next) =~= choices(rest)) by {
            assert(s.skip(next) =~= s.skip(at).skip(8 * first.units));
            assert(all.skip(8 * first.units) =~= choices(rest));
        }
        if first.units == 1 {
            assert(s.subrange(at + 2, at + 8) =~= first.body) by {
                assert forall|i: int| 0 <= i < 6 implies s[at + 2 + i] == #[trigger] first.body[i] by {
                    assert(s.skip(at)[2 + i] == all[2 + i]);
                }
            }
        }
        let here = if first.kind == want && first.units == 1 && found is None {
            Some(first.body)
        } else {
            found
        };
        assert forall|i: int| 0 <= i < rest.len() implies (#[trigger] rest[i]).units > 0
            && rest[i].body.len() == 8 * rest[i].units - 2 by {
            assert(options[i + 1].units > 0);
        }
        lemma_choices(s, next, rest, want, here);
    }
}

/// A discovery message that checks is heard as asking (type 135) or answering
/// (type 136) for the address in its bytes 8 to 24. The link address is that of
/// the first option that has one: of kind 1 in a question, of kind 2 in an
/// answer, whatever other options stand before it or behind. An answer was
/// asked for where the second highest bit of byte 4 is set.
pub proof fn law_first_link_option_is_heard(
    src: Seq<u8>,
    dst: Seq<u8>,
    s: Seq<u8>,
    options: Seq<Choice>,
)
    requires
        s.len() >= 24,
        s[0] == 135 || s[0] == 136,
        s[1] == 0,
        sealing(src, dst, 58, s) == 0,
        s.subrange(24, s.len() as int) == choices(options),
        forall|i: int|
            0 <= i < options.len() ==> (#[trigger] options[i]).units > 0 && options[i].body.len()
                == 8 * options[i].units - 2,
    ensures
        heard(src, dst, s) == Ok::<Said, NetError>(
            if s[0] == 135 {
                Said::Solicitation {
                    target: s.subrange(8, 24),
                    source: first_of_kind(options, 1),
                }
            } else {
                Said::Advertisement {
                    target: s.subrange(8, 24),
                    hardware: first_of_kind(options, 2),
                    solicited: 64 <= s[4] < 128 || 192 <= s[4],
                }
            },
        ),
{
    assert(s.skip(24) =~= s.subrange(24, s.len() as int));
    lemma_choices(s, 24, options, if s[0] == 135 { 1 } else { 2 }, None);
}

/// A message is refused for a checksum that does not come to nothing before
/// anything it says is looked at, and one shorter than eight bytes before that.
pub proof fn law_unsound_messages_are_refused(src: Seq<u8>, dst: Seq<u8>, s: Seq<u8>)
    ensures
        s.len() < 8 ==> heard(src, dst, s) == Err::<Said, NetError>(NetError::Malformed),
        s.len() >= 8 && sealing(src, dst, 58, s) != 0 ==> heard(src, dst, s) == Err::<
            Said,
            NetError,
        >(NetError::Checksum),
        s.len() >= 8 && sealing(src, dst, 58, s) == 0 && (s[1] != 0 || !(s[0] == 128 || s[0] == 129
            || s[0] == 135 || s[0] == 136)) ==> heard(src, dst, s) == Err::<Said, NetError>(
            NetError::Unsupported,
        ),
{
}

} // verus!
