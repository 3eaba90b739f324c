//! What passes between a driver and its device, number for number.
//!
//! The rest of the drivers speak in names. Here is what the names come to: the
//! registers touched and the values they carry, and what a driver makes of the
//! bytes a device left in memory.
use vstd::prelude::*;

use crate::bytes::{le16, le32, le64};
use crate::dma::{DeviceId, DmaError, DmaPerm, Iova};
use crate::virtio::command::{self, Config, Fault};
use crate::virtio::config;
use crate::virtio::error::{BlockError, VirtioError};
use crate::virtio::queue::{Queue, Used};
use crate::virtio::setup;
use crate::virtio::transport::{self, Capability, Found, Location, Transport};
use crate::window::{self, Access, Window};

verus! {

/// A number of `width` bytes stored low byte first in `image`.
pub open spec fn stored(image: Seq<u8>, at: u64, width: u64) -> int {
    if width == 1 {
        image[at as int] as int
    } else if width == 2 {
        le16(image, at as int)
    } else if width == 4 {
        le32(image, at as int)
    } else {
        le64(image, at as int)
    }
}

/// Whether everything read along `t` is what `image` holds.
pub open spec fn shows(image: Seq<u8>, t: Seq<Access>) -> bool {
    forall|i: int|
        0 <= i < t.len() ==> (#[trigger] t[i] matches Access::Read { at, width, value } ==> value
            == stored(image, at, width))
}

/// The requests an IOMMU is sent. Each is cleared first, opens with its type (1
/// to attach, 2 to detach, 3 to map, 4 to unmap), and names its domain at byte
/// 4. An endpoint stands at byte 8; so does a range, as its first and its last
/// address. A mapping adds the physical address and what is granted: 1 to read,
/// 2 to write.
pub proof fn law_requests_in_numbers(
    domain: u32,
    endpoint: DeviceId,
    iova: Iova,
    physical: u64,
    len: u64,
    perm: DmaPerm,
)
    requires
        0 < len,
        iova.address + len - 1 <= u64::MAX,
    ensures
        command::endpoint_request(command::ATTACH, domain, endpoint) == seq![
            Access::Clear,
            Access::Write { at: 0, width: 1, value: 1 },
            Access::Write { at: 4, width: 4, value: domain as u64 },
            Access::Write { at: 8, width: 4, value: endpoint.id as u64 },
        ],
        command::endpoint_request(command::DETACH, domain, endpoint) == seq![
            Access::Clear,
            Access::Write { at: 0, width: 1, value: 2 },
            Access::Write { at: 4, width: 4, value: domain as u64 },
            Access::Write { at: 8, width: 4, value: endpoint.id as u64 },
        ],
        command::map_request(domain, iova, physical, len, perm) == seq![
            Access::Clear,
            Access::Write { at: 0, width: 1, value: 3 },
            Access::Write { at: 4, width: 4, value: domain as u64 },
            Access::Write { at: 8, width: 8, value: iova.address },
            Access::Write { at: 16, width: 8, value: (iova.address + len - 1) as u64 },
            Access::Write { at: 24, width: 8, value: physical },
            Access::Write {
                at: 32,
                width: 4,
                value: match perm {
                    DmaPerm::Read => 1,
                    DmaPerm::Write => 2,
                    DmaPerm::ReadWrite => 3,
                },
            },
        ],
        command::unmap_request(domain, iova, len) == seq![
            Access::Clear,
            Access::Write { at: 0, width: 1, value: 4 },
            Access::Write { at: 4, width: 4, value: domain as u64 },
            Access::Write { at: 8, width: 8, value: iova.address },
            Access::Write { at: 16, width: 8, value: (iova.address + len - 1) as u64 },
        ],
        command::STATUS_AT_ATTACH == 20,
        command::STATUS_AT_MAP == 36,
        command::STATUS_AT_UNMAP == 28,
        command::STATUS_OK == 0,
        command::REQUEST_QUEUE == 0,
        command::EVENT_QUEUE == 1,
{
}

/// A fault says what the 24 bytes of its event hold: the reason first, the flags
/// at byte 4, the endpoint at byte 8, the address at byte 16.
pub proof fn law_fault_is_what_the_event_holds(image: Seq<u8>, at: int, fault: Fault)
    requires
        0 <= at,
        at + 24 <= image.len() <= u64::MAX,
        shows(image, command::fault_reads(at, fault)),
    ensures
        fault.reason == image[at],
        fault.flags == le32(image, at + 4),
        fault.endpoint.id == le32(image, at + 8),
        fault.address == le64(image, at + 16),
{
    let t = command::fault_reads(at, fault);
    assert(t[0] is Read && t[1] is Read && t[2] is Read && t[3] is Read);
}

/// A configuration is what the device's first 32 bytes hold.
pub proof fn law_configuration_is_what_the_device_shows(image: Seq<u8>, held: Config)
    requires
        image.len() >= 32,
        shows(image, command::config_fields(held)),
    ensures
        held.page_size_mask == le64(image, 0),
        held.input_start == le64(image, 8),
        held.input_end == le64(image, 16),
        held.domain_start == le32(image, 24),
        held.domain_end == le32(image, 28),
{
    let t = command::config_fields(held);
    assert(t[0] is Read && t[1] is Read && t[2] is Read && t[3] is Read && t[4] is Read);
}

/// The addresses a domain hands out lie inside the input range the device gave,
/// start on a page boundary past zero, and start no lower than 4 GiB where the
/// range leaves any there.
pub proof fn law_aperture_is_inside_the_input_range(start: u64, last: u64, page: u64)
    requires
        page > 0,
        command::aperture_of(start, last, page) is Some,
    ensures
        ({
            let (from, end) = command::aperture_of(start, last, page)->0;
            &&& start <= from
            &&& 0 < from < end
            &&& from % page == 0
            &&& end <= last + 1
            &&& last < u64::MAX ==> end == last + 1
            &&& from >= 0x1_0000_0000 || from < start + page || from == page
        }),
{
    let first = if start == 0 {
        1
    } else {
        start as int
    };
    let later = if 0x1_0000_0000 > crate::align::up(first, page as int) {
        0x1_0000_0000
    } else {
        crate::align::up(first, page as int)
    };
    crate::align::lemma_up(first, page as int);
    crate::align::lemma_up(later, page as int);
}

/// A feature handshake, register by register: the offer read in two halves, the
/// choice written in two halves, and FEATURES_OK (8) set and read back. What is
/// accepted is what was both offered and either wanted or the modern transport
/// (bit 32), and it is accepted only where that transport was offered and the
/// device left FEATURES_OK standing.
pub proof fn law_handshake_in_numbers(
    t: Seq<Access>,
    wanted: u64,
    low: u32,
    high: u32,
    status: u8,
    confirmed: u8,
    accepted: Result<u64, VirtioError>,
)
    requires
        config::negotiated(t, wanted, low, high, status, confirmed, accepted),
    ensures
        accepted is Ok <==> high % 2 == 1 && confirmed / 8 % 2 == 1,
        accepted is Err ==> accepted == Err::<u64, VirtioError>(VirtioError::Features),
        high % 2 == 0 ==> t.len() == 4,
        t.len() >= 4,
        t[0] == (Access::Write { at: 0, width: 4, value: 0 }),
        t[1] == (Access::Read { at: 4, width: 4, value: low as u64 }),
        t[2] == (Access::Write { at: 0, width: 4, value: 1 }),
        t[3] == (Access::Read { at: 4, width: 4, value: high as u64 }),
        high % 2 == 1 ==> {
            let offered = (high * 0x1_0000_0000 + low) as u64;
            let choice = offered & (wanted | 0x1_0000_0000);
            &&& t.len() == 11
            &&& t[4] == (Access::Write { at: 8, width: 4, value: 0 })
            &&& t[5] == (Access::Write { at: 12, width: 4, value: choice % 0x1_0000_0000 })
            &&& t[6] == (Access::Write { at: 8, width: 4, value: 1 })
            &&& t[7] == (Access::Write { at: 12, width: 4, value: choice / 0x1_0000_0000 })
            &&& t[8] == (Access::Read { at: 20, width: 1, value: status as u64 })
            &&& t[9] == (Access::Write { at: 20, width: 1, value: (status | 8u8) as u64 })
            &&& t[10] == (Access::Read { at: 20, width: 1, value: confirmed as u64 })
            &&& accepted is Ok ==> accepted == Ok::<u64, VirtioError>(choice)
        },
{
    let offered = (high * 0x1_0000_0000 + low) as u64;
    assert((offered & 0x1_0000_0000 == 0) == (offered / 0x1_0000_0000 % 2 == 0)) by (bit_vector);
    assert(offered / 0x1_0000_0000 == high);
    assert((confirmed & 8 == 0) == (confirmed / 8 % 2 == 0)) by (bit_vector);
}

/// A reset writes zero to the status register and reads it until it is zero, a
/// million times at most.
pub proof fn law_reset_in_numbers(t: Seq<Access>, settled: bool)
    requires
        config::reset_ran(t, settled),
    ensures
        t[0] == (Access::Write { at: 20, width: 1, value: 0 }),
        2 <= t.len() <= 1_000_001,
        forall|i: int|
            1 <= i < t.len() ==> (#[trigger] t[i] matches Access::Read { at, width, value } && at
                == 20 && width == 1 && (value == 0 ==> settled && i == t.len() - 1)),
        settled ==> t.last() == (Access::Read { at: 20, width: 1, value: 0 }),
        !settled ==> t.len() == 1_000_001,
{
    let last = t[t.len() - 1];
}

/// A device is reset, then acknowledged (1), then told of its driver (2), each
/// bit added to what the status register held.
pub proof fn law_greeting_in_numbers(t: Seq<Access>, reset: Seq<Access>, first: u8, second: u8)
    requires
        setup::greeted(t, reset, first, second),
    ensures
        config::reset_ran(reset, true),
        t == reset + seq![
            Access::Read { at: 20, width: 1, value: first as u64 },
            Access::Write { at: 20, width: 1, value: (first | 1u8) as u64 },
            Access::Read { at: 20, width: 1, value: second as u64 },
            Access::Write { at: 20, width: 1, value: (second | 2u8) as u64 },
        ],
{
}

/// A driver that is ready adds 4 to the status.
pub proof fn law_ready_in_numbers(status: u8)
    ensures
        config::added(status, config::DRIVER_OK) == seq![
            Access::Read { at: 20, width: 1, value: status as u64 },
            Access::Write { at: 20, width: 1, value: (status | 4u8) as u64 },
        ],
{
}

/// A queue is selected at 22 and its size read at 24; it is handed over as its
/// size at 24, its vector at 26, its descriptors at 32, what the driver offers
/// at 40 and what the device returns at 48, then switched on at 28. Where its
/// doorbell is is read at 30.
pub proof fn law_queue_is_handed_over_in_numbers<W: Window>(
    index: u16,
    max: u16,
    vector: u16,
    queue: Queue<W>,
    notify_off: u16,
)
    ensures
        setup::handed_over(index, max, vector, queue, notify_off) == seq![
            Access::Write { at: 22, width: 2, value: index as u64 },
            Access::Read { at: 24, width: 2, value: max as u64 },
            Access::Write { at: 24, width: 2, value: queue.size as u64 },
            Access::Write { at: 26, width: 2, value: vector as u64 },
            Access::Write { at: 32, width: 8, value: queue.descriptors.iova.address },
            Access::Write { at: 40, width: 8, value: queue.driver.iova.address },
            Access::Write { at: 48, width: 8, value: queue.device.iova.address },
            Access::Write { at: 28, width: 2, value: 1 },
            Access::Read { at: 30, width: 2, value: notify_off as u64 },
        ],
{
    assert(setup::handed_over(index, max, vector, queue, notify_off) =~= seq![
        Access::Write { at: 22, width: 2, value: index as u64 },
        Access::Read { at: 24, width: 2, value: max as u64 },
        Access::Write { at: 24, width: 2, value: queue.size as u64 },
        Access::Write { at: 26, width: 2, value: vector as u64 },
        Access::Write { at: 32, width: 8, value: queue.descriptors.iova.address },
        Access::Write { at: 40, width: 8, value: queue.driver.iova.address },
        Access::Write { at: 48, width: 8, value: queue.device.iova.address },
        Access::Write { at: 28, width: 2, value: 1 },
        Access::Read { at: 30, width: 2, value: notify_off as u64 },
    ]);
}

/// The register numbers the single accesses go by.
pub proof fn law_registers_are_where_they_are()
    ensures
        config::NUM_QUEUES == 18,
        config::DEVICE_STATUS == 20,
        config::CONFIG_GENERATION == 21,
        config::QUEUE_SELECT == 22,
        config::QUEUE_SIZE == 24,
        config::QUEUE_VECTOR == 26,
        config::QUEUE_ENABLE == 28,
        config::QUEUE_NOTIFY_OFF == 30,
        config::BYTES == 56,
{
}

/// What was read in a settled round was read between two generations that were
/// the same, and no earlier round of it was.
pub proof fn law_settled_round_is_the_last(rounds: Seq<(u8, u8)>)
    requires
        setup::unsettled(rounds, true),
    ensures
        rounds.last().0 == rounds.last().1,
        forall|r: int| 0 <= r < rounds.len() - 1 ==> (#[trigger] rounds[r]).0 != rounds[r].1,
        setup::generation_reads(rounds).len() == 2 * rounds.len(),
        forall|i: int|
            0 <= i < 2 * rounds.len() ==> #[trigger] setup::generation_reads(rounds)[i] == (
            Access::Read {
                at: 21,
                width: 1,
                value: if i % 2 == 0 {
                    rounds[i / 2].0 as u64
                } else {
                    rounds[i / 2].1 as u64
                },
            }),
{
    lemma_generations(rounds);
    let last = rounds[rounds.len() - 1];
}

proof fn lemma_generations(rounds: Seq<(u8, u8)>)
    ensures
        setup::generation_reads(rounds).len() == 2 * rounds.len(),
        forall|i: int|
            0 <= i < 2 * rounds.len() ==> #[trigger] setup::generation_reads(rounds)[i] == (
            Access::Read {
                at: 21,
                width: 1,
                value: if i % 2 == 0 {
                    rounds[i / 2].0 as u64
                } else {
                    rounds[i / 2].1 as u64
                },
            }),
    decreases rounds.len(),
{
    if rounds.len() > 0 {
        let before = rounds.drop_last();
        lemma_generations(before);
        let t = setup::generation_reads(before);
        assert forall|i: int|
            0 <= i < 2 * rounds.len() implies #[trigger] setup::generation_reads(rounds)[i] == (
        Access::Read {
            at: 21,
            width: 1,
            value: if i % 2 == 0 {
                rounds[i / 2].0 as u64
            } else {
                rounds[i / 2].1 as u64
            },
        }) by {
            if i < 2 * before.len() {
                assert(t[i] == setup::generation_reads(rounds)[i]);
                assert(before[i / 2] == rounds[i / 2]);
            }
        }
    }
}

/// The place the first vendor capability of a type gives, read out of a
/// function's configuration bytes: the BAR at byte 4 of the capability, the
/// offset at byte 8, the length at byte 12.
pub open spec fn placed(
    capabilities: Seq<Capability>,
    image: Seq<u8>,
    config_type: u8,
) -> Option<Location>
    decreases capabilities.len(),
{
    if capabilities.len() == 0 {
        None
    } else {
        let at = capabilities[0].offset as int;
        if capabilities[0].id == 9 && image[at + 3] == config_type {
            Some(
                Location {
                    bar: image[at + 4],
                    offset: le32(image, at + 8) as u32,
                    length: le32(image, at + 12) as u32,
                },
            )
        } else {
            placed(capabilities.skip(1), image, config_type)
        }
    }
}

/// The multiplier the first notification capability gives, at its byte 16.
pub open spec fn multiplied(capabilities: Seq<Capability>, image: Seq<u8>) -> int
    decreases capabilities.len(),
{
    if capabilities.len() == 0 {
        0
    } else {
        let at = capabilities[0].offset as int;
        if capabilities[0].id == 9 && image[at + 3] == 2 {
            le32(image, at + 16)
        } else {
            multiplied(capabilities.skip(1), image)
        }
    }
}

proof fn lemma_walked(
    capabilities: Seq<Capability>,
    image: Seq<u8>,
    found: Found,
    t: Seq<Access>,
    out: Found,
)
    requires
        image.len() <= u64::MAX,
        transport::walked(image.len(), capabilities, found, t, Ok(out)),
        shows(image, t),
        found.notify is None ==> found.multiplier == 0,
    ensures
        out.common == if found.common is Some {
            found.common
        } else {
            placed(capabilities, image, 1)
        },
        out.notify == if found.notify is Some {
            found.notify
        } else {
            placed(capabilities, image, 2)
        },
        out.device == if found.device is Some {
            found.device
        } else {
            placed(capabilities, image, 4)
        },
        out.multiplier == if found.notify is Some {
            found.multiplier as int
        } else {
            multiplied(capabilities, image)
        },
    decreases capabilities.len(),
{
    if capabilities.len() > 0 {
        let at = capabilities[0].offset as int;
        let rest = capabilities.skip(1);
        if capabilities[0].id != 9 {
            lemma_walked(rest, image, found, t, out);
        } else {
            let config_type = t[0]->Read_value;
            assert(config_type == image[at + 3]);
            match transport::structure(config_type as int) {
                None => {
                    assert(shows(image, t.skip(1)));
                    lemma_walked(rest, image, found, t.skip(1), out);
                },
                Some(kind) => {
                    let end = if kind is Notify {
                        5int
                    } else {
                        4
                    };
                    let (location, multiplier) = choose|location: Location, multiplier: u32|
                        {
                            &&& t.subrange(1, end) =~= #[trigger] transport::described(
                                at,
                                kind,
                                location,
                                multiplier,
                            )
                            &&& transport::walked(
                                image.len(),
                                rest,
                                found.met(kind, location, multiplier),
                                t.skip(end),
                                Ok(out),
                            )
                        };
                    let read = transport::described(at, kind, location, multiplier);
                    assert(t[1] == t.subrange(1, end)[0] && t[2] == t.subrange(1, end)[1] && t[3]
                        == t.subrange(1, end)[2]);
                    assert(t[1] == read[0] && t[2] == read[1] && t[3] == read[2]);
                    if kind is Notify {
                        assert(t[4] == t.subrange(1, end)[3]);
                        assert(t[4] == read[3]);
                    }
                    assert(shows(image, t.skip(end)));
                    lemma_walked(
                        rest,
                        image,
                        found.met(kind, location, multiplier),
                        t.skip(end),
                        out,
                    );
                },
            }
        }
    }
}

/// A device is found where its configuration bytes say: the first vendor
/// capability (9) of type 1 places its common structure, the first of type 2
/// the doorbells, the first of type 4 its own configuration. One that lacks any
/// of the three is refused.
pub proof fn law_structures_are_where_the_device_says(
    capabilities: Seq<Capability>,
    image: Seq<u8>,
    t: Seq<Access>,
    found: Found,
)
    requires
        image.len() <= u64::MAX,
        transport::walked(image.len(), capabilities, Found::none(), t, Ok(found)),
        shows(image, t),
    ensures
        transport::assembled(Ok(found)) == match (
            placed(capabilities, image, 1),
            placed(capabilities, image, 2),
            placed(capabilities, image, 4),
        ) {
            (Some(common), Some(notify), Some(device)) => Ok::<Transport, VirtioError>(
                Transport {
                    common,
                    notify,
                    device,
                    notify_multiplier: multiplied(capabilities, image) as u32,
                },
            ),
            _ => Err(VirtioError::Missing),
        },
{
    lemma_walked(capabilities, image, Found::none(), t, found);
}

/// What a queue hands back is what the device left in the used ring: nothing
/// while its index is the one last seen, and else the element behind that one,
/// the head in its low 16 bits and the length in its second word. The index
/// last seen then moves on by one.
pub proof fn law_returned_chain_is_the_next_one<W: Window>(
    before: Queue<W>,
    after: Queue<W>,
    used: Result<Option<Used>, VirtioError>,
    ring: Seq<u8>,
    t: Seq<Access>,
)
    requires
        before.wf(),
        after.wf(),
        before.popped(after, used),
        after.device.window.trace() == before.device.window.trace() + t,
        shows(ring, t),
    ensures
        used == Ok::<Option<Used>, VirtioError>(None) <==> le16(ring, 2) == before.used_seen,
        used is Err ==> used == Err::<Option<Used>, VirtioError>(VirtioError::Device)
            && after.used_seen == before.used_seen && after.available == before.available,
        used matches Ok(Some(returned)) ==> {
            let element = 4 + 8 * (before.used_seen as int % before.size as int);
            &&& returned.head == le32(ring, element) % 65536
            &&& returned.len == le32(ring, element + 4)
            &&& after.used_seen == (before.used_seen + 1) % 65536
            &&& after.available > before.available
        },
{
    let old_trace = before.device.window.trace();
    match used {
        Ok(None) => {
            let index = choose|index: u16| #[trigger] before.idle(after, index);
            let own = seq![window::read(2, 2, index as int)];
            assert(t =~= own) by {
                assert(after.device.window.trace() =~= old_trace + own);
                lemma_tails(old_trace, t, own);
            }
            assert(t[0] is Read);
        },
        _ => {
            let result: Result<Used, VirtioError> = match used {
                Ok(Some(returned)) => Ok(returned),
                Ok(None) => Err(VirtioError::Device),
                Err(error) => Err(error),
            };
            let (index, id, len, chain) = choose|
                index: u16,
                id: u32,
                len: u32,
                chain: Option<Seq<u16>>,
            | #[trigger] before.reaped(after, index, id, len, chain, result);
            let element = 4 + 8 * (before.used_seen as int % before.size as int);
            let own = seq![
                window::read(2, 2, index as int),
                window::read(element as u64, 4, id as int),
                window::read((element + 4) as u64, 4, len as int),
            ];
            assert(t =~= own) by {
                assert(after.device.window.trace() =~= old_trace + own);
                lemma_tails(old_trace, t, own);
            }
            assert(t[0] is Read && t[1] is Read && t[2] is Read);
            assert(after.stack().len() == after.available);
            assert(before.stack().len() == before.available);
            if before.fits(chain) {
                lemma_followed_some(before, after, (id % 0x1_0000) as u16, chain);
            }
        },
    }
}

/// A chain that was followed has a descriptor.
proof fn lemma_followed_some<W: Window>(
    before: Queue<W>,
    after: Queue<W>,
    head: u16,
    chain: Option<Seq<u16>>,
)
    requires
        chain is Some,
        exists|reads: Seq<Access>|
            #![trigger crate::virtio::queue::followed(before.size as int, head, seq![], reads, chain)]
            crate::virtio::queue::followed(before.size as int, head, seq![], reads, chain),
    ensures
        chain->0.len() > 0,
{
    let reads = choose|reads: Seq<Access>|
        #![trigger crate::virtio::queue::followed(before.size as int, head, seq![], reads, chain)]
        crate::virtio::queue::followed(before.size as int, head, seq![], reads, chain);
    lemma_followed_longer(before.size as int, head, seq![], reads, chain);
}

proof fn lemma_followed_longer(
    size: int,
    index: u16,
    seen: Seq<u16>,
    t: Seq<Access>,
    chain: Option<Seq<u16>>,
)
    requires
        chain is Some,
        crate::virtio::queue::followed(size, index, seen, t, chain),
    ensures
        chain->0.len() > seen.len(),
    decreases t.len(),
{
    if !(index >= size || seen.contains(index)) {
        let flags = t[0]->Read_value;
        let next = t[1]->Read_value;
        if flags % 2 != 0 && seen.len() + 1 < size {
            lemma_followed_longer(size, next as u16, seen.push(index), t.skip(2), chain);
        }
    }
}

proof fn lemma_tails(front: Seq<Access>, a: Seq<Access>, b: Seq<Access>)
    requires
        front + a == front + b,
    ensures
        a == b,
{
    assert((front + a).skip(front.len() as int) =~= a);
    assert((front + b).skip(front.len() as int) =~= b);
}

/// A queue is run at the device's size or the driver's limit, whichever is less,
/// and only where that is 1, 2, 4, 8, 16 or 32.
pub proof fn law_queue_size_in_numbers(device_max: u16, limit: u16)
    ensures
        ({
            let size = if device_max <= limit {
                device_max
            } else {
                limit
            };
            setup::clamped(device_max, limit) == if size == 1 || size == 2 || size == 4 || size == 8
                || size == 16 || size == 32 {
                Ok::<u16, VirtioError>(size)
            } else {
                Err(VirtioError::Device)
            }
        }),
        crate::virtio::queue::MAX_SIZE == 32,
        crate::virtio::net::NETWORK_SIZE == 8,
{
}

/// The configuration used is the one read last, and what was read then is what
/// it holds.
pub proof fn law_configuration_is_the_last_one_shown<W: Window>(
    common: W,
    common_after: W,
    device: W,
    device_after: W,
    held: Config,
)
    requires
        command::configured(common, common_after, device, device_after, held),
    ensures
        ({
            let t = device_after.trace();
            let n = t.len() as int;
            &&& n >= device.trace().len() + 5
            &&& t.subrange(n - 5, n) == seq![
                Access::Read { at: 0, width: 8, value: held.page_size_mask },
                Access::Read { at: 8, width: 8, value: held.input_start },
                Access::Read { at: 16, width: 8, value: held.input_end },
                Access::Read { at: 24, width: 4, value: held.domain_start as u64 },
                Access::Read { at: 28, width: 4, value: held.domain_end as u64 },
            ]
        }),
{
    let (rounds, configs) = choose|rounds: Seq<(u8, u8)>, configs: Seq<Config>|
        {
            &&& config::grew(common, common_after, setup::generation_reads(rounds))
            &&& config::grew(device, device_after, #[trigger] command::config_reads(configs))
            &&& #[trigger] setup::unsettled(rounds, true)
            &&& configs.len() == rounds.len()
            &&& held == configs.last()
        };
    let t = device_after.trace();
    let n = t.len() as int;
    assert(t =~= device.trace() + command::config_reads(configs.drop_last())
        + command::config_fields(held));
    assert(t.subrange(n - 5, n) =~= command::config_fields(held));
}

/// What a driver's refusal means to whoever asked for sectors: no answer in time,
/// a disk that takes no writes, and a run outside its memory stay what they are,
/// and everything else is the device's fault.
pub proof fn law_refusals_keep_their_meaning(error: VirtioError)
    ensures
        error.as_block() == BlockError::Timeout <==> error is Timeout,
        error.as_block() == BlockError::ReadOnly <==> error is ReadOnly,
        error.as_block() == BlockError::Range <==> error == VirtioError::Dma(DmaError::Range),
        error.as_block() == BlockError::Device || error.as_block() == BlockError::Timeout
            || error.as_block() == BlockError::ReadOnly || error.as_block() == BlockError::Range,
{
}

} // verus!
