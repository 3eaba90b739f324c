//! What a VirtIO IOMMU is configured with, and the requests and events it
//! trades.
use vstd::prelude::*;

use crate::align;
use crate::dma::{DeviceId, DmaError, DmaPerm, Iova, Mapping};
use crate::virtio::config::{self, grew, Common};
use crate::virtio::error::VirtioError;
use crate::virtio::queue;
use crate::virtio::setup::{self, generation_reads, unsettled, CONFIG_SPINS};
use crate::window::{self, Access, MmioError, Window};

verus! {

/// The features asked for.
pub const WANTED: u64 = 0x77;

/// The features the driver cannot do without: the input range, the domain
/// range, and map and unmap requests.
pub const REQUIRED: u64 = 0x7;

pub const REQUEST_QUEUE: u16 = 0;

pub const EVENT_QUEUE: u16 = 1;

pub const ATTACH: u8 = 1;

pub const DETACH: u8 = 2;

pub const MAP: u8 = 3;

pub const UNMAP: u8 = 4;

pub const STATUS_OK: u8 = 0;

pub const STATUS_AT_ATTACH: u64 = 20;

pub const STATUS_AT_MAP: u64 = 36;

pub const STATUS_AT_UNMAP: u64 = 28;

pub const MAP_READ: u32 = 1;

pub const MAP_WRITE: u32 = 2;

pub const REQUEST_BYTES: u64 = 40;

pub const EVENT_BYTES: u64 = 24;

/// Where a domain's addresses start, if its input range reaches that far.
pub const PREFERRED_IOVA: u64 = 0x1_0000_0000;

/// The device configuration.
#[derive(Clone, Copy, Debug, PartialEq, Eq, Structural)]
pub struct Config {
    pub page_size_mask: u64,
    pub input_start: u64,
    pub input_end: u64,
    pub domain_start: u32,
    pub domain_end: u32,
}

/// The configuration, read field by field.
pub open spec fn config_fields(config: Config) -> Seq<Access> {
    seq![
        window::read(0, 8, config.page_size_mask as int),
        window::read(8, 8, config.input_start as int),
        window::read(16, 8, config.input_end as int),
        window::read(24, 4, config.domain_start as int),
        window::read(28, 4, config.domain_end as int),
    ]
}

pub open spec fn config_reads(configs: Seq<Config>) -> Seq<Access>
    decreases configs.len(),
{
    if configs.len() == 0 {
        seq![]
    } else {
        config_reads(configs.drop_last()) + config_fields(configs.last())
    }
}

/// Both windows once the configuration was read out of them.
pub open spec fn configured<W: Window>(
    common: W,
    common_after: W,
    device: W,
    device_after: W,
    config: Config,
) -> bool {
    exists|rounds: Seq<(u8, u8)>, configs: Seq<Config>|
        {
            &&& grew(common, common_after, generation_reads(rounds))
            &&& grew(device, device_after, #[trigger] config_reads(configs))
            &&& #[trigger] unsettled(rounds, true)
            &&& configs.len() == rounds.len()
            &&& config == configs.last()
        }
}

/// Reads the configuration, again while the device is changing it.
pub fn read_config<W: Window>(common: &mut Common<W>, device: &mut W) -> (config: Result<
    Config,
    VirtioError,
>)
    ensures
        final(common).window.span() == old(common).window.span(),
        final(device).span() == old(device).span(),
        match config {
            Ok(config) => {
                &&& old(common).window.span() > config::CONFIG_GENERATION
                &&& old(device).span() >= 32
                &&& configured(
                    old(common).window,
                    final(common).window,
                    *old(device),
                    *final(device),
                    config,
                )
            },
            Err(error) => if old(common).window.span() > config::CONFIG_GENERATION && old(
                device,
            ).span() >= 32 {
                error == VirtioError::Device && exists|rounds: Seq<(u8, u8)>|
                    #[trigger] unsettled(rounds, false) && grew(
                        old(common).window,
                        final(common).window,
                        generation_reads(rounds),
                    )
            } else {
                error == VirtioError::Mmio(MmioError::Range)
            },
        },
{
    let ghost before = common.window;
    let ghost shown = *device;
    let ghost mut rounds: Seq<(u8, u8)> = seq![];
    let ghost mut configs: Seq<Config> = seq![];
    let mut spin: u32 = 0;
    while spin < CONFIG_SPINS
        invariant
            spin <= CONFIG_SPINS,
            before == old(common).window,
            shown == *old(device),
            spin > 0 ==> before.span() > config::CONFIG_GENERATION && shown.span() >= 32,
            grew(before, common.window, generation_reads(rounds)),
            grew(shown, *device, config_reads(configs)),
            rounds.len() == spin,
            configs.len() == spin,
            forall|r: int| 0 <= r < spin ==> (#[trigger] rounds[r]).0 != rounds[r].1,
        decreases CONFIG_SPINS - spin,
    {
        let first: u8 = common.config_generation()?;
        let config = read_fields(device)?;
        let second: u8 = common.config_generation()?;
        proof {
            setup::lemma_generation_reads(rounds, first, second);
            assert(configs.push(config).drop_last() =~= configs);
            rounds = rounds.push((first, second));
            configs = configs.push(config);
            assert(grew(before, common.window, generation_reads(rounds)));
            assert(grew(shown, *device, config_reads(configs)));
        }
        if first == second {
            assert(unsettled(rounds, true));
            return Ok(config);
        }
        spin = spin + 1;
    }
    assert(unsettled(rounds, false));
    Err(VirtioError::Device)
}

fn read_fields<W: Window>(device: &mut W) -> (config: Result<Config, VirtioError>)
    ensures
        final(device).span() == old(device).span(),
        match config {
            Ok(config) => old(device).span() >= 32 && grew(
                *old(device),
                *final(device),
                config_fields(config),
            ),
            Err(error) => old(device).span() < 32 && error == VirtioError::Mmio(MmioError::Range),
        },
{
    let page_size_mask: u64 = match device.read_u64(0) {
        Ok(value) => value,
        Err(error) => return Err(VirtioError::from(error)),
    };
    let input_start: u64 = match device.read_u64(8) {
        Ok(value) => value,
        Err(error) => return Err(VirtioError::from(error)),
    };
    let input_end: u64 = match device.read_u64(16) {
        Ok(value) => value,
        Err(error) => return Err(VirtioError::from(error)),
    };
    let domain_start: u32 = match device.read_u32(24) {
        Ok(value) => value,
        Err(error) => return Err(VirtioError::from(error)),
    };
    let domain_end: u32 = match device.read_u32(28) {
        Ok(value) => value,
        Err(error) => return Err(VirtioError::from(error)),
    };
    Ok(Config { page_size_mask, input_start, input_end, domain_start, domain_end })
}

/// Whether `page` is the lowest bit set in `mask`.
pub open spec fn lowest_bit(mask: int, page: int) -> bool {
    exists|k: nat, odd: int|
        {
            &&& page == #[trigger] vstd::arithmetic::power2::pow2(k)
            &&& mask == #[trigger] (odd * page)
            &&& odd % 2 == 1
        }
}

/// A mask has one lowest bit.
pub proof fn lemma_lowest_bit(mask: int, page: int, other: int)
    requires
        mask > 0,
        lowest_bit(mask, page),
        lowest_bit(mask, other),
    ensures
        page == other,
{
    let (k, odd) = choose|k: nat, odd: int|
        {
            &&& page == #[trigger] vstd::arithmetic::power2::pow2(k)
            &&& mask == #[trigger] (odd * page)
            &&& odd % 2 == 1
        };
    let (j, other_odd) = choose|j: nat, odd: int|
        {
            &&& other == #[trigger] vstd::arithmetic::power2::pow2(j)
            &&& mask == #[trigger] (odd * other)
            &&& odd % 2 == 1
        };
    if k < j {
        lemma_even(k, j, odd, other_odd);
    } else if j < k {
        lemma_even(j, k, other_odd, odd);
    }
}

/// A multiple of a higher power of two is no odd multiple of a lower one.
proof fn lemma_even(low: nat, high: nat, odd: int, times: int)
    requires
        low < high,
        odd * vstd::arithmetic::power2::pow2(low) == times * vstd::arithmetic::power2::pow2(high),
    ensures
        odd % 2 == 0,
{
    let small = vstd::arithmetic::power2::pow2(low) as int;
    let rest = vstd::arithmetic::power2::pow2((high - low - 1) as nat) as int;
    vstd::arithmetic::power2::lemma_pow2_pos(low);
    vstd::arithmetic::power2::lemma_pow2_adds(low, (high - low) as nat);
    vstd::arithmetic::power2::lemma_pow2_unfold((high - low) as nat);
    assert(odd == 2 * (times * rest)) by (nonlinear_arith)
        requires
            odd * small == times * (small * (2 * rest)),
            small > 0,
    ;
}

/// The smallest page a mask of page sizes allows.
pub fn page_size(mask: u64) -> (page: Result<u64, VirtioError>)
    ensures
        match page {
            Ok(page) => mask != 0 && page > 0 && lowest_bit(mask as int, page as int),
            Err(error) => mask == 0 && error == VirtioError::Device,
        },
{
    if mask == 0 {
        return Err(VirtioError::Device);
    }
    let mut page: u64 = 1;
    let mut rest: u64 = mask;
    let ghost mut k: nat = 0;
    proof {
        vstd::arithmetic::power2::lemma2_to64();
    }
    while rest % 2 == 0
        invariant
            rest > 0,
            page > 0,
            mask == rest * page,
            page == vstd::arithmetic::power2::pow2(k),
        decreases rest,
    {
        let ghost half = rest / 2;
        assert(half * (page * 2) == rest * page) by (nonlinear_arith)
            requires
                rest == half * 2,
        ;
        assert(page * 2 <= half * (page * 2)) by (nonlinear_arith)
            requires
                half >= 1,
                page > 0,
        ;
        proof {
            vstd::arithmetic::power2::lemma_pow2_unfold(k + 1);
            k = k + 1;
        }
        rest = rest / 2;
        page = page * 2;
    }
    assert(mask == (rest as int) * (page as int));
    Ok(page)
}

/// The addresses a domain may use: the input range on page boundaries, from
/// the preferred address on where that leaves any.
pub open spec fn aperture_of(start: u64, inclusive_end: u64, page: u64) -> Option<(u64, u64)> {
    let from = align::up(if start == 0 { 1 } else { start as int }, page as int);
    let preferred = align::up(if PREFERRED_IOVA > from { PREFERRED_IOVA as int } else { from }, page as int);
    let end = if inclusive_end == u64::MAX {
        u64::MAX - (page - 1)
    } else {
        inclusive_end + 1
    };
    let chosen = if preferred < end { preferred } else { from };
    if from > u64::MAX || preferred > u64::MAX || chosen >= end {
        None
    } else {
        Some((chosen as u64, end as u64))
    }
}

pub fn aperture(start: u64, inclusive_end: u64, page: u64) -> (bounds: Result<
    (u64, u64),
    VirtioError,
>)
    requires
        page > 0,
    ensures
        bounds == match aperture_of(start, inclusive_end, page) {
            Some(bounds) => Ok::<(u64, u64), VirtioError>(bounds),
            None => Err::<(u64, u64), VirtioError>(VirtioError::Device),
        },
{
    let first: u64 = if start == 0 {
        1
    } else {
        start
    };
    let from: u64 = match align::align_up(first, page) {
        Some(from) => from,
        None => return Err(VirtioError::Device),
    };
    let later: u64 = if PREFERRED_IOVA > from {
        PREFERRED_IOVA
    } else {
        from
    };
    let preferred: u64 = match align::align_up(later, page) {
        Some(preferred) => preferred,
        None => return Err(VirtioError::Device),
    };
    let end: u64 = if inclusive_end == u64::MAX {
        u64::MAX - (page - 1)
    } else {
        inclusive_end + 1
    };
    let chosen: u64 = if preferred < end {
        preferred
    } else {
        from
    };
    if chosen >= end {
        return Err(VirtioError::Device);
    }
    Ok((chosen, end))
}

/// Whether a device agreed to everything this driver cannot do without.
pub fn require_features(accepted: u64) -> (met: Result<(), VirtioError>)
    ensures
        met == if accepted & REQUIRED == REQUIRED {
            Ok::<(), VirtioError>(())
        } else {
            Err::<(), VirtioError>(VirtioError::Features)
        },
{
    if accepted & REQUIRED != REQUIRED {
        return Err(VirtioError::Features);
    }
    Ok(())
}

/// The first domain an endpoint may be put in, zero being nobody's.
pub fn first_domain(start: u32, end: u32) -> (domain: Result<u32, VirtioError>)
    ensures
        domain == {
            let first = if start == 0 {
                1u32
            } else {
                start
            };
            if first <= end {
                Ok::<u32, VirtioError>(first)
            } else {
                Err::<u32, VirtioError>(VirtioError::Device)
            }
        },
{
    let first: u32 = if start == 0 {
        1
    } else {
        start
    };
    if first > end {
        return Err(VirtioError::Device);
    }
    Ok(first)
}

/// The largest queue of a valid size no larger than what is offered.
pub fn queue_size(offered: u16, minimum: u16) -> (size: Result<u16, VirtioError>)
    requires
        minimum >= 1,
    ensures
        match size {
            Ok(size) => {
                &&& queue::valid_size(size as int)
                &&& offered >= minimum && queue::MAX_SIZE >= minimum
                &&& size <= offered
                &&& forall|larger: int|
                    #[trigger] queue::valid_size(larger) && larger <= offered ==> larger <= size
            },
            Err(error) => {
                &&& offered < minimum || queue::MAX_SIZE < minimum
                &&& error == VirtioError::Device
            },
        },
{
    let capped: u16 = if offered < queue::MAX_SIZE {
        offered
    } else {
        queue::MAX_SIZE
    };
    if capped < minimum {
        return Err(VirtioError::Device);
    }
    if capped >= 32 {
        Ok(32)
    } else if capped >= 16 {
        Ok(16)
    } else if capped >= 8 {
        Ok(8)
    } else if capped >= 4 {
        Ok(4)
    } else if capped >= 2 {
        Ok(2)
    } else {
        Ok(1)
    }
}

/// An attach or detach request.
pub open spec fn endpoint_request(kind: u8, domain: u32, endpoint: DeviceId) -> Seq<Access> {
    seq![
        Access::Clear,
        window::write(0, 1, kind as int),
        window::write(4, 4, domain as int),
        window::write(8, 4, endpoint.id as int),
    ]
}

fn encode_endpoint<W: Window>(
    request: &mut Mapping<W>,
    kind: u8,
    domain: u32,
    endpoint: DeviceId,
)
    requires
        old(request).window.span() >= REQUEST_BYTES,
    ensures
        *final(request) == (Mapping { window: final(request).window, ..*old(request) }),
        grew(
            old(request).window,
            final(request).window,
            endpoint_request(kind, domain, endpoint),
        ),
{
    request.window.zero();
    let _ = request.window.write_u8(0, kind);
    let _ = request.window.write_u32(4, domain);
    let _ = request.window.write_u32(8, endpoint.get());
}

pub fn encode_attach<W: Window>(request: &mut Mapping<W>, domain: u32, endpoint: DeviceId)
    requires
        old(request).window.span() >= REQUEST_BYTES,
    ensures
        *final(request) == (Mapping { window: final(request).window, ..*old(request) }),
        grew(
            old(request).window,
            final(request).window,
            endpoint_request(ATTACH, domain, endpoint),
        ),
{
    encode_endpoint(request, ATTACH, domain, endpoint)
}

pub fn encode_detach<W: Window>(request: &mut Mapping<W>, domain: u32, endpoint: DeviceId)
    requires
        old(request).window.span() >= REQUEST_BYTES,
    ensures
        *final(request) == (Mapping { window: final(request).window, ..*old(request) }),
        grew(
            old(request).window,
            final(request).window,
            endpoint_request(DETACH, domain, endpoint),
        ),
{
    encode_endpoint(request, DETACH, domain, endpoint)
}

/// The flags that grant `perm`.
pub open spec fn flags_of(perm: DmaPerm) -> int {
    (if perm.reads() { 1int } else { 0 }) + (if perm.writes() { 2int } else { 0 })
}

/// A map request for `len` bytes.
pub open spec fn map_request(
    domain: u32,
    iova: Iova,
    physical: u64,
    len: u64,
    perm: DmaPerm,
) -> Seq<Access> {
    seq![
        Access::Clear,
        window::write(0, 1, MAP as int),
        window::write(4, 4, domain as int),
        window::write(8, 8, iova.address as int),
        window::write(16, 8, iova.address + len - 1),
        window::write(24, 8, physical as int),
        window::write(32, 4, flags_of(perm)),
    ]
}

pub fn encode_map<W: Window>(
    request: &mut Mapping<W>,
    domain: u32,
    iova: Iova,
    physical: u64,
    len: u64,
    perm: DmaPerm,
) -> (done: Result<(), VirtioError>)
    requires
        old(request).window.span() >= REQUEST_BYTES,
        len > 0,
    ensures
        *final(request) == (Mapping { window: final(request).window, ..*old(request) }),
        match done {
            Ok(()) => iova.address + len - 1 <= u64::MAX && grew(
                old(request).window,
                final(request).window,
                map_request(domain, iova, physical, len, perm),
            ),
            Err(error) => {
                &&& iova.address + len - 1 > u64::MAX
                &&& error == VirtioError::Device
                &&& *final(request) == *old(request)
            },
        },
{
    if iova.address > u64::MAX - (len - 1) {
        return Err(VirtioError::Device);
    }
    let end: u64 = iova.address + (len - 1);
    let reading: u32 = if perm.can_read() {
        MAP_READ
    } else {
        0
    };
    let writing: u32 = if perm.can_write() {
        MAP_WRITE
    } else {
        0
    };
    request.window.zero();
    let _ = request.window.write_u8(0, MAP);
    let _ = request.window.write_u32(4, domain);
    let _ = request.window.write_u64(8, iova.get());
    let _ = request.window.write_u64(16, end);
    let _ = request.window.write_u64(24, physical);
    let _ = request.window.write_u32(32, reading + writing);
    Ok(())
}

/// An unmap request for `len` bytes.
pub open spec fn unmap_request(domain: u32, iova: Iova, len: u64) -> Seq<Access> {
    seq![
        Access::Clear,
        window::write(0, 1, UNMAP as int),
        window::write(4, 4, domain as int),
        window::write(8, 8, iova.address as int),
        window::write(16, 8, iova.address + len - 1),
    ]
}

pub fn encode_unmap<W: Window>(request: &mut Mapping<W>, domain: u32, iova: Iova, len: u64) -> (done:
    Result<(), VirtioError>)
    requires
        old(request).window.span() >= REQUEST_BYTES,
        len > 0,
    ensures
        *final(request) == (Mapping { window: final(request).window, ..*old(request) }),
        match done {
            Ok(()) => iova.address + len - 1 <= u64::MAX && grew(
                old(request).window,
                final(request).window,
                unmap_request(domain, iova, len),
            ),
            Err(error) => {
                &&& iova.address + len - 1 > u64::MAX
                &&& error == VirtioError::Device
                &&& *final(request) == *old(request)
            },
        },
{
    if iova.address > u64::MAX - (len - 1) {
        return Err(VirtioError::Device);
    }
    let end: u64 = iova.address + (len - 1);
    request.window.zero();
    let _ = request.window.write_u8(0, UNMAP);
    let _ = request.window.write_u32(4, domain);
    let _ = request.window.write_u64(8, iova.get());
    let _ = request.window.write_u64(16, end);
    Ok(())
}

/// One asynchronous translation fault reported by the IOMMU.
#[derive(Clone, Copy, Debug, PartialEq, Eq, Structural)]
pub struct Fault {
    pub reason: u8,
    pub flags: u32,
    pub endpoint: DeviceId,
    pub address: u64,
}

impl Fault {
    pub fn reason(self) -> (reason: u8)
        ensures
            reason == self.reason,
    {
        self.reason
    }

    pub fn flags(self) -> (flags: u32)
        ensures
            flags == self.flags,
    {
        self.flags
    }

    pub fn endpoint(self) -> (endpoint: DeviceId)
        ensures
            endpoint == self.endpoint,
    {
        self.endpoint
    }

    pub fn address(self) -> (address: u64)
        ensures
            address == self.address,
    {
        self.address
    }
}

/// A fault, read out of the event at `at`.
pub open spec fn fault_reads(at: int, fault: Fault) -> Seq<Access> {
    seq![
        window::read(at as u64, 1, fault.reason as int),
        window::read((at + 4) as u64, 4, fault.flags as int),
        window::read((at + 8) as u64, 4, fault.endpoint.id as int),
        window::read((at + 16) as u64, 8, fault.address as int),
    ]
}

pub fn parse_fault<W: Window>(events: &mut Mapping<W>, at: u64) -> (fault: Result<
    Fault,
    VirtioError,
>)
    requires
        at + EVENT_BYTES <= u64::MAX,
    ensures
        *final(events) == (Mapping { window: final(events).window, ..*old(events) }),
        final(events).window.span() == old(events).window.span(),
        match fault {
            Ok(fault) => at + EVENT_BYTES <= old(events).window.span() && grew(
                old(events).window,
                final(events).window,
                fault_reads(at as int, fault),
            ),
            Err(error) => at + EVENT_BYTES > old(events).window.span() && error
                == VirtioError::Dma(DmaError::Range),
        },
{
    let reason: u8 = match events.window.read_u8(at) {
        Ok(value) => value,
        Err(_) => return Err(VirtioError::Dma(DmaError::Range)),
    };
    let flags: u32 = match events.window.read_u32(at + 4) {
        Ok(value) => value,
        Err(_) => return Err(VirtioError::Dma(DmaError::Range)),
    };
    let endpoint: u32 = match events.window.read_u32(at + 8) {
        Ok(value) => value,
        Err(_) => return Err(VirtioError::Dma(DmaError::Range)),
    };
    let address: u64 = match events.window.read_u64(at + 16) {
        Ok(value) => value,
        Err(_) => return Err(VirtioError::Dma(DmaError::Range)),
    };
    Ok(Fault { reason, flags, endpoint: DeviceId::new(endpoint), address })
}

} // verus!
