//! Where a modern VirtIO device keeps its structures, read out of its PCI
//! vendor capabilities.
//!
//! A modern device describes each structure with a vendor capability (id
//! `0x09`) that names a BAR, an offset into it, and a length. [`Transport`]
//! walks that list once and records the three structures the driver needs, so
//! the rest of the drivers work in [`Location`]s rather than raw capability
//! offsets.
use vstd::prelude::*;

use crate::virtio::config::grew;
use crate::virtio::error::VirtioError;
use crate::window::{self, Access, MmioError, Window};

verus! {

/// The vendor capability every VirtIO structure is described by.
pub const VENDOR: u8 = 0x09;

/// Field offsets inside a `virtio_pci_cap`, relative to the capability start.
pub const CONFIG_TYPE: u64 = 3;

pub const BAR: u64 = 4;

pub const OFFSET: u64 = 8;

pub const LENGTH: u64 = 12;

pub const NOTIFY_MULTIPLIER: u64 = 16;

/// One entry of a function's capability list: what it is and where it starts.
#[derive(Clone, Copy, Debug, PartialEq, Eq, Structural)]
pub struct Capability {
    pub id: u8,
    pub offset: u16,
}

/// The kind of structure a vendor capability points at.
///
/// Only the three the driver uses are named; the ISR and PCI-config structures
/// are recognized by number and ignored.
#[derive(Clone, Copy, Debug, PartialEq, Eq, Structural)]
pub enum Structure {
    /// The common configuration structure that drives initialization.
    Common,
    /// The notification structure a queue kick is written to.
    Notify,
    /// The device-specific configuration structure.
    Device,
}

/// The structure a configuration type numbers.
pub open spec fn structure(config_type: int) -> Option<Structure> {
    if config_type == 1 {
        Some(Structure::Common)
    } else if config_type == 2 {
        Some(Structure::Notify)
    } else if config_type == 4 {
        Some(Structure::Device)
    } else {
        None
    }
}

impl Structure {
    pub fn of(config_type: u8) -> (kind: Option<Self>)
        ensures
            kind == structure(config_type as int),
    {
        match config_type {
            1 => Some(Structure::Common),
            2 => Some(Structure::Notify),
            4 => Some(Structure::Device),
            _ => None,
        }
    }
}

/// One structure's place: which BAR holds it and where inside it.
#[derive(Clone, Copy, Debug, PartialEq, Eq, Structural)]
pub struct Location {
    pub bar: u8,
    pub offset: u32,
    pub length: u32,
}

impl Location {
    /// The BAR index the structure lives in.
    pub fn bar(self) -> (bar: u8)
        ensures
            bar == self.bar,
    {
        self.bar
    }

    /// The structure's offset from the BAR's base.
    pub fn offset(self) -> (offset: u32)
        ensures
            offset == self.offset,
    {
        self.offset
    }

    /// How many bytes the structure occupies.
    pub fn length(self) -> (length: u32)
        ensures
            length == self.length,
    {
        self.length
    }
}

/// The structures a walk has met so far.
#[derive(Clone, Copy, Debug, PartialEq, Eq, Structural)]
pub struct Found {
    pub common: Option<Location>,
    pub notify: Option<Location>,
    pub device: Option<Location>,
    pub multiplier: u32,
}

/// The first location of a kind wins.
pub open spec fn first(held: Option<Location>, location: Location) -> Option<Location> {
    if held is Some {
        held
    } else {
        Some(location)
    }
}

impl Found {
    pub open spec fn none() -> Found {
        Found { common: None, notify: None, device: None, multiplier: 0 }
    }

    /// What is known once a structure of `kind` was met.
    pub open spec fn met(self, kind: Structure, location: Location, multiplier: u32) -> Found {
        match kind {
            Structure::Common => Found { common: first(self.common, location), ..self },
            Structure::Notify => Found {
                notify: first(self.notify, location),
                multiplier: if self.notify is Some {
                    self.multiplier
                } else {
                    multiplier
                },
                ..self
            },
            Structure::Device => Found { device: first(self.device, location), ..self },
        }
    }
}

/// The reads that describe one structure, after its type.
pub open spec fn described(at: int, kind: Structure, location: Location, multiplier: u32) -> Seq<
    Access,
> {
    let place = seq![
        window::read((at + BAR) as u64, 1, location.bar as int),
        window::read((at + OFFSET) as u64, 4, location.offset as int),
        window::read((at + LENGTH) as u64, 4, location.length as int),
    ];
    if kind is Notify {
        place.push(window::read((at + NOTIFY_MULTIPLIER) as u64, 4, multiplier as int))
    } else {
        place
    }
}

/// How far into a capability the driver reads, by its type.
pub open spec fn extent(config_type: int) -> int {
    match structure(config_type) {
        None => CONFIG_TYPE + 1,
        Some(Structure::Notify) => NOTIFY_MULTIPLIER + 4,
        Some(_) => LENGTH + 4,
    }
}

/// Walking `capabilities` with `found` already known: every vendor capability
/// had its type read, the structures the driver uses were described by further
/// reads, and `out` is what came of it all. A read past the `span` bytes of
/// configuration space ends the walk.
pub open spec fn walked(
    span: nat,
    capabilities: Seq<Capability>,
    found: Found,
    t: Seq<Access>,
    out: Result<Found, VirtioError>,
) -> bool
    decreases capabilities.len(),
{
    if capabilities.len() == 0 {
        t.len() == 0 && out == Ok::<Found, VirtioError>(found)
    } else {
        let at = capabilities[0].offset as int;
        let rest = capabilities.skip(1);
        if capabilities[0].id != VENDOR {
            walked(span, rest, found, t, out)
        } else if at + CONFIG_TYPE + 1 > span {
            t.len() == 0 && out == Err::<Found, VirtioError>(VirtioError::Mmio(MmioError::Range))
        } else {
            &&& t.len() >= 1
            &&& t[0] matches Access::Read { at: read_at, width: 1, value: config_type }
            &&& read_at == at + CONFIG_TYPE
            &&& if at + extent(config_type as int) > span {
                out == Err::<Found, VirtioError>(VirtioError::Mmio(MmioError::Range))
            } else {
                match structure(config_type as int) {
                    None => walked(span, rest, found, t.skip(1), out),
                    Some(kind) => {
                        let end = if kind is Notify { 5 } else { 4 };
                        &&& t.len() >= end
                        &&& exists|location: Location, multiplier: u32|
                            {
                                &&& t.subrange(1, end) =~= #[trigger] described(
                                    at,
                                    kind,
                                    location,
                                    multiplier,
                                )
                                &&& walked(
                                    span,
                                    rest,
                                    found.met(kind, location, multiplier),
                                    t.skip(end),
                                    out,
                                )
                            }
                    },
                }
            }
        }
    }
}

/// The three structures a driver needs, plus how a queue notification is
/// addressed.
#[derive(Clone, Copy, Debug, PartialEq, Eq, Structural)]
pub struct Transport {
    pub common: Location,
    pub notify: Location,
    pub device: Location,
    pub notify_multiplier: u32,
}

/// A transport, if every structure was met.
pub open spec fn assembled(found: Result<Found, VirtioError>) -> Result<Transport, VirtioError> {
    match found {
        Err(error) => Err(error),
        Ok(found) => match (found.common, found.notify, found.device) {
            (Some(common), Some(notify), Some(device)) => Ok(
                Transport { common, notify, device, notify_multiplier: found.multiplier },
            ),
            _ => Err(VirtioError::Missing),
        },
    }
}

impl Transport {
    /// Reads a function's vendor capabilities out of its configuration space
    /// into a transport.
    ///
    /// The first capability of each kind wins, matching how a device is
    /// expected to list them. A device missing any of the three is not one this
    /// driver can drive, so it is refused rather than half-configured.
    pub fn probe<W: Window>(window: &mut W, capabilities: &[Capability]) -> (transport: Result<
        Self,
        VirtioError,
    >)
        ensures
            exists|t: Seq<Access>, found: Result<Found, VirtioError>|
                #![trigger walked(old(window).span(), capabilities@, Found::none(), t, found)]
                {
                    &&& walked(old(window).span(), capabilities@, Found::none(), t, found)
                    &&& grew(*old(window), *final(window), t)
                    &&& transport == assembled(found)
                },
    {
        let ghost before = *window;
        let ghost span = window.span();
        let ghost mut reads: Seq<Access> = Seq::empty();
        let mut found = Found { common: None, notify: None, device: None, multiplier: 0 };
        let mut i: usize = 0;
        assert(capabilities@.skip(0) =~= capabilities@);
        assert forall|t: Seq<Access>, out: Result<Found, VirtioError>| #[trigger]
            walked(span, capabilities@.skip(0), found, t, out) implies walked(
            span,
            capabilities@,
            Found::none(),
            reads + t,
            out,
        ) by {
            assert(reads + t =~= t);
        }
        while i < capabilities.len()
            invariant
                i <= capabilities@.len(),
                span == before.span(),
                before == *old(window),
                grew(before, *window, reads),
                forall|t: Seq<Access>, out: Result<Found, VirtioError>| #[trigger]
                    walked(span, capabilities@.skip(i as int), found, t, out) ==> walked(
                        span,
                        capabilities@,
                        Found::none(),
                        reads + t,
                        out,
                    ),
            decreases capabilities.len() - i,
        {
            let ghost rest = capabilities@.skip(i as int);
            assert(rest.skip(1) =~= capabilities@.skip(i + 1));
            let ghost earlier = reads;
            let ghost known = found;
            let capability = capabilities[i];
            i = i + 1;
            if capability.id != VENDOR {
                assert forall|t: Seq<Access>, out: Result<Found, VirtioError>| #[trigger]
                    walked(span, capabilities@.skip(i as int), found, t, out) implies walked(
                    span,
                    capabilities@,
                    Found::none(),
                    reads + t,
                    out,
                ) by {
                    assert(walked(span, rest, known, t, out));
                }
                continue ;
            }
            let at: u64 = capability.offset as u64;
            let config_type: u8 = match window.read_u8(at + CONFIG_TYPE) {
                Ok(value) => value,
                Err(_) => {
                    let ghost error: VirtioError = VirtioError::Mmio(MmioError::Range);
                    assert(walked(span, rest, known, Seq::<Access>::empty(), Err(error)));
                    assert(earlier + Seq::<Access>::empty() =~= earlier);
                    return Err(VirtioError::Mmio(MmioError::Range));
                },
            };
            let ghost typed = seq![window::read((at + CONFIG_TYPE) as u64, 1, config_type as int)];
            let kind = match Structure::of(config_type) {
                Some(kind) => kind,
                None => {
                    proof {
                        reads = earlier + typed;
                        assert forall|t: Seq<Access>, out: Result<Found, VirtioError>| #[trigger]
                            walked(span, capabilities@.skip(i as int), found, t, out) implies walked(
                            span,
                            capabilities@,
                            Found::none(),
                            reads + t,
                            out,
                        ) by {
                            assert((typed + t).skip(1) =~= t);
                            assert(walked(span, rest, known, typed + t, out));
                            assert(earlier + (typed + t) =~= reads + t);
                        }
                    }
                    continue ;
                },
            };
            let ghost middle = *window;
            let (location, multiplier) = match Self::describe(window, at, kind) {
                Ok(described) => described,
                Err(error) => {
                    proof {
                        let partial = choose|t: Seq<Access>| grew(middle, *window, t);
                        let whole = typed + partial;
                        assert(walked(span, rest, known, whole, Err(error)));
                        assert(grew(before, *window, earlier + whole));
                        let out: Result<Found, VirtioError> = Err(error);
                        assert(walked(span, capabilities@, Found::none(), earlier + whole, out));
                    }
                    return Err(error);
                },
            };
            match kind {
                Structure::Common => {
                    if found.common.is_none() {
                        found.common = Some(location);
                    }
                },
                Structure::Notify => {
                    if found.notify.is_none() {
                        found.notify = Some(location);
                        found.multiplier = multiplier;
                    }
                },
                Structure::Device => {
                    if found.device.is_none() {
                        found.device = Some(location);
                    }
                },
            }
            proof {
                let detail = described(at as int, kind, location, multiplier);
                reads = earlier + typed + detail;
                assert(found == known.met(kind, location, multiplier));
                assert forall|t: Seq<Access>, out: Result<Found, VirtioError>| #[trigger]
                    walked(span, capabilities@.skip(i as int), found, t, out) implies walked(
                    span,
                    capabilities@,
                    Found::none(),
                    reads + t,
                    out,
                ) by {
                    let whole = typed + (detail + t);
                    assert(whole.subrange(1, 1int + detail.len()) =~= detail);
                    assert(whole.skip(1int + detail.len()) =~= t);
                    assert(walked(span, rest, known, whole, out));
                    assert(earlier + whole =~= reads + t);
                }
            }
        }
        let ghost out: Result<Found, VirtioError> = Ok(found);
        assert(walked(span, capabilities@.skip(i as int), found, Seq::<Access>::empty(), out));
        assert(reads + Seq::<Access>::empty() =~= reads);
        assert(walked(span, capabilities@, Found::none(), reads, out));
        match (found.common, found.notify, found.device) {
            (Some(common), Some(notify), Some(device)) => Ok(
                Transport { common, notify, device, notify_multiplier: found.multiplier },
            ),
            _ => Err(VirtioError::Missing),
        }
    }

    /// Reads one structure's place, and its multiplier if it has one.
    fn describe<W: Window>(window: &mut W, at: u64, kind: Structure) -> (place: Result<
        (Location, u32),
        VirtioError,
    >)
        requires
            at <= 0xffff,
        ensures
            final(window).span() == old(window).span(),
            match place {
                Ok((location, multiplier)) => {
                    &&& at + (if kind is Notify { NOTIFY_MULTIPLIER } else { LENGTH }) + 4 <= old(
                        window,
                    ).span()
                    &&& grew(
                        *old(window),
                        *final(window),
                        described(at as int, kind, location, multiplier),
                    )
                },
                Err(error) => {
                    &&& at + (if kind is Notify { NOTIFY_MULTIPLIER } else { LENGTH }) + 4 > old(
                        window,
                    ).span()
                    &&& error == VirtioError::Mmio(MmioError::Range)
                    &&& exists|t: Seq<Access>| grew(*old(window), *final(window), t)
                },
            },
    {
        let ghost before = *window;
        let bar: u8 = match window.read_u8(at + BAR) {
            Ok(value) => value,
            Err(_) => {
                assert(grew(before, *window, Seq::<Access>::empty()));
                return Err(VirtioError::Mmio(MmioError::Range));
            },
        };
        let ghost one = seq![window::read((at + BAR) as u64, 1, bar as int)];
        assert(grew(before, *window, one));
        let offset: u32 = match window.read_u32(at + OFFSET) {
            Ok(value) => value,
            Err(_) => {
                assert(grew(before, *window, one));
                return Err(VirtioError::Mmio(MmioError::Range));
            },
        };
        let ghost two = one.push(window::read((at + OFFSET) as u64, 4, offset as int));
        assert(grew(before, *window, two));
        let length: u32 = match window.read_u32(at + LENGTH) {
            Ok(value) => value,
            Err(_) => {
                assert(grew(before, *window, two));
                return Err(VirtioError::Mmio(MmioError::Range));
            },
        };
        let ghost three = two.push(window::read((at + LENGTH) as u64, 4, length as int));
        assert(grew(before, *window, three));
        let location = Location { bar, offset, length };
        let mut multiplier: u32 = 0;
        if let Structure::Notify = kind {
            multiplier = match window.read_u32(at + NOTIFY_MULTIPLIER) {
                Ok(value) => value,
                Err(_) => {
                assert(grew(before, *window, three));
                return Err(VirtioError::Mmio(MmioError::Range));
            },
            };
        }
        Ok((location, multiplier))
    }

    pub fn common(&self) -> (location: Location)
        ensures
            location == self.common,
    {
        self.common
    }

    pub fn notify(&self) -> (location: Location)
        ensures
            location == self.notify,
    {
        self.notify
    }

    pub fn device(&self) -> (location: Location)
        ensures
            location == self.device,
    {
        self.device
    }

    /// The stride a queue's notification offset is multiplied by.
    pub fn notify_multiplier(&self) -> (multiplier: u32)
        ensures
            multiplier == self.notify_multiplier,
    {
        self.notify_multiplier
    }
}

} // verus!
