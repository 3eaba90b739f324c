//! The common configuration structure: the registers that bring a device up
//! and program its queues.
//!
//! Every field is at a fixed offset the specification numbers, so the register
//! names live here and the rest of the driver speaks in methods. The one piece
//! of policy is [`Common::negotiate`]: the driver always demands
//! `VIRTIO_F_VERSION_1`, because a device that will not speak the modern
//! transport is not one these drivers drive.
use vstd::prelude::*;

use crate::virtio::error::VirtioError;
use crate::window::{self, Access, MmioError, Window};

verus! {

pub const DEVICE_FEATURE_SELECT: u64 = 0x00;

pub const DEVICE_FEATURE: u64 = 0x04;

pub const DRIVER_FEATURE_SELECT: u64 = 0x08;

pub const DRIVER_FEATURE: u64 = 0x0c;

pub const NUM_QUEUES: u64 = 0x12;

pub const DEVICE_STATUS: u64 = 0x14;

pub const CONFIG_GENERATION: u64 = 0x15;

pub const QUEUE_SELECT: u64 = 0x16;

pub const QUEUE_SIZE: u64 = 0x18;

pub const QUEUE_VECTOR: u64 = 0x1a;

pub const QUEUE_ENABLE: u64 = 0x1c;

pub const QUEUE_NOTIFY_OFF: u64 = 0x1e;

pub const QUEUE_DESC: u64 = 0x20;

pub const QUEUE_DRIVER: u64 = 0x28;

pub const QUEUE_DEVICE: u64 = 0x30;

/// How many bytes the structure occupies.
pub const BYTES: u64 = 0x38;

/// Device-status bits written during the handshake.
pub const ACKNOWLEDGE: u8 = 1;

pub const DRIVER: u8 = 2;

pub const DRIVER_OK: u8 = 4;

pub const FEATURES_OK: u8 = 8;

/// The feature bit that says the device speaks the modern transport.
pub const VERSION_1: u64 = 0x1_0000_0000;

/// How long to spin for the device to acknowledge a reset before giving up.
pub const RESET_SPINS: u32 = 1_000_000;

/// The same window, touched `added` times more.
pub open spec fn grew<W: Window>(before: W, after: W, added: Seq<Access>) -> bool {
    after.span() == before.span() && after.trace() =~= before.trace() + added
}

/// A reset: zero written, then the status polled until it reads zero.
pub open spec fn reset_ran(t: Seq<Access>, settled: bool) -> bool {
    &&& t.len() >= 1
    &&& t[0] == window::write(DEVICE_STATUS, 1, 0)
    &&& forall|i: int|
        1 <= i < t.len() ==> {
            &&& #[trigger] t[i] matches Access::Read { at: DEVICE_STATUS, width: 1, value }
            &&& (value == 0) == (settled && i == t.len() - 1)
        }
    &&& if settled {
        2 <= t.len() <= 1 + RESET_SPINS
    } else {
        t.len() == 1 + RESET_SPINS
    }
}

/// One register written, unless it lies outside the window.
pub open spec fn wrote<W: Window>(
    before: W,
    after: W,
    at: u64,
    width: u64,
    value: int,
    done: Result<(), VirtioError>,
) -> bool {
    if at + width <= before.span() {
        done == Ok::<(), VirtioError>(()) && grew(before, after, seq![window::write(at, width, value)])
    } else {
        done == Err::<(), VirtioError>(VirtioError::Mmio(MmioError::Range)) && grew(
            before,
            after,
            seq![],
        )
    }
}

/// One register read, unless it lies outside the window.
pub open spec fn fetched<W: Window>(
    before: W,
    after: W,
    at: u64,
    width: u64,
    value: Result<int, VirtioError>,
) -> bool {
    match value {
        Ok(value) => at + width <= before.span() && grew(
            before,
            after,
            seq![window::read(at, width, value)],
        ),
        Err(error) => {
            &&& at + width > before.span()
            &&& error == VirtioError::Mmio(MmioError::Range)
            &&& grew(before, after, seq![])
        },
    }
}

/// A byte that was read, as a number.
pub open spec fn wide8(value: Result<u8, VirtioError>) -> Result<int, VirtioError> {
    match value {
        Ok(value) => Ok(value as int),
        Err(error) => Err(error),
    }
}

/// A 16-bit register that was read, as a number.
pub open spec fn wide16(value: Result<u16, VirtioError>) -> Result<int, VirtioError> {
    match value {
        Ok(value) => Ok(value as int),
        Err(error) => Err(error),
    }
}

/// The 64 feature bits two halves make.
pub open spec fn joined(low: u32, high: u32) -> u64 {
    (high * 0x1_0000_0000 + low) as u64
}

/// The feature handshake: offer read, choice written, choice confirmed.
pub open spec fn negotiated(
    t: Seq<Access>,
    wanted: u64,
    low: u32,
    high: u32,
    status: u8,
    confirmed: u8,
    accepted: Result<u64, VirtioError>,
) -> bool {
    let offered = joined(low, high);
    let choice = offered & (wanted | VERSION_1);
    let asked = seq![
        window::write(DEVICE_FEATURE_SELECT, 4, 0),
        window::read(DEVICE_FEATURE, 4, low as int),
        window::write(DEVICE_FEATURE_SELECT, 4, 1),
        window::read(DEVICE_FEATURE, 4, high as int),
    ];
    let answered = seq![
        window::write(DRIVER_FEATURE_SELECT, 4, 0),
        window::write(DRIVER_FEATURE, 4, (choice % 0x1_0000_0000) as int),
        window::write(DRIVER_FEATURE_SELECT, 4, 1),
        window::write(DRIVER_FEATURE, 4, (choice / 0x1_0000_0000) as int),
        window::read(DEVICE_STATUS, 1, status as int),
        window::write(DEVICE_STATUS, 1, (status | FEATURES_OK) as int),
        window::read(DEVICE_STATUS, 1, confirmed as int),
    ];
    if offered & VERSION_1 == 0 {
        t =~= asked && accepted == Err::<u64, VirtioError>(VirtioError::Features)
    } else if confirmed & FEATURES_OK == 0 {
        t =~= asked + answered && accepted == Err::<u64, VirtioError>(VirtioError::Features)
    } else {
        t =~= asked + answered && accepted == Ok::<u64, VirtioError>(choice)
    }
}

/// Status bits added to whatever the register held.
pub open spec fn added(status: u8, bits: u8) -> Seq<Access> {
    seq![
        window::read(DEVICE_STATUS, 1, status as int),
        window::write(DEVICE_STATUS, 1, (status | bits) as int),
    ]
}

/// A queue's three ring addresses, programmed.
pub open spec fn ringed(desc: u64, driver: u64, device: u64) -> Seq<Access> {
    seq![
        window::write(QUEUE_DESC, 8, desc as int),
        window::write(QUEUE_DRIVER, 8, driver as int),
        window::write(QUEUE_DEVICE, 8, device as int),
    ]
}

/// The common configuration structure of one device.
pub struct Common<W: Window> {
    pub window: W,
}

impl<W: Window> Common<W> {
    pub fn new(window: W) -> (common: Self)
        ensures
            common.window == window,
    {
        Common { window }
    }

    /// Resets the device and waits for it to report a zero status.
    ///
    /// Writing zero starts the reset; the device clears the status when it is
    /// done, so a driver that programmed queues before the reset settled would
    /// be talking to a device that had not finished forgetting the old ones.
    pub fn reset(&mut self) -> (done: Result<(), VirtioError>)
        ensures
            if DEVICE_STATUS < old(self).window.span() {
                &&& exists|t: Seq<Access>|
                    #![trigger grew(old(self).window, final(self).window, t)]
                    grew(old(self).window, final(self).window, t) && reset_ran(t, done is Ok)
                &&& done is Err ==> done == Err::<(), VirtioError>(VirtioError::Device)
            } else {
                &&& done == Err::<(), VirtioError>(VirtioError::Mmio(MmioError::Range))
                &&& grew(old(self).window, final(self).window, seq![])
            },
    {
        let ghost before = self.window;
        self.set_status(0)?;
        let ghost mut t: Seq<Access> = seq![window::write(DEVICE_STATUS, 1, 0)];
        let mut spin: u32 = 0;
        while spin < RESET_SPINS
            invariant
                spin <= RESET_SPINS,
                before == old(self).window,
                DEVICE_STATUS < before.span(),
                grew(before, self.window, t),
                t.len() == 1 + spin,
                t[0] == window::write(DEVICE_STATUS, 1, 0),
                forall|i: int|
                    1 <= i < t.len() ==> {
                        &&& #[trigger] t[i] matches Access::Read { at: DEVICE_STATUS, width: 1, value }
                        &&& value != 0
                    },
            decreases RESET_SPINS - spin,
        {
            let status: u8 = self.status()?;
            proof {
                t = t.push(window::read(DEVICE_STATUS, 1, status as int));
                assert(grew(before, self.window, t));
            }
            if status == 0 {
                assert(reset_ran(t, true));
                return Ok(());
            }
            spin = spin + 1;
        }
        assert(reset_ran(t, false));
        Err(VirtioError::Device)
    }

    pub fn status(&mut self) -> (value: Result<u8, VirtioError>)
        ensures
            fetched(old(self).window, final(self).window, DEVICE_STATUS, 1, wide8(value)),
    {
        match self.window.read_u8(DEVICE_STATUS) {
            Ok(value) => Ok(value),
            Err(error) => Err(VirtioError::from(error)),
        }
    }

    pub fn set_status(&mut self, bits: u8) -> (done: Result<(), VirtioError>)
        ensures
            wrote(old(self).window, final(self).window, DEVICE_STATUS, 1, bits as int, done),
    {
        match self.window.write_u8(DEVICE_STATUS, bits) {
            Ok(()) => Ok(()),
            Err(error) => Err(VirtioError::from(error)),
        }
    }

    /// Adds `bits` to the device status without disturbing the rest.
    pub fn add_status(&mut self, bits: u8) -> (done: Result<(), VirtioError>)
        ensures
            if DEVICE_STATUS < old(self).window.span() {
                &&& done is Ok
                &&& exists|status: u8|
                    #![trigger added(status, bits)]
                    grew(old(self).window, final(self).window, added(status, bits))
            } else {
                &&& done == Err::<(), VirtioError>(VirtioError::Mmio(MmioError::Range))
                &&& grew(old(self).window, final(self).window, seq![])
            },
    {
        let ghost before = self.window;
        let status: u8 = self.status()?;
        let done = self.set_status(status | bits);
        assert(grew(before, self.window, added(status, bits)));
        done
    }

    /// Accepts `VIRTIO_F_VERSION_1` plus whatever of `wanted` the device
    /// offers, and confirms the device is content with the choice.
    ///
    /// A device that does not offer the modern transport, or that clears
    /// `FEATURES_OK` after the driver writes it, is refused: the driver cannot
    /// fall back to the legacy interface.
    pub fn negotiate(&mut self, wanted: u64) -> (accepted: Result<u64, VirtioError>)
        ensures
            DEVICE_STATUS < old(self).window.span() ==> exists|
                t: Seq<Access>,
                low: u32,
                high: u32,
                status: u8,
                confirmed: u8,
            |
                #![trigger negotiated(t, wanted, low, high, status, confirmed, accepted)]
                grew(old(self).window, final(self).window, t) && negotiated(
                    t,
                    wanted,
                    low,
                    high,
                    status,
                    confirmed,
                    accepted,
                ),
            DEVICE_STATUS >= old(self).window.span() ==> {
                ||| accepted == Err::<u64, VirtioError>(VirtioError::Mmio(MmioError::Range))
                ||| exists|t: Seq<Access>, low: u32, high: u32|
                    {
                        &&& #[trigger] negotiated(t, wanted, low, high, 0, 0, accepted)
                        &&& grew(old(self).window, final(self).window, t)
                        &&& joined(low, high) & VERSION_1 == 0
                    }
            },
            final(self).window.span() == old(self).window.span(),
            old(self).window.trace().is_prefix_of(final(self).window.trace()),
    {
        let ghost before = self.window;
        let (low, high) = self.device_features()?;
        let offered: u64 = high as u64 * 0x1_0000_0000 + low as u64;
        if offered & VERSION_1 == 0 {
            assert(negotiated(
                self.window.trace().skip(before.trace().len() as int),
                wanted,
                low,
                high,
                0,
                0,
                Err(VirtioError::Features),
            ));
            return Err(VirtioError::Features);
        }
        let choice: u64 = offered & (wanted | VERSION_1);
        self.write_driver_features(choice)?;
        let status: u8 = self.status()?;
        self.set_status(status | FEATURES_OK)?;
        let confirmed: u8 = self.status()?;
        let accepted = if confirmed & FEATURES_OK == 0 {
            Err(VirtioError::Features)
        } else {
            Ok(choice)
        };
        proof {
            let t = self.window.trace().skip(before.trace().len() as int);
            assert(grew(before, self.window, t));
            assert(negotiated(t, wanted, low, high, status, confirmed, accepted));
        }
        accepted
    }

    fn device_features(&mut self) -> (halves: Result<(u32, u32), VirtioError>)
        ensures
            final(self).window.span() == old(self).window.span(),
            old(self).window.trace().is_prefix_of(final(self).window.trace()),
            match halves {
                Ok((low, high)) => old(self).window.span() >= 8 && grew(
                    old(self).window,
                    final(self).window,
                    seq![
                        window::write(DEVICE_FEATURE_SELECT, 4, 0),
                        window::read(DEVICE_FEATURE, 4, low as int),
                        window::write(DEVICE_FEATURE_SELECT, 4, 1),
                        window::read(DEVICE_FEATURE, 4, high as int),
                    ],
                ),
                Err(error) => old(self).window.span() < 8 && error == VirtioError::Mmio(
                    MmioError::Range,
                ),
            },
    {
        if let Err(error) = self.window.write_u32(DEVICE_FEATURE_SELECT, 0) {
            return Err(VirtioError::from(error));
        }
        let low: u32 = match self.window.read_u32(DEVICE_FEATURE) {
            Ok(low) => low,
            Err(error) => return Err(VirtioError::from(error)),
        };
        if let Err(error) = self.window.write_u32(DEVICE_FEATURE_SELECT, 1) {
            return Err(VirtioError::from(error));
        }
        match self.window.read_u32(DEVICE_FEATURE) {
            Ok(high) => Ok((low, high)),
            Err(error) => Err(VirtioError::from(error)),
        }
    }

    fn write_driver_features(&mut self, features: u64) -> (done: Result<(), VirtioError>)
        ensures
            final(self).window.span() == old(self).window.span(),
            old(self).window.trace().is_prefix_of(final(self).window.trace()),
            match done {
                Ok(()) => old(self).window.span() >= 0x10 && grew(
                    old(self).window,
                    final(self).window,
                    seq![
                        window::write(DRIVER_FEATURE_SELECT, 4, 0),
                        window::write(DRIVER_FEATURE, 4, (features % 0x1_0000_0000) as int),
                        window::write(DRIVER_FEATURE_SELECT, 4, 1),
                        window::write(DRIVER_FEATURE, 4, (features / 0x1_0000_0000) as int),
                    ],
                ),
                Err(error) => old(self).window.span() < 0x10 && error == VirtioError::Mmio(
                    MmioError::Range,
                ),
            },
    {
        let low: u32 = (features % 0x1_0000_0000) as u32;
        let high: u32 = (features / 0x1_0000_0000) as u32;
        if let Err(error) = self.window.write_u32(DRIVER_FEATURE_SELECT, 0) {
            return Err(VirtioError::from(error));
        }
        if let Err(error) = self.window.write_u32(DRIVER_FEATURE, low) {
            return Err(VirtioError::from(error));
        }
        if let Err(error) = self.window.write_u32(DRIVER_FEATURE_SELECT, 1) {
            return Err(VirtioError::from(error));
        }
        match self.window.write_u32(DRIVER_FEATURE, high) {
            Ok(()) => Ok(()),
            Err(error) => Err(VirtioError::from(error)),
        }
    }

    pub fn num_queues(&mut self) -> (value: Result<u16, VirtioError>)
        ensures
            fetched(old(self).window, final(self).window, NUM_QUEUES, 2, wide16(value)),
    {
        match self.window.read_u16(NUM_QUEUES) {
            Ok(value) => Ok(value),
            Err(error) => Err(VirtioError::from(error)),
        }
    }

    /// The counter the device bumps whenever it changes its configuration.
    pub fn config_generation(&mut self) -> (value: Result<u8, VirtioError>)
        ensures
            fetched(old(self).window, final(self).window, CONFIG_GENERATION, 1, wide8(value)),
    {
        match self.window.read_u8(CONFIG_GENERATION) {
            Ok(value) => Ok(value),
            Err(error) => Err(VirtioError::from(error)),
        }
    }

    /// Selects the queue subsequent queue registers apply to.
    pub fn select_queue(&mut self, queue: u16) -> (done: Result<(), VirtioError>)
        ensures
            wrote(old(self).window, final(self).window, QUEUE_SELECT, 2, queue as int, done),
    {
        match self.window.write_u16(QUEUE_SELECT, queue) {
            Ok(()) => Ok(()),
            Err(error) => Err(VirtioError::from(error)),
        }
    }

    /// The selected queue's maximum size, or zero if it does not exist.
    pub fn queue_size(&mut self) -> (value: Result<u16, VirtioError>)
        ensures
            fetched(old(self).window, final(self).window, QUEUE_SIZE, 2, wide16(value)),
    {
        match self.window.read_u16(QUEUE_SIZE) {
            Ok(value) => Ok(value),
            Err(error) => Err(VirtioError::from(error)),
        }
    }

    pub fn set_queue_size(&mut self, size: u16) -> (done: Result<(), VirtioError>)
        ensures
            wrote(old(self).window, final(self).window, QUEUE_SIZE, 2, size as int, done),
    {
        match self.window.write_u16(QUEUE_SIZE, size) {
            Ok(()) => Ok(()),
            Err(error) => Err(VirtioError::from(error)),
        }
    }

    /// Routes the selected queue's interrupts to `vector`.
    pub fn set_queue_vector(&mut self, vector: u16) -> (done: Result<(), VirtioError>)
        ensures
            wrote(old(self).window, final(self).window, QUEUE_VECTOR, 2, vector as int, done),
    {
        match self.window.write_u16(QUEUE_VECTOR, vector) {
            Ok(()) => Ok(()),
            Err(error) => Err(VirtioError::from(error)),
        }
    }

    /// Programs the selected queue's three ring addresses.
    pub fn set_queue_rings(&mut self, desc: u64, driver: u64, device: u64) -> (done: Result<
        (),
        VirtioError,
    >)
        ensures
            final(self).window.span() == old(self).window.span(),
            old(self).window.trace().is_prefix_of(final(self).window.trace()),
            match done {
                Ok(()) => old(self).window.span() >= BYTES && grew(
                    old(self).window,
                    final(self).window,
                    ringed(desc, driver, device),
                ),
                Err(error) => old(self).window.span() < BYTES && error == VirtioError::Mmio(
                    MmioError::Range,
                ),
            },
    {
        if let Err(error) = self.window.write_u64(QUEUE_DESC, desc) {
            return Err(VirtioError::from(error));
        }
        if let Err(error) = self.window.write_u64(QUEUE_DRIVER, driver) {
            return Err(VirtioError::from(error));
        }
        match self.window.write_u64(QUEUE_DEVICE, device) {
            Ok(()) => Ok(()),
            Err(error) => Err(VirtioError::from(error)),
        }
    }

    pub fn enable_queue(&mut self) -> (done: Result<(), VirtioError>)
        ensures
            wrote(old(self).window, final(self).window, QUEUE_ENABLE, 2, 1, done),
    {
        match self.window.write_u16(QUEUE_ENABLE, 1) {
            Ok(()) => Ok(()),
            Err(error) => Err(VirtioError::from(error)),
        }
    }

    /// The selected queue's notification offset, in notify-multiplier units.
    pub fn queue_notify_off(&mut self) -> (value: Result<u16, VirtioError>)
        ensures
            fetched(old(self).window, final(self).window, QUEUE_NOTIFY_OFF, 2, wide16(value)),
    {
        match self.window.read_u16(QUEUE_NOTIFY_OFF) {
            Ok(value) => Ok(value),
            Err(error) => Err(VirtioError::from(error)),
        }
    }
}

} // verus!
