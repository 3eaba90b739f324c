//! Configuration space, as this platform reaches it.
use vstd::prelude::*;

use crate::arch::{MsiMessage, PlatformError};
use crate::window::{self, Access, Window};

verus! {

/// QEMU's education device: a BAR, an MSI capability, and a register that makes
/// it raise its vector on demand. It is the only device on either machine this
/// kernel runs on that can be made to interrupt without a driver behind it,
/// which is what makes end-to-end delivery observable at all.
pub const EDU_VENDOR: u16 = 0x1234;

pub const EDU_DEVICE: u16 = 0x11e8;

/// Writing here makes the education device raise its interrupt, with the value
/// written becoming its interrupt status.
pub const EDU_RAISE: u64 = 0x60;

/// Acknowledging clears the bits written back out of that status.
pub const EDU_ACKNOWLEDGE: u64 = 0x64;

/// Pokes the education device, whose registers `window` maps, into interrupting.
pub fn raise<W: Window>(window: &mut W) -> (done: Result<(), PlatformError>)
    ensures
        final(window).span() == old(window).span(),
        done is Ok <==> old(window).span() >= EDU_ACKNOWLEDGE + 4,
        done matches Err(error) ==> error == PlatformError::InvalidHardware
            && final(window).trace() == old(window).trace(),
        done is Ok ==> final(window).trace() == old(window).trace().push(
            window::write(EDU_ACKNOWLEDGE, 4, 0xffff_ffff),
        ).push(window::write(EDU_RAISE, 4, 1)),
{
    if let Err(_) = window.write_u32(EDU_ACKNOWLEDGE, 0xffff_ffff) {
        return Err(PlatformError::InvalidHardware);
    }
    match window.write_u32(EDU_RAISE, 1) {
        Ok(()) => Ok(()),
        Err(_) => Err(PlatformError::InvalidHardware),
    }
}

/// Where the first function reporting this vendor and device is in a sweep.
pub fn find(functions: &[(u16, u16)], id: (u16, u16)) -> (at: Option<usize>)
    ensures
        match at {
            Some(at) => at < functions@.len() && functions@[at as int] == id && forall|i: int|
                0 <= i < at ==> functions@[i] != id,
            None => forall|i: int| 0 <= i < functions@.len() ==> functions@[i] != id,
        },
{
    let mut i: usize = 0;
    while i < functions.len()
        invariant
            i <= functions@.len(),
            forall|k: int| 0 <= k < i ==> functions@[k] != id,
        decreases functions.len() - i,
    {
        let (vendor, device) = functions[i];
        if vendor == id.0 && device == id.1 {
            return Some(i);
        }
        i = i + 1;
    }
    None
}

/// One entry of a message table: an address, a datum and a mask bit.
pub const ENTRY: u64 = 16;

pub const ENTRY_DATA: u64 = 8;

pub const ENTRY_CONTROL: u64 = 12;

/// What an entry is told and asked: a message with delivery masked, what it
/// holds of it, and, where that is the message, the mask lifted and put back.
pub open spec fn tried(message: MsiMessage, read: MsiMessage, first: u32, second: u32) -> Seq<
    window::Access,
> {
    seq![
        window::write(ENTRY_CONTROL, 4, 1),
        window::write(0, 8, message.address as int),
        window::write(ENTRY_DATA, 4, message.data as int),
        window::read(0, 8, read.address as int),
        window::read(ENTRY_DATA, 4, read.data as int),
        window::read(ENTRY_CONTROL, 4, first as int),
    ] + if read != message || first % 2 != 1 {
        seq![]
    } else {
        seq![window::write(ENTRY_CONTROL, 4, 0), window::read(ENTRY_CONTROL, 4, second as int)]
            + if second % 2 == 1 {
            seq![]
        } else {
            seq![window::write(ENTRY_CONTROL, 4, 1)]
        }
    }
}

/// Programs the first entry of a message table and reads back what was written.
///
/// An entry written through a window answers with what was written, which no
/// frame reached by accident would do: the message, and the mask bit as it was
/// set, first on and then off. Nothing waits on the message, so the entry is
/// left unable to send it.
pub fn verify_message_table<W: Window>(table: &mut W, message: MsiMessage) -> (outcome: Result<
    (),
    PlatformError,
>)
    ensures
        final(table).span() == old(table).span(),
        if old(table).span() < ENTRY {
            &&& outcome == Err::<(), PlatformError>(PlatformError::InvalidHardware)
            &&& final(table).trace() == old(table).trace()
        } else {
            exists|read: MsiMessage, first: u32, second: u32|
                {
                    &&& final(table).trace() == old(table).trace() + #[trigger] tried(
                        message,
                        read,
                        first,
                        second,
                    )
                    &&& outcome == if read == message && first % 2 == 1 && second % 2 == 0 {
                        Ok::<(), PlatformError>(())
                    } else {
                        Err::<(), PlatformError>(PlatformError::InvalidHardware)
                    }
                }
        },
{
    let ghost before = table.trace();
    if table.len() < ENTRY {
        return Err(PlatformError::InvalidHardware);
    }
    let _ = table.write_u32(ENTRY_CONTROL, 1);
    let _ = table.write_u64(0, message.address);
    let _ = table.write_u32(ENTRY_DATA, message.data);
    let (address, data, first) = match (
        table.read_u64(0),
        table.read_u32(ENTRY_DATA),
        table.read_u32(ENTRY_CONTROL),
    ) {
        (Ok(address), Ok(data), Ok(first)) => (address, data, first),
        _ => return Err(PlatformError::InvalidHardware),
    };
    let ghost read = MsiMessage { address, data };
    if address != message.address || data != message.data || first % 2 != 1 {
        assert(table.trace() =~= before + tried(message, read, first, 0));
        return Err(PlatformError::InvalidHardware);
    }
    let _ = table.write_u32(ENTRY_CONTROL, 0);
    let second: u32 = match table.read_u32(ENTRY_CONTROL) {
        Ok(second) => second,
        Err(_) => return Err(PlatformError::InvalidHardware),
    };
    if second % 2 == 1 {
        assert(table.trace() =~= before + tried(message, read, first, second));
        return Err(PlatformError::InvalidHardware);
    }
    let _ = table.write_u32(ENTRY_CONTROL, 1);
    assert(table.trace() =~= before + tried(message, read, first, second));
    Ok(())
}

/// A message table's first entry is probed masked: the mask at byte 12 set, the
/// message written at bytes 0 and 8 and read back with the mask; where it all
/// came back, the mask is cleared, read, and set again.
pub proof fn law_message_table_probe_in_numbers(
    message: MsiMessage,
    read: MsiMessage,
    first: u32,
    second: u32,
)
    ensures
        tried(message, read, first, second).take(6) == seq![
            Access::Write { at: 12, width: 4, value: 1 },
            Access::Write { at: 0, width: 8, value: message.address },
            Access::Write { at: 8, width: 4, value: message.data as u64 },
            Access::Read { at: 0, width: 8, value: read.address },
            Access::Read { at: 8, width: 4, value: read.data as u64 },
            Access::Read { at: 12, width: 4, value: first as u64 },
        ],
        read != message || first % 2 == 0 ==> tried(message, read, first, second).len() == 6,
        read == message && first % 2 == 1 ==> tried(message, read, first, second).skip(6) == seq![
            Access::Write { at: 12, width: 4, value: 0 },
            Access::Read { at: 12, width: 4, value: second as u64 },
        ] + if second % 2 == 1 {
            seq![]
        } else {
            seq![Access::Write { at: 12, width: 4, value: 1 }]
        },
        EDU_VENDOR == 0x1234,
        EDU_DEVICE == 0x11e8,
        EDU_RAISE == 96,
        EDU_ACKNOWLEDGE == 100,
{
    let t = tried(message, read, first, second);
    assert(t.take(6) =~= seq![
        Access::Write { at: 12, width: 4, value: 1 },
        Access::Write { at: 0, width: 8, value: message.address },
        Access::Write { at: 8, width: 4, value: message.data as u64 },
        Access::Read { at: 0, width: 8, value: read.address },
        Access::Read { at: 8, width: 4, value: read.data as u64 },
        Access::Read { at: 12, width: 4, value: first as u64 },
    ]);
    if read == message && first % 2 == 1 {
        assert(t.skip(6) =~= seq![
            Access::Write { at: 12, width: 4, value: 0 },
            Access::Read { at: 12, width: 4, value: second as u64 },
        ] + if second % 2 == 1 {
            seq![]
        } else {
            seq![Access::Write { at: 12, width: 4, value: 1 }]
        });
    }
}

} // verus!
