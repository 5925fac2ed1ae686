//! The programmer's commands, and which of them an operation takes.
//!
//! An operation is described by the steps `t` that it takes in a session and
//! the result that it ends in: which command comes next depends on the replies
//! before it.

use vstd::prelude::*;

use crate::bytes;
use crate::error::DebugProbeError;
use crate::transport;
use crate::transport::Entry;

verus! {

/// Bytes that one sector erase clears.
pub const FLASH_SECTOR_SIZE: usize = 4096;

/// Bytes that one page write can reach.
pub const FLASH_PAGE_SIZE: usize = 256;

/// Bytes that one flash read asks for at most.
pub const MAX_FLASH_READ_SIZE: usize = 1024;

/// How often the flash status is polled after a write or a sector erase.
pub const READY_POLLS: usize = 300;

/// How often the flash status is polled after erasing all of it.
pub const ERASE_ALL_POLLS: usize = 3000;

pub const CMD_FUNCS: u8 = 0;

pub const CMD_FLASH_READ: u8 = 1;

pub const CMD_FLASH_WRITE: u8 = 2;

pub const CMD_FLASH_SECT_ERASE: u8 = 3;

pub const CMD_FLASH_ALL_ERASE: u8 = 4;

pub const CMD_FLASH_GET_STATUS: u8 = 6;

pub const CMD_SWIRE_READ: u8 = 7;

pub const CMD_SWIRE_WRITE: u8 = 8;

pub const CMDF_GET_VERSION: u8 = 0;

pub const CMDF_SWIRE_CFG: u8 = 2;

pub const CMDF_EXT_POWER: u8 = 3;

pub const CMDF_SWIRE_ACTIVATE: u8 = 4;

pub const ERR_NONE: u8 = 0;

/// The number of address bytes on the single wire.
pub const SWIRE_ADDRESS_LEN: u8 = 3;

/// The bit divider that a probe attaches with: a fifth of the programmer's
/// clock.
pub const ATTACH_SWDIV: u8 = 4;

/// How many activation frames a probe sends first when it attaches. At the
/// divider and the address length above they last for 70 ms.
pub const ATTACH_ACTIVATIONS: u16 = 965;

/// How many activation frames a probe sends after a reset when it attaches.
/// They last for 100 ms.
pub const RECOVERY_ACTIVATIONS: u16 = 1379;

/// How long the reset pin is held when an activation is repeated, in
/// milliseconds.
pub const RECOVERY_RESET_MS: u64 = 10;

/// Flash bytes from `start` up to, not with, `end`.
#[derive(Clone, Copy, Debug, PartialEq, Eq, Structural)]
pub struct FlashRange {
    pub start: u32,
    pub end: u32,
}

/// What is known of the flash: whether all of it was erased, and what has been
/// programmed since.
pub struct FlashState {
    pub erased: bool,
    pub ranges: Seq<FlashRange>,
}

/// A request for `len` bytes at `address`.
pub open spec fn read_request(command: u8, address: nat, len: nat) -> Seq<u8> {
    seq![command] + bytes::le_bytes(address, 3) + bytes::le_bytes(len, 2)
}

/// A request that hands over `data` for `address`. Only the three low bytes of
/// an address are sent.
pub open spec fn write_request(command: u8, address: nat, data: Seq<u8>) -> Seq<u8> {
    seq![command] + bytes::le_bytes(address, 3) + data
}

/// A request without an address.
pub open spec fn plain_request(command: u8) -> Seq<u8> {
    seq![command, 0, 0, 0]
}

pub open spec fn version_request() -> Seq<u8> {
    seq![CMD_FUNCS, CMDF_GET_VERSION, 0, 0]
}

pub open spec fn reset_pin_request(enabled: bool) -> Seq<u8> {
    seq![CMD_FUNCS, CMDF_EXT_POWER, if enabled { 1u8 } else { 0u8 }, 0]
}

pub open spec fn swire_config_request(swdiv: u8, swaddrlen: u8) -> Seq<u8> {
    seq![CMD_FUNCS, CMDF_SWIRE_CFG, 0, 0, swdiv, swaddrlen, 0x5a, 0x00, 0x06, 0x02, 0x00, 0x05]
}

pub open spec fn activate_request(count: u16) -> Seq<u8> {
    seq![CMD_FUNCS, CMDF_SWIRE_ACTIVATE] + bytes::le_bytes(count as nat, 2)
}

/// The speed that the bit divider `swdiv` gives, in kHz.
pub open spec fn speed_of(swdiv: u8) -> int {
    let speed = 24_000int / 5 / swdiv as int;
    if speed < 1 {
        1
    } else {
        speed
    }
}

/// The bit divider for a speed in kHz.
pub open spec fn divider_of(speed_khz: u32) -> int {
    let wanted = if speed_khz < 1 {
        1
    } else {
        speed_khz as int
    };
    let divider = 24_000int / 5 / wanted;
    if divider < 1 {
        1
    } else if divider > 255 {
        255
    } else {
        divider
    }
}

/// One command of which only the success matters.
pub open spec fn performs(
    request: Seq<u8>,
    want: nat,
    t: Seq<Entry>,
    result: Result<(), DebugProbeError>,
) -> bool {
    &&& t.len() == 1
    &&& transport::is_command(t[0], request, want)
    &&& match transport::reply_of(t[0]) {
        Err(error) => result == Err::<(), _>(error),
        Ok(_) => result is Ok,
    }
}

/// Setting the level of the reset pin.
pub open spec fn sets_reset_pin(
    enabled: bool,
    t: Seq<Entry>,
    result: Result<(), DebugProbeError>,
) -> bool {
    performs(reset_pin_request(enabled), 7, t, result)
}

/// Pulling the reset pin and letting it go.
pub open spec fn resets(t: Seq<Entry>, result: Result<(), DebugProbeError>) -> bool {
    &&& t.len() >= 1
    &&& if t.len() == 1 {
        result is Err && sets_reset_pin(true, t, result)
    } else {
        &&& sets_reset_pin(true, t.take(1), Ok(()))
        &&& sets_reset_pin(false, t.skip(1), result)
    }
}

/// Activating the target with `count` frames.
pub open spec fn activates(
    count: u16,
    t: Seq<Entry>,
    result: Result<(), DebugProbeError>,
) -> bool {
    &&& t.len() == 1
    &&& transport::is_activation(t[0], activate_request(count))
    &&& match transport::reply_of(t[0]) {
        Err(error) => result == Err::<(), _>(error),
        Ok(_) => result is Ok,
    }
}

/// Activating the target with `initial` frames and, should that fail, once more
/// with `recovery` frames after holding the reset pin for a while.
pub open spec fn activates_or_recovers(
    initial: u16,
    recovery: u16,
    t: Seq<Entry>,
    result: Result<(), DebugProbeError>,
) -> bool {
    &&& t.len() >= 1
    &&& transport::is_activation(t[0], activate_request(initial))
    &&& if transport::reply_of(t[0]) is Ok {
        t.len() == 1 && result is Ok
    } else if t.len() == 2 {
        result is Err && sets_reset_pin(true, t.skip(1), result)
    } else {
        &&& t.len() >= 4
        &&& sets_reset_pin(true, t.subrange(1, 2), Ok(()))
        &&& t[2] == Entry::Delayed { millis: RECOVERY_RESET_MS }
        &&& if t.len() == 4 {
            result is Err && sets_reset_pin(false, t.skip(3), result)
        } else {
            &&& sets_reset_pin(false, t.subrange(3, 4), Ok(()))
            &&& activates(recovery, t.skip(4), result)
        }
    }
}

/// Attaching: the version, the wire configuration, the reset pin, then the
/// activation; the first failure ends it.
pub open spec fn attaches(t: Seq<Entry>, result: Result<(), DebugProbeError>) -> bool {
    &&& t.len() >= 1
    &&& if t.len() == 1 {
        result is Err && performs(version_request(), 19, t, result)
    } else {
        &&& performs(version_request(), 19, t.take(1), Ok(()))
        &&& if t.len() == 2 {
            result is Err && configures(ATTACH_SWDIV, SWIRE_ADDRESS_LEN, t.skip(1), result)
        } else {
            &&& configures(ATTACH_SWDIV, SWIRE_ADDRESS_LEN, t.subrange(1, 2), Ok(()))
            &&& if t.len() == 3 {
                result is Err && sets_reset_pin(false, t.skip(2), result)
            } else {
                &&& sets_reset_pin(false, t.subrange(2, 3), Ok(()))
                &&& activates_or_recovers(
                    ATTACH_ACTIVATIONS,
                    RECOVERY_ACTIVATIONS,
                    t.skip(3),
                    result,
                )
            }
        }
    }
}

/// Configuring the single wire.
pub open spec fn configures(
    swdiv: u8,
    swaddrlen: u8,
    t: Seq<Entry>,
    result: Result<(), DebugProbeError>,
) -> bool {
    performs(swire_config_request(swdiv, swaddrlen), 14, t, result)
}

/// The status byte that a poll brought, or how the poll failed.
pub open spec fn status_of(entry: Entry) -> Result<u8, DebugProbeError> {
    match transport::reply_of(entry) {
        Err(error) => Err(error),
        Ok(reply) => if transport::count_of(reply) != 1 {
            Err(DebugProbeError::FlashStatusLength)
        } else {
            Ok(reply[4])
        },
    }
}

/// Whether a status byte says that the flash is busy.
pub open spec fn is_busy(status: u8) -> bool {
    status % 2 == 1
}

/// Waiting for the flash: up to `polls` polls, and no further one after the
/// first that failed or found the flash ready.
#[verifier::opaque]
pub open spec fn waits(polls: nat, t: Seq<Entry>, result: Result<(), DebugProbeError>) -> bool {
    &&& t.len() <= polls
    &&& forall|i: int|
        0 <= i < t.len() ==> transport::is_command(
            #[trigger] t[i],
            plain_request(CMD_FLASH_GET_STATUS),
            7,
        )
    &&& forall|i: int|
        0 <= i < t.len() - 1 ==> (status_of(#[trigger] t[i]) matches Ok(status) && is_busy(status))
    &&& if t.len() == 0 {
        polls == 0 && result == Err::<(), _>(DebugProbeError::Timeout)
    } else {
        match status_of(t.last()) {
            Err(error) => result == Err::<(), _>(error),
            Ok(status) => if is_busy(status) {
                t.len() == polls && result == Err::<(), _>(DebugProbeError::Timeout)
            } else {
                result is Ok
            },
        }
    }
}

/// Erasing the sector at `address`: the command, then waiting for the flash.
#[verifier::opaque]
pub open spec fn erases_sector(
    address: nat,
    t: Seq<Entry>,
    result: Result<(), DebugProbeError>,
) -> bool {
    &&& t.len() > 0
    &&& transport::is_command(t[0], write_request(CMD_FLASH_SECT_ERASE, address, Seq::empty()), 6)
    &&& match transport::reply_of(t[0]) {
        Err(error) => t.len() == 1 && result == Err::<(), _>(error),
        Ok(_) => waits(READY_POLLS as nat, t.skip(1), result),
    }
}

/// Erasing all flash.
#[verifier::opaque]
pub open spec fn erases_all(t: Seq<Entry>, result: Result<(), DebugProbeError>) -> bool {
    &&& t.len() > 0
    &&& transport::is_command(t[0], plain_request(CMD_FLASH_ALL_ERASE), 6)
    &&& match transport::reply_of(t[0]) {
        Err(error) => t.len() == 1 && result == Err::<(), _>(error),
        Ok(_) => waits(ERASE_ALL_POLLS as nat, t.skip(1), result),
    }
}

/// Programming `data` at `address` with one page write.
#[verifier::opaque]
pub open spec fn programs_page(
    address: nat,
    data: Seq<u8>,
    t: Seq<Entry>,
    result: Result<(), DebugProbeError>,
) -> bool {
    if data.len() > FLASH_PAGE_SIZE {
        &&& t.len() == 0
        &&& result == Err::<(), _>(DebugProbeError::FlashBlockTooLarge(data.len() as usize))
    } else {
        &&& t.len() > 0
        &&& transport::is_command(t[0], write_request(CMD_FLASH_WRITE, address, data), 6)
        &&& match transport::reply_of(t[0]) {
            Err(error) => t.len() == 1 && result == Err::<(), _>(error),
            Ok(reply) => if transport::count_of(reply) != data.len() {
                &&& t.len() == 1
                &&& result == Err::<(), _>(
                    DebugProbeError::FlashWriteLength {
                        written: transport::count_of(reply) as u16,
                        expected: data.len() as usize,
                    },
                )
            } else {
                waits(READY_POLLS as nat, t.skip(1), result)
            },
        }
    }
}

/// How many of `len` bytes at `address` lie before the next multiple of `unit`.
pub open spec fn fits(address: nat, len: nat, unit: nat) -> nat {
    let room = (unit - address % unit) as nat;
    if len < room {
        len
    } else {
        room
    }
}

/// Whether every byte of `data` is in the erased state.
pub open spec fn is_blank(data: Seq<u8>) -> bool {
    forall|i: int| 0 <= i < data.len() ==> #[trigger] data[i] == 0xff
}

/// Programming `data` at `address`, page by page; the part of a page that is
/// blank is left out.
#[verifier::opaque]
pub open spec fn programs(
    address: nat,
    data: Seq<u8>,
    t: Seq<Entry>,
    result: Result<(), DebugProbeError>,
) -> bool
    decreases data.len(),
{
    if data.len() == 0 {
        t.len() == 0 && result is Ok
    } else {
        let n = fits(address, data.len(), FLASH_PAGE_SIZE as nat) as int;
        if n <= 0 || n > data.len() {
            false
        } else if is_blank(data.take(n)) {
            programs(address + n as nat, data.skip(n), t, result)
        } else {
            exists|k: int, page: Result<(), DebugProbeError>|
                {
                    &&& 0 <= k <= t.len()
                    &&& #[trigger] programs_page(address, data.take(n), t.take(k), page)
                    &&& match page {
                        Err(_) => k == t.len() && result == page,
                        Ok(_) => programs((address + n) as nat, data.skip(n), t.skip(k), result),
                    }
                }
        }
    }
}

/// How many flash reads `len` bytes take.
pub open spec fn read_count(len: nat) -> nat {
    (len + MAX_FLASH_READ_SIZE - 1) as nat / MAX_FLASH_READ_SIZE as nat
}

/// How many bytes the read with index `i` of `len` bytes asks for.
pub open spec fn read_len(len: nat, i: int) -> nat {
    let left = (len - MAX_FLASH_READ_SIZE * i) as nat;
    if left < MAX_FLASH_READ_SIZE {
        left
    } else {
        MAX_FLASH_READ_SIZE as nat
    }
}

/// The address of the read with index `i`. How far it lies behind the first is
/// kept in 32 bits.
pub open spec fn read_address(address: nat, i: int) -> nat {
    address + (MAX_FLASH_READ_SIZE * i) as nat % 0x1_0000_0000
}

/// Whether all reads of `len` bytes at `address` have addresses of 32 bits.
pub open spec fn reads_fit(address: nat, len: nat) -> bool {
    forall|i: int|
        0 <= i < read_count(len) ==> #[trigger] read_address(address, i) < 0x1_0000_0000
}

/// Reading `len` bytes of flash at `address`, in as few reads as possible and
/// up to the first that fails.
#[verifier::opaque]
pub open spec fn reads_flash(
    address: nat,
    len: nat,
    t: Seq<Entry>,
    result: Result<(), DebugProbeError>,
) -> bool {
    &&& t.len() <= read_count(len)
    &&& forall|i: int|
        0 <= i < t.len() ==> transport::is_command(
            #[trigger] t[i],
            read_request(CMD_FLASH_READ, read_address(address, i), read_len(len, i)),
            read_len(len, i) + 6,
        )
    &&& forall|i: int| 0 <= i < t.len() - 1 ==> transport::reply_of(#[trigger] t[i]) is Ok
    &&& match result {
        Ok(_) => {
            &&& t.len() == read_count(len)
            &&& t.len() > 0 ==> transport::reply_of(t.last()) is Ok
        },
        Err(error) => t.len() > 0 && transport::reply_of(t.last()) == Err::<Seq<u8>, _>(error),
    }
}

/// The byte with index `j` that the flash reads `t` brought.
pub open spec fn byte_read(t: Seq<Entry>, j: int) -> u8 {
    transport::reply_of(t[j / MAX_FLASH_READ_SIZE as int])->Ok_0[4 + j % MAX_FLASH_READ_SIZE as int]
}

/// The bytes that the flash reads `t` of `len` bytes brought.
pub open spec fn bytes_read(t: Seq<Entry>, len: nat) -> Seq<u8> {
    Seq::new(len, |j: int| byte_read(t, j))
}

/// Whether `current` turns into `desired` by clearing bits alone.
pub open spec fn can_program(current: Seq<u8>, desired: Seq<u8>) -> bool {
    forall|i: int|
        #![trigger current[i]]
        #![trigger desired[i]]
        0 <= i < current.len() && i < desired.len() ==> current[i] & desired[i] == desired[i]
}

/// `content` with `part` in place of the bytes from `at` on.
pub open spec fn with_part(content: Seq<u8>, at: int, part: Seq<u8>) -> Seq<u8> {
    Seq::new(
        content.len(),
        |i: int|
            if at <= i < at + part.len() {
                part[i - at]
            } else {
                content[i]
            },
    )
}

/// The length of a range as it is kept: in 32 bits.
pub open spec fn kept_len(len: nat) -> nat {
    len % 0x1_0000_0000
}

/// Whether the flash from `address` on can be taken to be erased.
pub open spec fn assumes_erased(flash: FlashState, address: u32, len: nat) -> bool {
    let end = address + kept_len(len);
    &&& end <= u32::MAX
    &&& flash.erased
    &&& forall|i: int|
        0 <= i < flash.ranges.len() ==> {
            let range = #[trigger] flash.ranges[i];
            range.end <= address || end <= range.start
        }
}

/// `flash` once the bytes from `address` on have been programmed.
pub open spec fn marked(flash: FlashState, address: u32, len: nat) -> FlashState {
    let end = address + kept_len(len);
    if end <= u32::MAX && end > address {
        FlashState {
            ranges: flash.ranges.push(FlashRange { start: address, end: end as u32 }),
            ..flash
        }
    } else {
        flash
    }
}

/// `flash` once a sector has been erased: nothing is known any more.
pub open spec fn after_sector_erase() -> FlashState {
    FlashState { erased: false, ranges: Seq::empty() }
}

/// `flash` once all of it has been erased.
pub open spec fn after_erase_all() -> FlashState {
    FlashState { erased: true, ranges: Seq::empty() }
}

/// Replacing the sector at `start` by `content`: erase it, then program it.
#[verifier::opaque]
pub open spec fn replaces_sector(
    before: FlashState,
    start: nat,
    content: Seq<u8>,
    t: Seq<Entry>,
    result: Result<(), DebugProbeError>,
    after: FlashState,
) -> bool {
    exists|k: int, erase: Result<(), DebugProbeError>|
        {
            &&& 0 <= k <= t.len()
            &&& #[trigger] erases_sector(start, t.take(k), erase)
            &&& match erase {
                Err(_) => {
                    &&& k == t.len()
                    &&& result == erase
                    &&& after == if transport::reply_of(t[0]) is Ok {
                        after_sector_erase()
                    } else {
                        before
                    }
                },
                Ok(_) => {
                    &&& programs(start, content, t.skip(k), result)
                    &&& after == if result is Ok {
                        marked(after_sector_erase(), start as u32, content.len())
                    } else {
                        after_sector_erase()
                    }
                },
            }
        }
}

/// Writing `chunk`, which lies in one sector, at `address`.
///
/// A whole sector is replaced. A part of one is read first: it is left alone
/// if it matches, programmed if that takes clearing bits alone, and otherwise
/// the sector is read, changed and replaced.
#[verifier::opaque]
pub open spec fn writes_in_sector(
    before: FlashState,
    address: nat,
    chunk: Seq<u8>,
    t: Seq<Entry>,
    result: Result<(), DebugProbeError>,
    after: FlashState,
) -> bool {
    let offset = address % FLASH_SECTOR_SIZE as nat;
    let start = (address - offset) as nat;
    let k = read_count(chunk.len()) as int;
    let current = bytes_read(t.take(k), chunk.len());
    if offset == 0 && chunk.len() == FLASH_SECTOR_SIZE {
        replaces_sector(before, start, chunk, t, result, after)
    } else if result is Err && reads_flash(address, chunk.len(), t, result) {
        after == before
    } else {
        &&& k <= t.len()
        &&& reads_flash(address, chunk.len(), t.take(k), Ok(()))
        &&& if current == chunk {
            t.len() == k && result is Ok && after == before
        } else if can_program(current, chunk) {
            &&& programs(address, chunk, t.skip(k), result)
            &&& after == if result is Ok {
                marked(before, address as u32, chunk.len())
            } else {
                before
            }
        } else {
            rewrites_sector(before, start, offset as int, chunk, t.skip(k), result, after)
        }
    }
}

/// Reading the sector at `start`, putting `part` in at `offset`, and replacing
/// the sector by that.
#[verifier::opaque]
pub open spec fn rewrites_sector(
    before: FlashState,
    start: nat,
    offset: int,
    part: Seq<u8>,
    t: Seq<Entry>,
    result: Result<(), DebugProbeError>,
    after: FlashState,
) -> bool {
    let size = FLASH_SECTOR_SIZE as nat;
    let k = read_count(size) as int;
    if result is Err && reads_flash(start, size, t, result) {
        after == before
    } else {
        &&& k <= t.len()
        &&& reads_flash(start, size, t.take(k), Ok(()))
        &&& replaces_sector(
            before,
            start,
            with_part(bytes_read(t.take(k), size), offset, part),
            t.skip(k),
            result,
            after,
        )
    }
}

/// Writing `data` at `address`, sector by sector.
#[verifier::opaque]
pub open spec fn writes_sectors(
    before: FlashState,
    address: nat,
    data: Seq<u8>,
    t: Seq<Entry>,
    result: Result<(), DebugProbeError>,
    after: FlashState,
) -> bool
    decreases data.len(),
{
    if data.len() == 0 {
        t.len() == 0 && result is Ok && after == before
    } else {
        let n = fits(address, data.len(), FLASH_SECTOR_SIZE as nat) as int;
        if n <= 0 || n > data.len() {
            false
        } else {
            exists|k: int, sector: Result<(), DebugProbeError>, middle: FlashState|
                {
                    &&& 0 <= k <= t.len()
                    &&& #[trigger] writes_in_sector(
                        before,
                        address,
                        data.take(n),
                        t.take(k),
                        sector,
                        middle,
                    )
                    &&& match sector {
                        Err(_) => k == t.len() && result == sector && after == middle,
                        Ok(_) => writes_sectors(
                            middle,
                            (address + n) as nat,
                            data.skip(n),
                            t.skip(k),
                            result,
                            after,
                        ),
                    }
                }
        }
    }
}

/// Writing `data` at `address`: programmed at once where the flash is taken to
/// be erased, sector by sector otherwise.
pub open spec fn writes_flash(
    before: FlashState,
    address: u32,
    data: Seq<u8>,
    t: Seq<Entry>,
    result: Result<(), DebugProbeError>,
    after: FlashState,
) -> bool {
    if assumes_erased(before, address, data.len()) {
        &&& programs(address as nat, data, t, result)
        &&& after == if result is Ok {
            marked(before, address, data.len())
        } else {
            before
        }
    } else {
        writes_sectors(before, address as nat, data, t, result, after)
    }
}

/// Programming data that does not begin with a blank part of a page: how many
/// steps the page takes, and what it ends in.
pub proof fn lemma_programs_cut(
    address: nat,
    data: Seq<u8>,
    t: Seq<Entry>,
    result: Result<(), DebugProbeError>,
) -> (cut: (int, Result<(), DebugProbeError>))
    requires
        programs(address, data, t, result),
        data.len() > 0,
        !is_blank(data.take(fits(address, data.len(), FLASH_PAGE_SIZE as nat) as int)),
    ensures
        ({
            let n = fits(address, data.len(), FLASH_PAGE_SIZE as nat) as int;
            let (k, page) = cut;
            &&& 0 <= k <= t.len()
            &&& programs_page(address, data.take(n), t.take(k), page)
            &&& match page {
                Err(_) => k == t.len() && result == page,
                Ok(_) => programs((address + n) as nat, data.skip(n), t.skip(k), result),
            }
        }),
{
    reveal_with_fuel(programs, 2);
    let n = fits(address, data.len(), FLASH_PAGE_SIZE as nat) as int;
    choose|k: int, page: Result<(), DebugProbeError>|
        {
            &&& 0 <= k <= t.len()
            &&& #[trigger] programs_page(address, data.take(n), t.take(k), page)
            &&& match page {
                Err(_) => k == t.len() && result == page,
                Ok(_) => programs((address + n) as nat, data.skip(n), t.skip(k), result),
            }
        }
}

/// Replacing a sector: how many steps the erase takes, and what it ends in.
pub proof fn lemma_replaces_cut(
    before: FlashState,
    start: nat,
    content: Seq<u8>,
    t: Seq<Entry>,
    result: Result<(), DebugProbeError>,
    after: FlashState,
) -> (cut: (int, Result<(), DebugProbeError>))
    requires
        replaces_sector(before, start, content, t, result, after),
    ensures
        ({
            let (k, erase) = cut;
            &&& 0 < k <= t.len()
            &&& erases_sector(start, t.take(k), erase)
            &&& match erase {
                Err(_) => {
                    &&& k == t.len()
                    &&& result == erase
                    &&& after == if transport::reply_of(t[0]) is Ok {
                        after_sector_erase()
                    } else {
                        before
                    }
                },
                Ok(_) => {
                    &&& programs(start, content, t.skip(k), result)
                    &&& after == if result is Ok {
                        marked(after_sector_erase(), start as u32, content.len())
                    } else {
                        after_sector_erase()
                    }
                },
            }
        }),
{
    reveal(replaces_sector);
    reveal(erases_sector);
    choose|k: int, erase: Result<(), DebugProbeError>|
        {
            &&& 0 <= k <= t.len()
            &&& #[trigger] erases_sector(start, t.take(k), erase)
            &&& match erase {
                Err(_) => {
                    &&& k == t.len()
                    &&& result == erase
                    &&& after == if transport::reply_of(t[0]) is Ok {
                        after_sector_erase()
                    } else {
                        before
                    }
                },
                Ok(_) => {
                    &&& programs(start, content, t.skip(k), result)
                    &&& after == if result is Ok {
                        marked(after_sector_erase(), start as u32, content.len())
                    } else {
                        after_sector_erase()
                    }
                },
            }
        }
}

/// Writing data sector by sector: how many steps the first sector takes, what it
/// ends in, and what is known of the flash then.
pub proof fn lemma_writes_cut(
    before: FlashState,
    address: nat,
    data: Seq<u8>,
    t: Seq<Entry>,
    result: Result<(), DebugProbeError>,
    after: FlashState,
) -> (cut: (int, Result<(), DebugProbeError>, FlashState))
    requires
        writes_sectors(before, address, data, t, result, after),
        data.len() > 0,
    ensures
        ({
            let n = fits(address, data.len(), FLASH_SECTOR_SIZE as nat) as int;
            let (k, sector, middle) = cut;
            &&& 0 <= k <= t.len()
            &&& writes_in_sector(before, address, data.take(n), t.take(k), sector, middle)
            &&& match sector {
                Err(_) => k == t.len() && result == sector && after == middle,
                Ok(_) => writes_sectors(
                    middle,
                    (address + n) as nat,
                    data.skip(n),
                    t.skip(k),
                    result,
                    after,
                ),
            }
        }),
{
    reveal_with_fuel(writes_sectors, 2);
    let n = fits(address, data.len(), FLASH_SECTOR_SIZE as nat) as int;
    choose|k: int, sector: Result<(), DebugProbeError>, middle: FlashState|
        {
            &&& 0 <= k <= t.len()
            &&& #[trigger] writes_in_sector(
                before,
                address,
                data.take(n),
                t.take(k),
                sector,
                middle,
            )
            &&& match sector {
                Err(_) => k == t.len() && result == sector && after == middle,
                Ok(_) => writes_sectors(
                    middle,
                    (address + n) as nat,
                    data.skip(n),
                    t.skip(k),
                    result,
                    after,
                ),
            }
        }
}

/// Whether programming `data` at `address` from the start amounts to the steps
/// `done` and then programming `todo` at `at`.
#[verifier::opaque]
pub open spec fn programs_on(
    address: nat,
    data: Seq<u8>,
    done: Seq<Entry>,
    at: nat,
    todo: Seq<u8>,
) -> bool {
    forall|rest: Seq<Entry>, result: Result<(), DebugProbeError>|
        #[trigger] programs(at, todo, rest, result) ==> programs(
            address,
            data,
            done + rest,
            result,
        )
}

pub proof fn lemma_programs_begin(address: nat, data: Seq<u8>)
    ensures
        programs_on(address, data, Seq::empty(), address, data),
{
    reveal(programs_on);
    reveal_with_fuel(programs, 2);
    assert forall|rest: Seq<Entry>, result: Result<(), DebugProbeError>| #[trigger]
        programs(address, data, rest, result) implies programs(
        address,
        data,
        Seq::<Entry>::empty() + rest,
        result,
    ) by {
        assert(Seq::<Entry>::empty() + rest =~= rest);
    }
}

/// The part of a page that is blank takes no step.
pub proof fn lemma_programs_blank(
    address: nat,
    data: Seq<u8>,
    done: Seq<Entry>,
    at: nat,
    todo: Seq<u8>,
)
    requires
        programs_on(address, data, done, at, todo),
        todo.len() > 0,
        is_blank(todo.take(fits(at, todo.len(), FLASH_PAGE_SIZE as nat) as int)),
    ensures
        ({
            let n = fits(at, todo.len(), FLASH_PAGE_SIZE as nat);
            programs_on(address, data, done, at + n, todo.skip(n as int))
        }),
{
    reveal(programs_on);
    reveal_with_fuel(programs, 2);
    let n = fits(at, todo.len(), FLASH_PAGE_SIZE as nat);
    assert forall|rest: Seq<Entry>, result: Result<(), DebugProbeError>| #[trigger]
        programs(at + n, todo.skip(n as int), rest, result) implies programs(
        address,
        data,
        done + rest,
        result,
    ) by {
        assert(programs(at, todo, rest, result));
    }
}

/// A page that was programmed.
pub proof fn lemma_programs_page(
    address: nat,
    data: Seq<u8>,
    done: Seq<Entry>,
    at: nat,
    todo: Seq<u8>,
    steps: Seq<Entry>,
    outcome: Result<(), DebugProbeError>,
)
    requires
        programs_on(address, data, done, at, todo),
        todo.len() > 0,
        outcome is Ok,
        ({
            let page = todo.take(fits(at, todo.len(), FLASH_PAGE_SIZE as nat) as int);
            !is_blank(page) && programs_page(at, page, steps, outcome)
        }),
    ensures
        ({
            let n = fits(at, todo.len(), FLASH_PAGE_SIZE as nat);
            programs_on(address, data, done + steps, at + n, todo.skip(n as int))
        }),
{
    reveal(programs_on);
    reveal_with_fuel(programs, 2);
    let n = fits(at, todo.len(), FLASH_PAGE_SIZE as nat);
    assert forall|rest: Seq<Entry>, result: Result<(), DebugProbeError>| #[trigger]
        programs(at + n, todo.skip(n as int), rest, result) implies programs(
        address,
        data,
        done + steps + rest,
        result,
    ) by {
        let both = steps + rest;
        assert(both.take(steps.len() as int) =~= steps);
        assert(both.skip(steps.len() as int) =~= rest);
        assert(programs_page(at, todo.take(n as int), both.take(steps.len() as int), outcome));
        assert(programs(at, todo, both, result));
        assert(done + both =~= done + steps + rest);
    }
}

/// A page that could not be programmed ends it.
pub proof fn lemma_programs_failed(
    address: nat,
    data: Seq<u8>,
    done: Seq<Entry>,
    at: nat,
    todo: Seq<u8>,
    steps: Seq<Entry>,
    error: DebugProbeError,
)
    requires
        programs_on(address, data, done, at, todo),
        todo.len() > 0,
        ({
            let page = todo.take(fits(at, todo.len(), FLASH_PAGE_SIZE as nat) as int);
            !is_blank(page) && programs_page(at, page, steps, Err(error))
        }),
    ensures
        programs(address, data, done + steps, Err(error)),
{
    reveal(programs_on);
    reveal_with_fuel(programs, 2);
    let n = fits(at, todo.len(), FLASH_PAGE_SIZE as nat);
    assert(steps.take(steps.len() as int) =~= steps);
    assert(programs_page(at, todo.take(n as int), steps.take(steps.len() as int), Err(error)));
    assert(programs(at, todo, steps, Err(error)));
}

pub proof fn lemma_programs_end(
    address: nat,
    data: Seq<u8>,
    done: Seq<Entry>,
    at: nat,
    todo: Seq<u8>,
)
    requires
        programs_on(address, data, done, at, todo),
        todo.len() == 0,
    ensures
        programs(address, data, done, Ok(())),
{
    reveal(programs_on);
    reveal_with_fuel(programs, 2);
    assert(programs(at, todo, Seq::<Entry>::empty(), Ok(())));
    assert(done + Seq::<Entry>::empty() =~= done);
}

/// Reads that do not leave the 32-bit address space have addresses of 32 bits.
pub proof fn lemma_reads_fit(address: nat, len: nat)
    requires
        address + len <= 0x1_0000_0000,
    ensures
        reads_fit(address, len),
{
    assert forall|i: int| 0 <= i < read_count(len) implies #[trigger] read_address(address, i)
        < 0x1_0000_0000 by {
        assert(1024 * i < len);
    }
}

/// A read that succeeded, and nothing that follows it, is no failed read.
pub proof fn lemma_read_done(
    address: nat,
    len: nat,
    reading: Seq<Entry>,
    read: Result<(), DebugProbeError>,
    rest: Seq<Entry>,
    result: Result<(), DebugProbeError>,
)
    requires
        reads_flash(address, len, reading, read),
        read is Ok,
    ensures
        reading.len() == read_count(len),
        reads_flash(address, len, reading, Ok(())),
        (reading + rest).take(reading.len() as int) == reading,
        (reading + rest).skip(reading.len() as int) == rest,
        result is Err ==> !reads_flash(address, len, reading + rest, result),
{
    reveal(reads_flash);
    let t = reading + rest;
    assert(t.take(reading.len() as int) =~= reading);
    assert(t.skip(reading.len() as int) =~= rest);
    if result is Err && reads_flash(address, len, t, result) {
        assert(rest.len() == 0);
        assert(t =~= reading);
    }
}

/// Whether writing `data` at `address` from the start amounts to the steps
/// `done`, which left the flash in the state `now`, and then writing `todo` at
/// `at`.
#[verifier::opaque]
pub open spec fn writes_on(
    before: FlashState,
    address: nat,
    data: Seq<u8>,
    done: Seq<Entry>,
    now: FlashState,
    at: nat,
    todo: Seq<u8>,
) -> bool {
    forall|rest: Seq<Entry>, result: Result<(), DebugProbeError>, after: FlashState|
        #[trigger] writes_sectors(now, at, todo, rest, result, after) ==> writes_sectors(
            before,
            address,
            data,
            done + rest,
            result,
            after,
        )
}

pub proof fn lemma_writes_begin(before: FlashState, address: nat, data: Seq<u8>)
    ensures
        writes_on(before, address, data, Seq::empty(), before, address, data),
{
    reveal(writes_on);
    reveal_with_fuel(writes_sectors, 2);
    assert forall|rest: Seq<Entry>, result: Result<(), DebugProbeError>, after: FlashState|
        #[trigger]
        writes_sectors(before, address, data, rest, result, after) implies writes_sectors(
        before,
        address,
        data,
        Seq::<Entry>::empty() + rest,
        result,
        after,
    ) by {
        assert(Seq::<Entry>::empty() + rest =~= rest);
    }
}

/// A sector, or a part of one, that was written.
pub proof fn lemma_writes_sector(
    before: FlashState,
    address: nat,
    data: Seq<u8>,
    done: Seq<Entry>,
    now: FlashState,
    at: nat,
    todo: Seq<u8>,
    steps: Seq<Entry>,
    next: FlashState,
    outcome: Result<(), DebugProbeError>,
)
    requires
        writes_on(before, address, data, done, now, at, todo),
        todo.len() > 0,
        outcome is Ok,
        writes_in_sector(
            now,
            at,
            todo.take(fits(at, todo.len(), FLASH_SECTOR_SIZE as nat) as int),
            steps,
            outcome,
            next,
        ),
    ensures
        ({
            let n = fits(at, todo.len(), FLASH_SECTOR_SIZE as nat);
            writes_on(before, address, data, done + steps, next, at + n, todo.skip(n as int))
        }),
{
    reveal(writes_on);
    reveal_with_fuel(writes_sectors, 2);
    let n = fits(at, todo.len(), FLASH_SECTOR_SIZE as nat);
    assert forall|rest: Seq<Entry>, result: Result<(), DebugProbeError>, after: FlashState|
        #[trigger]
        writes_sectors(
            next,
            at + n,
            todo.skip(n as int),
            rest,
            result,
            after,
        ) implies writes_sectors(
        before,
        address,
        data,
        done + steps + rest,
        result,
        after,
    ) by {
        let both = steps + rest;
        assert(both.take(steps.len() as int) =~= steps);
        assert(both.skip(steps.len() as int) =~= rest);
        assert(writes_in_sector(
            now,
            at,
            todo.take(n as int),
            both.take(steps.len() as int),
            outcome,
            next,
        ));
        assert(writes_sectors(now, at, todo, both, result, after));
        assert(done + both =~= done + steps + rest);
    }
}

/// A sector that could not be written ends it.
pub proof fn lemma_writes_failed(
    before: FlashState,
    address: nat,
    data: Seq<u8>,
    done: Seq<Entry>,
    now: FlashState,
    at: nat,
    todo: Seq<u8>,
    steps: Seq<Entry>,
    next: FlashState,
    error: DebugProbeError,
)
    requires
        writes_on(before, address, data, done, now, at, todo),
        todo.len() > 0,
        writes_in_sector(
            now,
            at,
            todo.take(fits(at, todo.len(), FLASH_SECTOR_SIZE as nat) as int),
            steps,
            Err(error),
            next,
        ),
    ensures
        writes_sectors(before, address, data, done + steps, Err(error), next),
{
    reveal(writes_on);
    reveal_with_fuel(writes_sectors, 2);
    let n = fits(at, todo.len(), FLASH_SECTOR_SIZE as nat);
    assert(steps.take(steps.len() as int) =~= steps);
    assert(writes_in_sector(
        now,
        at,
        todo.take(n as int),
        steps.take(steps.len() as int),
        Err(error),
        next,
    ));
    assert(writes_sectors(now, at, todo, steps, Err(error), next));
}

pub proof fn lemma_writes_end(
    before: FlashState,
    address: nat,
    data: Seq<u8>,
    done: Seq<Entry>,
    now: FlashState,
    at: nat,
    todo: Seq<u8>,
)
    requires
        writes_on(before, address, data, done, now, at, todo),
        todo.len() == 0,
    ensures
        writes_sectors(before, address, data, done, Ok(()), now),
{
    reveal(writes_on);
    reveal_with_fuel(writes_sectors, 2);
    assert(writes_sectors(now, at, todo, Seq::<Entry>::empty(), Ok(()), now));
    assert(done + Seq::<Entry>::empty() =~= done);
}

/// Setting the speed that a divider gives leads to that speed again.
pub proof fn law_speed_is_kept(swdiv: u8)
    requires
        swdiv != 0,
    ensures
        speed_of(divider_of(speed_of(swdiv) as u32) as u8) == speed_of(swdiv),
{
    let d = swdiv as int;
    let s = 4800int / d;
    let e = 4800int / s;
    assert(18 <= s <= 4800) by (nonlinear_arith)
        requires
            s == 4800int / d,
            1 <= d <= 255,
    ;
    assert(d <= e <= 4800 && 4800int / e == s) by (nonlinear_arith)
        requires
            s == 4800int / d,
            e == 4800int / s,
            1 <= d <= 255,
            18 <= s,
    ;
    assert(e > 255 ==> s == 18) by (nonlinear_arith)
        requires
            e == 4800int / s,
            18 <= s,
    ;
    assert(4800int / 255 == 18);
    assert(speed_of(swdiv) == s);
    assert(divider_of(s as u32) == if e > 255 {
        255
    } else {
        e
    });
}

/// Attaching succeeds if every command is answered, and then takes four of them.
pub proof fn law_attach_succeeds(t: Seq<Entry>, result: Result<(), DebugProbeError>)
    requires
        attaches(t, result),
        forall|i: int| 0 <= i < t.len() ==> transport::reply_of(#[trigger] t[i]) is Ok,
    ensures
        result is Ok,
        t.len() == 4,
{
    assert(transport::reply_of(t[0]) is Ok);
    assert(t.len() > 1 ==> transport::reply_of(t[1]) is Ok);
    assert(t.len() > 2 ==> transport::reply_of(t[2]) is Ok);
    assert(t.len() > 3 ==> transport::reply_of(t[3]) is Ok);
}

/// Attaching succeeds, too, if only the first activation fails; the target is
/// reset and activated once more.
pub proof fn law_attach_recovers(t: Seq<Entry>, result: Result<(), DebugProbeError>)
    requires
        attaches(t, result),
        t.len() > 3,
        transport::reply_of(t[3]) is Err,
        forall|i: int|
            0 <= i < t.len() && i != 3 && t[i] is Exchanged ==> transport::reply_of(
                #[trigger] t[i],
            ) is Ok,
    ensures
        result is Ok,
        t.len() == 8,
        transport::is_command(t[4], reset_pin_request(true), 7),
        t[5] == (Entry::Delayed { millis: RECOVERY_RESET_MS }),
        transport::is_command(t[6], reset_pin_request(false), 7),
        transport::is_activation(t[7], activate_request(RECOVERY_ACTIVATIONS)),
{
    let rest = t.skip(3);
    assert(rest[0] == t[3]);
    assert(t.len() > 4 ==> rest[1] == t[4] && rest.skip(1)[0] == t[4]);
    assert(t.len() > 6 ==> rest.subrange(1, 2)[0] == t[4] && rest[2] == t[5] && rest.skip(3)[0]
        == t[6]);
    assert(t.len() > 7 ==> rest.subrange(3, 4)[0] == t[6] && rest.skip(4)[0] == t[7]);
}

} // verus!
