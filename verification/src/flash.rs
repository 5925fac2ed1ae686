//! The flash chip behind a programmer, and what a session does to it.
//!
//! A chip holds a sequence of bytes, and every step of a session takes it from
//! one content to the next. A command that was answered has been carried out.
//! Of one that was not, nobody knows how far it got, but it reaches no further
//! than if it had been carried out.

use vstd::prelude::*;

use crate::bytes;
use crate::commands;
use crate::error::DebugProbeError;
use crate::protocol;
use crate::protocol::FlashState;
use crate::protocol::CMD_FLASH_ALL_ERASE;
use crate::protocol::CMD_FLASH_GET_STATUS;
use crate::protocol::CMD_FLASH_READ;
use crate::protocol::CMD_FLASH_SECT_ERASE;
use crate::protocol::CMD_FLASH_WRITE;
use crate::protocol::FLASH_PAGE_SIZE;
use crate::protocol::FLASH_SECTOR_SIZE;
use crate::session;
use crate::transport;
use crate::transport::Entry;

verus! {

/// The flash that three address bytes can reach.
pub const MAX_FLASH_SIZE: usize = 0x100_0000;

/// The address in a request.
pub open spec fn address_of(request: Seq<u8>) -> nat {
    bytes::le_value(request.subrange(1, 4))
}

/// The length in a read request.
pub open spec fn length_of(request: Seq<u8>) -> nat {
    bytes::le_value(request.subrange(4, 6))
}

/// The data in a write request.
pub open spec fn data_of(request: Seq<u8>) -> Seq<u8> {
    request.skip(4)
}

/// Whether `len` bytes at `address` lie in one page.
pub open spec fn in_one_page(address: nat, len: nat) -> bool {
    address % FLASH_PAGE_SIZE as nat + len <= FLASH_PAGE_SIZE
}

/// `content` after programming `data` at `at`: bits are cleared, none is set.
pub open spec fn programmed(content: Seq<u8>, at: int, data: Seq<u8>) -> Seq<u8> {
    Seq::new(
        content.len(),
        |i: int|
            if at <= i < at + data.len() {
                content[i] & data[i - at]
            } else {
                content[i]
            },
    )
}

/// `content` after erasing the sector that holds `at`.
pub open spec fn sector_erased(content: Seq<u8>, at: int) -> Seq<u8> {
    Seq::new(
        content.len(),
        |i: int|
            if i / FLASH_SECTOR_SIZE as int == at / FLASH_SECTOR_SIZE as int {
                0xffu8
            } else {
                content[i]
            },
    )
}

/// Whether carrying out `request` can change the byte at `i`. Programming
/// across the end of a page is not defined.
pub open spec fn touches(request: Seq<u8>, i: int) -> bool {
    let at = address_of(request);
    if request[0] == CMD_FLASH_WRITE {
        !in_one_page(at, data_of(request).len()) || at <= i < at + data_of(request).len()
    } else if request[0] == CMD_FLASH_SECT_ERASE {
        i / FLASH_SECTOR_SIZE as int == at as int / FLASH_SECTOR_SIZE as int
    } else {
        request[0] == CMD_FLASH_ALL_ERASE
    }
}

/// Whether `request` may have been carried out, in part or not at all.
pub open spec fn may_change(before: Seq<u8>, request: Seq<u8>, after: Seq<u8>) -> bool {
    &&& after.len() == before.len()
    &&& forall|i: int|
        0 <= i < before.len() && !touches(request, i) ==> #[trigger] after[i] == before[i]
}

/// Whether `request` has been carried out and answered by `reply`.
pub open spec fn carried_out(
    before: Seq<u8>,
    request: Seq<u8>,
    reply: Seq<u8>,
    after: Seq<u8>,
) -> bool {
    let at = address_of(request);
    let len = length_of(request);
    let data = data_of(request);
    &&& may_change(before, request, after)
    &&& request[0] == CMD_FLASH_READ && at + len <= before.len() ==> {
        &&& 4 + len <= reply.len()
        &&& reply.subrange(4, 4 + len as int) == before.subrange(at as int, (at + len) as int)
    }
    &&& request[0] == CMD_FLASH_WRITE && in_one_page(at, data.len()) && at + data.len()
        <= before.len() && transport::count_of(reply) == data.len() ==> after == programmed(
        before,
        at as int,
        data,
    )
    &&& request[0] == CMD_FLASH_SECT_ERASE && at < before.len() ==> after == sector_erased(
        before,
        at as int,
    )
    &&& request[0] == CMD_FLASH_ALL_ERASE ==> protocol::is_blank(after)
}

/// Whether a step takes the chip from `before` to `after`.
pub open spec fn takes(before: Seq<u8>, entry: Entry, after: Seq<u8>) -> bool {
    match entry {
        Entry::Delayed { .. } => after == before,
        Entry::Exchanged(exchange) => match transport::reply_of(entry) {
            Ok(reply) => carried_out(before, exchange.request, reply, after),
            Err(_) => may_change(before, exchange.request, after),
        },
    }
}

/// Whether the steps `t` take the chip through `states`.
pub open spec fn ran(states: Seq<Seq<u8>>, t: Seq<Entry>) -> bool {
    &&& states.len() == t.len() + 1
    &&& forall|i: int|
        0 <= i < t.len() ==> takes(states[i], #[trigger] t[i], states[i + 1])
}

/// A chip made of whole sectors that three address bytes can reach.
pub open spec fn is_chip(content: Seq<u8>) -> bool {
    &&& content.len() <= MAX_FLASH_SIZE
    &&& content.len() % FLASH_SECTOR_SIZE as nat == 0
}

/// Whether what is known of the flash is true: if all of it was erased, every
/// byte that was not programmed since is blank.
pub open spec fn is_true(flash: FlashState, content: Seq<u8>) -> bool {
    flash.erased ==> forall|i: int|
        0 <= i < content.len() ==> #[trigger] content[i] == 0xff || in_ranges(flash, i)
}

/// Whether the byte at `i` was programmed since all flash was erased.
pub open spec fn in_ranges(flash: FlashState, i: int) -> bool {
    exists|k: int|
        0 <= k < flash.ranges.len() && (#[trigger] flash.ranges[k]).start <= i
            < flash.ranges[k].end
}

/// The steps and the states they run through can be cut anywhere.
proof fn lemma_ran_split(states: Seq<Seq<u8>>, t: Seq<Entry>, k: int)
    requires
        ran(states, t),
        0 <= k <= t.len(),
    ensures
        ran(states.take(k + 1), t.take(k)),
        ran(states.skip(k), t.skip(k)),
        states.take(k + 1)[0] == states[0],
        states.take(k + 1).last() == states[k],
        states.skip(k)[0] == states[k],
        states.skip(k).last() == states.last(),
{
    let first = states.take(k + 1);
    let second = states.skip(k);
    assert forall|i: int| 0 <= i < k implies takes(
        first[i],
        #[trigger] t.take(k)[i],
        first[i + 1],
    ) by {
        assert(takes(states[i], t[i], states[i + 1]));
    }
    assert forall|i: int| 0 <= i < t.len() - k implies takes(
        second[i],
        #[trigger] t.skip(k)[i],
        second[i + 1],
    ) by {
        assert(takes(states[i + k], t[i + k], states[i + k + 1]));
    }
}

proof fn lemma_bound_three()
    ensures
        bytes::le_bound(3) == MAX_FLASH_SIZE,
        bytes::le_bound(2) == 0x1_0000,
{
    reveal_with_fuel(bytes::le_bound, 4);
}

/// What a chip finds in a write request.
proof fn lemma_write_request(command: u8, address: nat, data: Seq<u8>)
    requires
        address < MAX_FLASH_SIZE,
    ensures
        ({
            let request = protocol::write_request(command, address, data);
            &&& request[0] == command
            &&& address_of(request) == address
            &&& data_of(request) == data
        }),
{
    let request = protocol::write_request(command, address, data);
    bytes::lemma_le_bytes_len(address, 3);
    lemma_bound_three();
    bytes::law_le_decode_encode(address, 3);
    assert(request.subrange(1, 4) =~= bytes::le_bytes(address, 3));
    assert(request.skip(4) =~= data);
}

/// What a chip finds in a read request.
proof fn lemma_read_request(command: u8, address: nat, len: nat)
    requires
        address < MAX_FLASH_SIZE,
        len < 0x1_0000,
    ensures
        ({
            let request = protocol::read_request(command, address, len);
            &&& request[0] == command
            &&& address_of(request) == address
            &&& length_of(request) == len
        }),
{
    let request = protocol::read_request(command, address, len);
    bytes::lemma_le_bytes_len(address, 3);
    bytes::lemma_le_bytes_len(len, 2);
    lemma_bound_three();
    bytes::law_le_decode_encode(address, 3);
    bytes::law_le_decode_encode(len, 2);
    assert(request.subrange(1, 4) =~= bytes::le_bytes(address, 3));
    assert(request.subrange(4, 6) =~= bytes::le_bytes(len, 2));
}

/// Steps that touch nothing leave the chip as it is.
proof fn lemma_untouched(states: Seq<Seq<u8>>, t: Seq<Entry>)
    requires
        ran(states, t),
        forall|i: int| 0 <= i < t.len() ==> touches_nothing(#[trigger] t[i]),
    ensures
        states.last() == states[0],
    decreases t.len(),
{
    if t.len() > 0 {
        let k = t.len() - 1;
        lemma_ran_split(states, t, k);
        assert forall|i: int| 0 <= i < k implies touches_nothing(#[trigger] t.take(k)[i]) by {
            assert(touches_nothing(t[i]));
        }
        lemma_untouched(states.take(k + 1), t.take(k));
        assert(takes(states[k], t[k], states[k + 1]));
        assert(touches_nothing(t[k]));
        assert(states[k + 1] =~= states[k]);
    }
}

/// Whether carrying out a step changes no byte.
pub open spec fn touches_nothing(entry: Entry) -> bool {
    match entry {
        Entry::Delayed { .. } => true,
        Entry::Exchanged(exchange) => {
            &&& exchange.request[0] != CMD_FLASH_WRITE
            &&& exchange.request[0] != CMD_FLASH_SECT_ERASE
            &&& exchange.request[0] != CMD_FLASH_ALL_ERASE
        },
    }
}

/// Waiting changes nothing.
proof fn lemma_waits(
    states: Seq<Seq<u8>>,
    polls: nat,
    t: Seq<Entry>,
    result: Result<(), DebugProbeError>,
)
    requires
        ran(states, t),
        protocol::waits(polls, t, result),
    ensures
        states.last() == states[0],
{
    reveal(protocol::waits);
    assert forall|i: int| 0 <= i < t.len() implies touches_nothing(#[trigger] t[i]) by {
        assert(protocol::plain_request(CMD_FLASH_GET_STATUS)[0] == CMD_FLASH_GET_STATUS);
    }
    lemma_untouched(states, t);
}

/// A page that was programmed.
proof fn lemma_page(
    states: Seq<Seq<u8>>,
    address: nat,
    data: Seq<u8>,
    t: Seq<Entry>,
    result: Result<(), DebugProbeError>,
)
    requires
        ran(states, t),
        protocol::programs_page(address, data, t, result),
        in_one_page(address, data.len()),
        data.len() > 0,
        address + data.len() <= states[0].len() <= MAX_FLASH_SIZE,
    ensures
        result is Ok ==> states.last() == programmed(states[0], address as int, data),
        states.last().len() == states[0].len(),
        forall|i: int|
            0 <= i < states[0].len() && !(address <= i < address + data.len())
                ==> #[trigger] states.last()[i] == states[0][i],
{
    reveal(protocol::programs_page);
    lemma_write_request(CMD_FLASH_WRITE, address, data);
    lemma_ran_split(states, t, 1);
    assert(takes(states[0], t[0], states[1]));
    if t.len() > 1 {
        lemma_waits(states.skip(1), protocol::READY_POLLS as nat, t.skip(1), result);
    } else if result is Ok {
        reveal(protocol::waits);
    }
}

/// Whether `after` differs from `before` between `from` and `to` at most.
pub open spec fn same_outside(before: Seq<u8>, after: Seq<u8>, from: int, to: int) -> bool {
    &&& after.len() == before.len()
    &&& forall|i: int|
        0 <= i < before.len() && !(from <= i < to) ==> #[trigger] after[i] == before[i]
}

proof fn lemma_masks(byte: u8)
    ensures
        byte & 0xff == byte,
        0xff & byte == byte,
{
    assert(byte & 0xff == byte) by (bit_vector);
    assert(0xff & byte == byte) by (bit_vector);
}

/// Blank data programs nothing.
proof fn lemma_programmed_blank(content: Seq<u8>, at: int, data: Seq<u8>)
    requires
        protocol::is_blank(data),
    ensures
        programmed(content, at, data) == content,
{
    assert forall|i: int| 0 <= i < content.len() implies #[trigger] programmed(content, at, data)[i]
        == content[i] by {
        lemma_masks(content[i]);
    }
    assert(programmed(content, at, data) =~= content);
}

/// Programming in two parts.
proof fn lemma_programmed_parts(content: Seq<u8>, at: int, data: Seq<u8>, n: int)
    requires
        0 <= n <= data.len(),
    ensures
        programmed(programmed(content, at, data.take(n)), at + n, data.skip(n)) == programmed(
            content,
            at,
            data,
        ),
{
    assert(programmed(programmed(content, at, data.take(n)), at + n, data.skip(n)) =~= programmed(
        content,
        at,
        data,
    ));
}

/// Programming a range that succeeds clears just the bits that are clear in the
/// data; however it ends, bytes outside the range keep their values.
pub proof fn law_programming_clears_bits(
    states: Seq<Seq<u8>>,
    address: nat,
    data: Seq<u8>,
    t: Seq<Entry>,
    result: Result<(), DebugProbeError>,
)
    requires
        ran(states, t),
        protocol::programs(address, data, t, result),
        address + data.len() <= states[0].len() <= MAX_FLASH_SIZE,
    ensures
        result is Ok ==> states.last() == programmed(states[0], address as int, data),
        same_outside(states[0], states.last(), address as int, (address + data.len()) as int),
    decreases data.len(),
{
    reveal_with_fuel(protocol::programs, 2);
    if data.len() == 0 {
        assert(programmed(states[0], address as int, data) =~= states[0]);
    } else {
        let n = protocol::fits(address, data.len(), FLASH_PAGE_SIZE as nat) as int;
        if protocol::is_blank(data.take(n)) {
            law_programming_clears_bits(states, address + n as nat, data.skip(n), t, result);
            lemma_programmed_blank(states[0], address as int, data.take(n));
            lemma_programmed_parts(states[0], address as int, data, n);
        } else {
            let (k, page) = protocol::lemma_programs_cut(address, data, t, result);
            lemma_ran_split(states, t, k);
            lemma_page(states.take(k + 1), address, data.take(n), t.take(k), page);
            if page is Ok {
                law_programming_clears_bits(
                    states.skip(k),
                    (address + n) as nat,
                    data.skip(n),
                    t.skip(k),
                    result,
                );
                lemma_programmed_parts(states[0], address as int, data, n);
            }
        }
    }
}

/// A sector that was erased.
proof fn lemma_erases(
    states: Seq<Seq<u8>>,
    start: nat,
    t: Seq<Entry>,
    result: Result<(), DebugProbeError>,
)
    requires
        ran(states, t),
        protocol::erases_sector(start, t, result),
        start % 4096 == 0,
        start < states[0].len() <= MAX_FLASH_SIZE,
    ensures
        result is Ok ==> states.last() == sector_erased(states[0], start as int),
        same_outside(states[0], states.last(), start as int, start as int + 4096),
{
    reveal(protocol::erases_sector);
    lemma_write_request(CMD_FLASH_SECT_ERASE, start, Seq::empty());
    lemma_ran_split(states, t, 1);
    assert(takes(states[0], t[0], states[1]));
    assert(same_outside(states[0], states[1], start as int, start as int + 4096));
    if transport::reply_of(t[0]) is Ok {
        lemma_waits(states.skip(1), protocol::READY_POLLS as nat, t.skip(1), result);
    }
}

/// A sector that was replaced.
proof fn lemma_replaces(
    states: Seq<Seq<u8>>,
    before: FlashState,
    start: nat,
    content: Seq<u8>,
    t: Seq<Entry>,
    result: Result<(), DebugProbeError>,
    after: FlashState,
)
    requires
        ran(states, t),
        protocol::replaces_sector(before, start, content, t, result, after),
        content.len() == 4096,
        start % 4096 == 0,
        start + 4096 <= states[0].len() <= MAX_FLASH_SIZE,
    ensures
        result is Ok ==> states.last() == protocol::with_part(states[0], start as int, content),
        result is Ok ==> !after.erased,
        same_outside(states[0], states.last(), start as int, start as int + 4096),
{
    let (k, erase) = protocol::lemma_replaces_cut(before, start, content, t, result, after);
    lemma_ran_split(states, t, k);
    lemma_erases(states.take(k + 1), start, t.take(k), erase);
    if erase is Ok {
        law_programming_clears_bits(states.skip(k), start, content, t.skip(k), result);
        if result is Ok {
            let blank = sector_erased(states[0], start as int);
            assert forall|i: int| 0 <= i < states[0].len() implies #[trigger] programmed(
                blank,
                start as int,
                content,
            )[i] == protocol::with_part(states[0], start as int, content)[i] by {
                if start <= i < start + 4096 {
                    lemma_masks(content[i - start]);
                }
            }
            assert(states.last() =~= protocol::with_part(states[0], start as int, content));
        }
    }
}

/// Bytes that were read.
#[verifier::rlimit(30)]
proof fn lemma_reads(
    states: Seq<Seq<u8>>,
    address: nat,
    len: nat,
    t: Seq<Entry>,
    result: Result<(), DebugProbeError>,
)
    requires
        ran(states, t),
        protocol::reads_flash(address, len, t, result),
        address + len <= states[0].len() <= MAX_FLASH_SIZE,
    ensures
        states.last() == states[0],
        result is Ok ==> protocol::bytes_read(t, len) == states[0].subrange(
            address as int,
            (address + len) as int,
        ),
{
    reveal(protocol::reads_flash);
    assert forall|i: int| 0 <= i < t.len() implies touches_nothing(#[trigger] t[i]) by {
        lemma_read_request(
            CMD_FLASH_READ,
            protocol::read_address(address, i),
            protocol::read_len(len, i),
        );
    }
    lemma_untouched(states, t);
    if result is Ok {
        assert forall|j: int| 0 <= j < len implies #[trigger] protocol::byte_read(t, j)
            == states[0][address + j] by {
            let i = j / 1024;
            let n = protocol::read_len(len, i);
            let at = (address + 1024 * i) as nat;
            assert(0 <= i < t.len());
            lemma_read_request(CMD_FLASH_READ, at, n);
            lemma_ran_split(states, t, i);
            assert forall|m: int| 0 <= m < i implies touches_nothing(
                #[trigger] t.take(i)[m],
            ) by {
                assert(touches_nothing(t[m]));
            }
            lemma_untouched(states.take(i + 1), t.take(i));
            assert(takes(states[i], t[i], states[i + 1]));
            let reply = transport::reply_of(t[i])->Ok_0;
            assert(reply.subrange(4, 4 + n as int)[j % 1024] == states[0].subrange(
                at as int,
                (at + n) as int,
            )[j % 1024]);
        }
        assert(protocol::bytes_read(t, len) =~= states[0].subrange(
            address as int,
            (address + len) as int,
        ));
    }
}

/// A sector that was read, changed and replaced.
proof fn lemma_rewrites(
    states: Seq<Seq<u8>>,
    before: FlashState,
    start: nat,
    offset: int,
    part: Seq<u8>,
    t: Seq<Entry>,
    result: Result<(), DebugProbeError>,
    after: FlashState,
)
    requires
        ran(states, t),
        protocol::rewrites_sector(before, start, offset, part, t, result, after),
        0 <= offset,
        offset + part.len() <= 4096,
        start % 4096 == 0,
        start + 4096 <= states[0].len() <= MAX_FLASH_SIZE,
    ensures
        result is Ok ==> states.last() == protocol::with_part(states[0], start + offset, part),
        result is Ok ==> !after.erased,
        same_outside(states[0], states.last(), start as int, start as int + 4096),
{
    reveal(protocol::rewrites_sector);
    let size = FLASH_SECTOR_SIZE as nat;
    if result is Err && protocol::reads_flash(start, size, t, result) {
        lemma_reads(states, start, size, t, result);
    } else {
        let k = protocol::read_count(size) as int;
        let held = protocol::bytes_read(t.take(k), size);
        let content = protocol::with_part(held, offset, part);
        lemma_ran_split(states, t, k);
        lemma_reads(states.take(k + 1), start, size, t.take(k), Ok(()));
        lemma_replaces(states.skip(k), before, start, content, t.skip(k), result, after);
        assert(protocol::with_part(states[0], start as int, content) =~= protocol::with_part(
            states[0],
            start + offset,
            part,
        ));
    }
}

/// What is known of the flash stays true where what was programmed is marked.
proof fn lemma_marked(flash: FlashState, content: Seq<u8>, address: nat, data: Seq<u8>)
    requires
        is_true(flash, content),
        address + data.len() <= content.len() <= MAX_FLASH_SIZE,
    ensures
        is_true(
            protocol::marked(flash, address as u32, data.len()),
            protocol::with_part(content, address as int, data),
        ),
{
    let after = protocol::marked(flash, address as u32, data.len());
    let next = protocol::with_part(content, address as int, data);
    assert(protocol::kept_len(data.len()) == data.len());
    if flash.erased {
        assert forall|i: int| 0 <= i < next.len() implies #[trigger] next[i] == 0xff || in_ranges(
            after,
            i,
        ) by {
            if address <= i < address + data.len() {
                let k = flash.ranges.len() as int;
                assert(after.ranges[k].start <= i < after.ranges[k].end);
            } else if content[i] != 0xff {
                let k = choose|k: int|
                    0 <= k < flash.ranges.len() && (#[trigger] flash.ranges[k]).start <= i
                        < flash.ranges[k].end;
                assert(after.ranges[k] == flash.ranges[k]);
            }
        }
    }
}

/// Programming what clearing bits alone can reach.
proof fn lemma_programmed_over(content: Seq<u8>, at: int, data: Seq<u8>)
    requires
        0 <= at,
        at + data.len() <= content.len(),
        protocol::can_program(content.subrange(at, at + data.len()), data),
    ensures
        programmed(content, at, data) == protocol::with_part(content, at, data),
{
    let current = content.subrange(at, at + data.len());
    assert forall|i: int| 0 <= i < content.len() implies #[trigger] programmed(content, at, data)[i]
        == protocol::with_part(content, at, data)[i] by {
        if at <= i < at + data.len() {
            assert(current[i - at] & data[i - at] == data[i - at]);
        }
    }
    assert(programmed(content, at, data) =~= protocol::with_part(content, at, data));
}

/// A part of a sector that was written.
proof fn lemma_in_sector(
    states: Seq<Seq<u8>>,
    before: FlashState,
    address: nat,
    chunk: Seq<u8>,
    t: Seq<Entry>,
    result: Result<(), DebugProbeError>,
    after: FlashState,
)
    requires
        ran(states, t),
        protocol::writes_in_sector(before, address, chunk, t, result, after),
        chunk.len() > 0,
        address % 4096 + chunk.len() <= 4096,
        address + chunk.len() <= states[0].len(),
        is_chip(states[0]),
    ensures
        result is Ok ==> states.last() == protocol::with_part(states[0], address as int, chunk),
        result is Ok && is_true(before, states[0]) ==> is_true(after, states.last()),
        same_outside(
            states[0],
            states.last(),
            address - address % 4096,
            address - address % 4096 + 4096,
        ),
{
    reveal(protocol::writes_in_sector);
    let offset = address % 4096;
    let start = (address - offset) as nat;
    let len = chunk.len();
    if offset == 0 && len == 4096 {
        lemma_replaces(states, before, start, chunk, t, result, after);
    } else if result is Err && protocol::reads_flash(address, len, t, result) {
        lemma_reads(states, address, len, t, result);
    } else {
        let k = protocol::read_count(len) as int;
        let current = protocol::bytes_read(t.take(k), len);
        lemma_ran_split(states, t, k);
        lemma_reads(states.take(k + 1), address, len, t.take(k), Ok(()));
        if current == chunk {
            assert(states.skip(k).len() == 1);
            assert(states.last() =~= protocol::with_part(states[0], address as int, chunk));
        } else if protocol::can_program(current, chunk) {
            law_programming_clears_bits(states.skip(k), address, chunk, t.skip(k), result);
            lemma_programmed_over(states[0], address as int, chunk);
            if is_true(before, states[0]) {
                lemma_marked(before, states[0], address, chunk);
            }
        } else {
            lemma_rewrites(
                states.skip(k),
                before,
                start,
                offset as int,
                chunk,
                t.skip(k),
                result,
                after,
            );
        }
    }
}

/// The first byte of the sector that holds `address`.
pub open spec fn sector_start(address: int) -> int {
    address - address % FLASH_SECTOR_SIZE as int
}

/// The first byte behind the sectors that hold the bytes before `end`.
pub open spec fn sectors_end(end: int) -> int {
    sector_start(end + FLASH_SECTOR_SIZE - 1)
}

/// Sectors that were written.
proof fn lemma_sectors(
    states: Seq<Seq<u8>>,
    before: FlashState,
    address: nat,
    data: Seq<u8>,
    t: Seq<Entry>,
    result: Result<(), DebugProbeError>,
    after: FlashState,
)
    requires
        ran(states, t),
        protocol::writes_sectors(before, address, data, t, result, after),
        address + data.len() <= states[0].len(),
        is_chip(states[0]),
    ensures
        result is Ok ==> states.last() == protocol::with_part(states[0], address as int, data),
        result is Ok && is_true(before, states[0]) ==> is_true(after, states.last()),
        same_outside(
            states[0],
            states.last(),
            sector_start(address as int),
            sectors_end((address + data.len()) as int),
        ),
    decreases data.len(),
{
    reveal_with_fuel(protocol::writes_sectors, 2);
    if data.len() == 0 {
        assert(protocol::with_part(states[0], address as int, data) =~= states[0]);
    } else {
        let n = protocol::fits(address, data.len(), FLASH_SECTOR_SIZE as nat) as int;
        let (k, sector, middle) = protocol::lemma_writes_cut(
            before,
            address,
            data,
            t,
            result,
            after,
        );
        lemma_ran_split(states, t, k);
        lemma_in_sector(
            states.take(k + 1),
            before,
            address,
            data.take(n),
            t.take(k),
            sector,
            middle,
        );
        if sector is Ok {
            lemma_sectors(
                states.skip(k),
                middle,
                (address + n) as nat,
                data.skip(n),
                t.skip(k),
                result,
                after,
            );
            assert(protocol::with_part(
                protocol::with_part(states[0], address as int, data.take(n)),
                address + n,
                data.skip(n),
            ) =~= protocol::with_part(states[0], address as int, data));
        }
    }
}

/// A write that succeeds leaves the data where it was to go and everything else
/// as it was, and what is known of the flash stays true.
pub proof fn law_write_changes_just_its_range(
    states: Seq<Seq<u8>>,
    before: FlashState,
    address: u32,
    data: Seq<u8>,
    t: Seq<Entry>,
    result: Result<(), DebugProbeError>,
    after: FlashState,
)
    requires
        ran(states, t),
        protocol::writes_flash(before, address, data, t, result, after),
        result is Ok,
        is_chip(states[0]),
        address + data.len() <= states[0].len(),
        is_true(before, states[0]),
    ensures
        states.last() == protocol::with_part(states[0], address as int, data),
        states.last().len() == states[0].len(),
        forall|i: int|
            0 <= i < states[0].len() ==> #[trigger] states.last()[i] == if address <= i < address
                + data.len() {
                data[i - address]
            } else {
                states[0][i]
            },
        is_true(after, states.last()),
{
    if protocol::assumes_erased(before, address, data.len()) {
        law_programming_clears_bits(states, address as nat, data, t, result);
        lemma_assumed(before, states[0], address, data);
        lemma_programmed_over(states[0], address as int, data);
        lemma_marked(before, states[0], address as nat, data);
    } else {
        lemma_sectors(states, before, address as nat, data, t, result, after);
    }
}

/// A range that is taken to be erased can be programmed.
proof fn lemma_assumed(flash: FlashState, content: Seq<u8>, address: u32, data: Seq<u8>)
    requires
        protocol::assumes_erased(flash, address, data.len()),
        is_true(flash, content),
        address + data.len() <= content.len() <= MAX_FLASH_SIZE,
    ensures
        protocol::can_program(content.subrange(address as int, address + data.len()), data),
{
    let current = content.subrange(address as int, address + data.len());
    assert forall|i: int| 0 <= i < data.len() implies #[trigger] current[i] & data[i]
        == data[i] by {
        assert(content[address + i] == 0xff) by {
            if content[address + i] != 0xff {
                let k = choose|k: int|
                    0 <= k < flash.ranges.len() && (#[trigger] flash.ranges[k]).start <= address + i
                        < flash.ranges[k].end;
                assert(flash.ranges[k].start <= address + i);
            }
        }
        lemma_masks(data[i]);
    }
}

/// However a write ends, bytes outside the sectors that it is about keep their
/// values.
pub proof fn law_write_stays_in_its_sectors(
    states: Seq<Seq<u8>>,
    before: FlashState,
    address: u32,
    data: Seq<u8>,
    t: Seq<Entry>,
    result: Result<(), DebugProbeError>,
    after: FlashState,
)
    requires
        ran(states, t),
        protocol::writes_flash(before, address, data, t, result, after),
        is_chip(states[0]),
        address + data.len() <= states[0].len(),
    ensures
        same_outside(
            states[0],
            states.last(),
            sector_start(address as int),
            sectors_end(address + data.len()),
        ),
{
    if protocol::assumes_erased(before, address, data.len()) {
        law_programming_clears_bits(states, address as nat, data, t, result);
    } else {
        lemma_sectors(states, before, address as nat, data, t, result, after);
    }
}

/// A read that succeeds brings what the chip holds, and no read changes that.
pub proof fn law_read_brings_content(
    states: Seq<Seq<u8>>,
    address: u32,
    len: nat,
    t: Seq<Entry>,
    result: Result<(), DebugProbeError>,
)
    requires
        ran(states, t),
        protocol::reads_flash(address as nat, len, t, result),
        address + len <= states[0].len() <= MAX_FLASH_SIZE,
    ensures
        states.last() == states[0],
        result is Ok ==> protocol::bytes_read(t, len) == states[0].subrange(
            address as int,
            address + len,
        ),
{
    lemma_reads(states, address as nat, len, t, result);
}

/// What was written is read back.
pub proof fn law_read_after_write(
    states: Seq<Seq<u8>>,
    before: FlashState,
    address: u32,
    data: Seq<u8>,
    writing: Seq<Entry>,
    written: Result<(), DebugProbeError>,
    after: FlashState,
    reading: Seq<Entry>,
    read: Result<(), DebugProbeError>,
)
    requires
        ran(states, writing + reading),
        protocol::writes_flash(before, address, data, writing, written, after),
        protocol::reads_flash(address as nat, data.len(), reading, read),
        written is Ok,
        read is Ok,
        is_chip(states[0]),
        address + data.len() <= states[0].len(),
        is_true(before, states[0]),
    ensures
        protocol::bytes_read(reading, data.len()) == data,
{
    let k = writing.len() as int;
    let t = writing + reading;
    assert(t.take(k) =~= writing);
    assert(t.skip(k) =~= reading);
    lemma_ran_split(states, t, k);
    law_write_changes_just_its_range(
        states.take(k + 1),
        before,
        address,
        data,
        writing,
        written,
        after,
    );
    lemma_reads(states.skip(k), address as nat, data.len(), reading, read);
    assert(protocol::bytes_read(reading, data.len()) =~= data);
}

/// Erasing all flash leaves it blank, and that is what is known afterwards.
pub proof fn law_erase_all_leaves_blank(
    states: Seq<Seq<u8>>,
    t: Seq<Entry>,
    result: Result<(), DebugProbeError>,
)
    requires
        ran(states, t),
        protocol::erases_all(t, result),
        result is Ok,
    ensures
        protocol::is_blank(states.last()),
        is_true(protocol::after_erase_all(), states.last()),
{
    reveal(protocol::erases_all);
    lemma_ran_split(states, t, 1);
    assert(takes(states[0], t[0], states[1]));
    assert(protocol::plain_request(CMD_FLASH_ALL_ERASE)[0] == CMD_FLASH_ALL_ERASE);
    lemma_waits(states.skip(1), protocol::ERASE_ALL_POLLS as nat, t.skip(1), result);
}

/// Whether a step went as it should: it was answered, a write took all of its
/// data, and a poll found the flash ready.
pub open spec fn went_well(entry: Entry) -> bool {
    match entry {
        Entry::Delayed { .. } => true,
        Entry::Exchanged(exchange) => match transport::reply_of(entry) {
            Err(_) => false,
            Ok(reply) => {
                &&& exchange.request[0] == CMD_FLASH_WRITE ==> transport::count_of(reply)
                    == data_of(exchange.request).len()
                &&& exchange.request[0] == CMD_FLASH_GET_STATUS ==> transport::count_of(reply) == 1
                    && !protocol::is_busy(reply[4])
            },
        },
    }
}

/// Whether all steps went as they should.
pub open spec fn all_well(t: Seq<Entry>) -> bool {
    forall|i: int| 0 <= i < t.len() ==> went_well(#[trigger] t[i])
}

proof fn lemma_all_well_split(t: Seq<Entry>, k: int)
    requires
        all_well(t),
        0 <= k <= t.len(),
    ensures
        all_well(t.take(k)),
        all_well(t.skip(k)),
{
    assert forall|i: int| 0 <= i < k implies went_well(#[trigger] t.take(k)[i]) by {
        assert(went_well(t[i]));
    }
    assert forall|i: int| 0 <= i < t.len() - k implies went_well(#[trigger] t.skip(k)[i]) by {
        assert(went_well(t[i + k]));
    }
}

/// The first byte and the data of a write request, whatever its address.
proof fn lemma_write_data(command: u8, address: nat, data: Seq<u8>)
    ensures
        protocol::write_request(command, address, data)[0] == command,
        data_of(protocol::write_request(command, address, data)) == data,
{
    bytes::lemma_le_bytes_len(address, 3);
    assert(data_of(protocol::write_request(command, address, data)) =~= data);
}

proof fn lemma_waits_well(polls: nat, t: Seq<Entry>, result: Result<(), DebugProbeError>)
    requires
        protocol::waits(polls, t, result),
        polls > 0,
        all_well(t),
    ensures
        result is Ok,
{
    reveal(protocol::waits);
    assert(protocol::plain_request(CMD_FLASH_GET_STATUS)[0] == CMD_FLASH_GET_STATUS);
    assert(t.len() > 0);
    let i = t.len() - 1;
    assert(went_well(t[i]));
    assert(transport::is_command(t[i], protocol::plain_request(CMD_FLASH_GET_STATUS), 7));
}

proof fn lemma_programs_well(
    address: nat,
    data: Seq<u8>,
    t: Seq<Entry>,
    result: Result<(), DebugProbeError>,
)
    requires
        protocol::programs(address, data, t, result),
        all_well(t),
    ensures
        result is Ok,
    decreases data.len(),
{
    reveal_with_fuel(protocol::programs, 2);
    if data.len() > 0 {
        let n = protocol::fits(address, data.len(), FLASH_PAGE_SIZE as nat) as int;
        if protocol::is_blank(data.take(n)) {
            lemma_programs_well(address + n as nat, data.skip(n), t, result);
        } else {
            let (k, page) = protocol::lemma_programs_cut(address, data, t, result);
            let first = t.take(k);
            lemma_all_well_split(t, k);
            reveal(protocol::programs_page);
            lemma_write_data(CMD_FLASH_WRITE, address, data.take(n));
            lemma_all_well_split(first, 1);
            assert(went_well(first[0]));
            lemma_waits_well(protocol::READY_POLLS as nat, first.skip(1), page);
            lemma_programs_well((address + n) as nat, data.skip(n), t.skip(k), result);
        }
    }
}

proof fn lemma_replaces_well(
    before: FlashState,
    start: nat,
    content: Seq<u8>,
    t: Seq<Entry>,
    result: Result<(), DebugProbeError>,
    after: FlashState,
)
    requires
        protocol::replaces_sector(before, start, content, t, result, after),
        all_well(t),
    ensures
        result is Ok,
{
    reveal(protocol::erases_sector);
    let (k, erase) = protocol::lemma_replaces_cut(before, start, content, t, result, after);
    let first = t.take(k);
    lemma_all_well_split(t, k);
    lemma_all_well_split(first, 1);
    assert(went_well(first[0]));
    lemma_waits_well(protocol::READY_POLLS as nat, first.skip(1), erase);
    lemma_programs_well(start, content, t.skip(k), result);
}

proof fn lemma_reads_well(
    address: nat,
    len: nat,
    t: Seq<Entry>,
    result: Result<(), DebugProbeError>,
)
    requires
        protocol::reads_flash(address, len, t, result),
        all_well(t),
    ensures
        result is Ok,
{
    reveal(protocol::reads_flash);
    if result is Err {
        let i = t.len() - 1;
        assert(went_well(t[i]));
    }
}

proof fn lemma_sectors_well(
    before: FlashState,
    address: nat,
    data: Seq<u8>,
    t: Seq<Entry>,
    result: Result<(), DebugProbeError>,
    after: FlashState,
)
    requires
        protocol::writes_sectors(before, address, data, t, result, after),
        all_well(t),
    ensures
        result is Ok,
    decreases data.len(),
{
    reveal_with_fuel(protocol::writes_sectors, 2);
    if data.len() > 0 {
        let n = protocol::fits(address, data.len(), FLASH_SECTOR_SIZE as nat) as int;
        let (k, sector, middle) = protocol::lemma_writes_cut(
            before,
            address,
            data,
            t,
            result,
            after,
        );
        lemma_all_well_split(t, k);
        lemma_in_sector_well(before, address, data.take(n), t.take(k), sector, middle);
        lemma_sectors_well(
            middle,
            (address + n) as nat,
            data.skip(n),
            t.skip(k),
            result,
            after,
        );
    }
}

proof fn lemma_in_sector_well(
    before: FlashState,
    address: nat,
    chunk: Seq<u8>,
    t: Seq<Entry>,
    result: Result<(), DebugProbeError>,
    after: FlashState,
)
    requires
        protocol::writes_in_sector(before, address, chunk, t, result, after),
        all_well(t),
    ensures
        result is Ok,
{
    reveal(protocol::writes_in_sector);
    let offset = address % FLASH_SECTOR_SIZE as nat;
    let start = (address - offset) as nat;
    let size = FLASH_SECTOR_SIZE as nat;
    if offset == 0 && chunk.len() == FLASH_SECTOR_SIZE {
        lemma_replaces_well(before, start, chunk, t, result, after);
    } else if result is Err && protocol::reads_flash(address, chunk.len(), t, result) {
        lemma_reads_well(address, chunk.len(), t, result);
    } else {
        let k = protocol::read_count(chunk.len()) as int;
        let current = protocol::bytes_read(t.take(k), chunk.len());
        lemma_all_well_split(t, k);
        if current == chunk {
        } else if protocol::can_program(current, chunk) {
            lemma_programs_well(address, chunk, t.skip(k), result);
        } else {
            reveal(protocol::rewrites_sector);
            let rest = t.skip(k);
            let m = protocol::read_count(size) as int;
            if result is Err && protocol::reads_flash(start, size, rest, result) {
                lemma_reads_well(start, size, rest, result);
            } else {
                lemma_all_well_split(rest, m);
                lemma_replaces_well(
                    before,
                    start,
                    protocol::with_part(
                        protocol::bytes_read(rest.take(m), size),
                        offset as int,
                        chunk,
                    ),
                    rest.skip(m),
                    result,
                    after,
                );
            }
        }
    }
}

/// A write fails only where one of its steps did.
pub proof fn law_write_succeeds_if_all_goes_well(
    before: FlashState,
    address: u32,
    data: Seq<u8>,
    t: Seq<Entry>,
    result: Result<(), DebugProbeError>,
    after: FlashState,
)
    requires
        protocol::writes_flash(before, address, data, t, result, after),
        all_well(t),
    ensures
        result is Ok,
{
    if protocol::assumes_erased(before, address, data.len()) {
        lemma_programs_well(address as nat, data, t, result);
    } else {
        lemma_sectors_well(before, address as nat, data, t, result, after);
    }
}

/// Whether a step is the command `command`.
pub open spec fn has_command(entry: Entry, command: u8) -> bool {
    entry matches Entry::Exchanged(exchange) && exchange.request[0] == command
}

/// Whether a step programs at least one byte that is not blank, in one page.
pub open spec fn programs_in_one_page(entry: Entry) -> bool {
    entry matches Entry::Exchanged(exchange) && {
        &&& exchange.request[0] == CMD_FLASH_WRITE
        &&& in_one_page(address_of(exchange.request), data_of(exchange.request).len())
        &&& !protocol::is_blank(data_of(exchange.request))
    }
}

/// Whether all steps program within one page or poll the status.
pub open spec fn just_programs(t: Seq<Entry>) -> bool {
    forall|i: int|
        0 <= i < t.len() ==> programs_in_one_page(#[trigger] t[i]) || has_command(
            t[i],
            CMD_FLASH_GET_STATUS,
        )
}

proof fn lemma_just_programs(
    address: nat,
    data: Seq<u8>,
    t: Seq<Entry>,
    result: Result<(), DebugProbeError>,
)
    requires
        protocol::programs(address, data, t, result),
        address + data.len() <= MAX_FLASH_SIZE,
    ensures
        just_programs(t),
    decreases data.len(),
{
    reveal_with_fuel(protocol::programs, 2);
    if data.len() > 0 {
        let n = protocol::fits(address, data.len(), FLASH_PAGE_SIZE as nat) as int;
        if protocol::is_blank(data.take(n)) {
            lemma_just_programs(address + n as nat, data.skip(n), t, result);
        } else {
            let (k, page) = protocol::lemma_programs_cut(address, data, t, result);
            let first = t.take(k);
            lemma_write_request(CMD_FLASH_WRITE, address, data.take(n));
            reveal(protocol::programs_page);
            reveal(protocol::waits);
            assert(protocol::plain_request(CMD_FLASH_GET_STATUS)[0] == CMD_FLASH_GET_STATUS);
            if page is Ok {
                lemma_just_programs((address + n) as nat, data.skip(n), t.skip(k), result);
            }
            assert forall|i: int| 0 <= i < t.len() implies programs_in_one_page(#[trigger] t[i])
                || has_command(t[i], CMD_FLASH_GET_STATUS) by {
                if i == 0 {
                    assert(t[0] == first[0]);
                } else if i < k {
                    assert(t[i] == first.skip(1)[i - 1]);
                } else {
                    assert(t[i] == t.skip(k)[i - k]);
                }
            }
        }
    }
}

/// Where the flash is known to be erased, a write neither reads nor erases: it
/// programs what is not blank, one page at a time.
pub proof fn law_write_to_erased_flash_just_programs(
    before: FlashState,
    address: u32,
    data: Seq<u8>,
    t: Seq<Entry>,
    result: Result<(), DebugProbeError>,
    after: FlashState,
)
    requires
        protocol::writes_flash(before, address, data, t, result, after),
        protocol::assumes_erased(before, address, data.len()),
        address + data.len() <= MAX_FLASH_SIZE,
    ensures
        just_programs(t),
{
    lemma_just_programs(address as nat, data, t, result);
}

/// After all flash was erased, any range is known to be erased; and it stays
/// so while other ranges are written.
pub proof fn law_erased_until_written(
    before: FlashState,
    address: u32,
    data: Seq<u8>,
    t: Seq<Entry>,
    result: Result<(), DebugProbeError>,
    after: FlashState,
    other: u32,
    len: nat,
)
    requires
        protocol::writes_flash(before, address, data, t, result, after),
        protocol::assumes_erased(before, address, data.len()),
        address + data.len() <= MAX_FLASH_SIZE,
        other + len <= MAX_FLASH_SIZE,
        other + len <= address || address + data.len() <= other,
    ensures
        protocol::assumes_erased(protocol::after_erase_all(), other, len),
        protocol::assumes_erased(before, other, len) ==> protocol::assumes_erased(
            after,
            other,
            len,
        ),
{
    if protocol::assumes_erased(before, other, len) {
        assert(protocol::kept_len(len) == len);
        assert(protocol::kept_len(data.len()) == data.len());
        assert forall|i: int| 0 <= i < after.ranges.len() implies {
            let range = #[trigger] after.ranges[i];
            range.end <= other || other + len <= range.start
        } by {
            if i < before.ranges.len() {
                assert(after.ranges[i] == before.ranges[i]);
            }
        }
    }
}

/// Whether a whole sector lies in the `len` bytes at `address`.
pub open spec fn has_whole_sector(address: int, len: nat) -> bool {
    sectors_end(address) + FLASH_SECTOR_SIZE <= address + len
}

/// Where the chip holds the data already and no whole sector is written, a
/// write just reads, and what is known of the flash stays as it is.
pub proof fn law_matching_write_just_reads(
    states: Seq<Seq<u8>>,
    before: FlashState,
    address: u32,
    data: Seq<u8>,
    t: Seq<Entry>,
    result: Result<(), DebugProbeError>,
    after: FlashState,
)
    requires
        ran(states, t),
        protocol::writes_flash(before, address, data, t, result, after),
        !protocol::assumes_erased(before, address, data.len()),
        !has_whole_sector(address as int, data.len()),
        is_chip(states[0]),
        address + data.len() <= states[0].len(),
        states[0].subrange(address as int, address + data.len()) == data,
    ensures
        forall|i: int| 0 <= i < t.len() ==> has_command(#[trigger] t[i], CMD_FLASH_READ),
        after == before,
{
    lemma_matching(states, before, address as nat, data, t, result, after);
}

proof fn lemma_matching(
    states: Seq<Seq<u8>>,
    before: FlashState,
    address: nat,
    data: Seq<u8>,
    t: Seq<Entry>,
    result: Result<(), DebugProbeError>,
    after: FlashState,
)
    requires
        ran(states, t),
        protocol::writes_sectors(before, address, data, t, result, after),
        !has_whole_sector(address as int, data.len()),
        is_chip(states[0]),
        address + data.len() <= states[0].len(),
        states[0].subrange(address as int, (address + data.len()) as int) == data,
    ensures
        forall|i: int| 0 <= i < t.len() ==> has_command(#[trigger] t[i], CMD_FLASH_READ),
        after == before,
    decreases data.len(),
{
    reveal_with_fuel(protocol::writes_sectors, 2);
    if data.len() > 0 {
        let n = protocol::fits(address, data.len(), FLASH_SECTOR_SIZE as nat) as int;
        let (k, sector, middle) = protocol::lemma_writes_cut(
            before,
            address,
            data,
            t,
            result,
            after,
        );
        let chunk = data.take(n);
        lemma_ran_split(states, t, k);
        assert(chunk =~= states[0].subrange(address as int, address + n));
        lemma_matching_part(states.take(k + 1), before, address, chunk, t.take(k), sector, middle);
        if sector is Ok {
            assert(data.skip(n) =~= states[0].subrange(
                address + n,
                (address + data.len()) as int,
            ));
            lemma_matching(
                states.skip(k),
                middle,
                (address + n) as nat,
                data.skip(n),
                t.skip(k),
                result,
                after,
            );
        }
        assert forall|i: int| 0 <= i < t.len() implies has_command(
            #[trigger] t[i],
            CMD_FLASH_READ,
        ) by {
            if i < k {
                assert(t[i] == t.take(k)[i]);
            } else {
                assert(t[i] == t.skip(k)[i - k]);
            }
        }
    }
}

proof fn lemma_matching_part(
    states: Seq<Seq<u8>>,
    before: FlashState,
    address: nat,
    chunk: Seq<u8>,
    t: Seq<Entry>,
    result: Result<(), DebugProbeError>,
    after: FlashState,
)
    requires
        ran(states, t),
        protocol::writes_in_sector(before, address, chunk, t, result, after),
        !has_whole_sector(address as int, chunk.len()),
        is_chip(states[0]),
        address + chunk.len() <= states[0].len(),
        states[0].subrange(address as int, (address + chunk.len()) as int) == chunk,
    ensures
        forall|i: int| 0 <= i < t.len() ==> has_command(#[trigger] t[i], CMD_FLASH_READ),
        after == before,
        states.last() == states[0],
{
    reveal(protocol::writes_in_sector);
    let len = chunk.len();
    if result is Err && protocol::reads_flash(address, len, t, result) {
        lemma_reads(states, address, len, t, result);
        lemma_reads_read(address, len, t, result);
    } else {
        let k = protocol::read_count(len) as int;
        lemma_ran_split(states, t, k);
        lemma_reads(states.take(k + 1), address, len, t.take(k), Ok(()));
        lemma_reads_read(address, len, t.take(k), Ok(()));
        assert(t.take(k) =~= t);
        assert(states.skip(k).len() == 1);
    }
}

/// Where clearing bits is all that it takes, and no whole sector is written, a
/// write erases nothing.
pub proof fn law_no_sector_is_erased_needlessly(
    states: Seq<Seq<u8>>,
    before: FlashState,
    address: u32,
    data: Seq<u8>,
    t: Seq<Entry>,
    result: Result<(), DebugProbeError>,
    after: FlashState,
    i: int,
)
    requires
        ran(states, t),
        protocol::writes_flash(before, address, data, t, result, after),
        !has_whole_sector(address as int, data.len()),
        is_chip(states[0]),
        address + data.len() <= states[0].len(),
        forall|j: int|
            0 <= j < data.len() ==> states[0][address + j] & #[trigger] data[j] == data[j],
        0 <= i < t.len(),
    ensures
        t[i] matches Entry::Exchanged(exchange) && exchange.request[0] != 3,
{
    if protocol::assumes_erased(before, address, data.len()) {
        lemma_programming_erases_nothing(address as nat, data, t, result);
    } else {
        lemma_nothing_erased(states, before, address as nat, data, t, result, after);
    }
    assert(erases_nothing(t[i]));
}

/// Whether a step erases no sector.
spec fn erases_nothing(entry: Entry) -> bool {
    entry matches Entry::Exchanged(exchange) && exchange.request[0] != 3
}

proof fn lemma_programming_erases_nothing(
    address: nat,
    data: Seq<u8>,
    t: Seq<Entry>,
    result: Result<(), DebugProbeError>,
)
    requires
        protocol::programs(address, data, t, result),
    ensures
        forall|i: int| 0 <= i < t.len() ==> erases_nothing(#[trigger] t[i]),
{
    assert forall|i: int| 0 <= i < t.len() implies erases_nothing(#[trigger] t[i]) by {
        if !commands::is_poll(t[i]) {
            commands::law_pages_carry_the_data(address, data, t, result, i);
        }
    }
}

proof fn lemma_nothing_erased(
    states: Seq<Seq<u8>>,
    before: FlashState,
    address: nat,
    data: Seq<u8>,
    t: Seq<Entry>,
    result: Result<(), DebugProbeError>,
    after: FlashState,
)
    requires
        ran(states, t),
        protocol::writes_sectors(before, address, data, t, result, after),
        !has_whole_sector(address as int, data.len()),
        is_chip(states[0]),
        address + data.len() <= states[0].len(),
        forall|j: int|
            0 <= j < data.len() ==> states[0][address + j] & #[trigger] data[j] == data[j],
    ensures
        forall|i: int| 0 <= i < t.len() ==> erases_nothing(#[trigger] t[i]),
    decreases data.len(),
{
    reveal_with_fuel(protocol::writes_sectors, 2);
    if data.len() > 0 {
        let n = protocol::fits(address, data.len(), FLASH_SECTOR_SIZE as nat) as int;
        let (k, sector, middle) = protocol::lemma_writes_cut(
            before,
            address,
            data,
            t,
            result,
            after,
        );
        let chunk = data.take(n);
        let rest = data.skip(n);
        lemma_ran_split(states, t, k);
        assert forall|j: int| 0 <= j < n implies states[0][address + j] & #[trigger] chunk[j]
            == chunk[j] by {
            assert(chunk[j] == data[j]);
        }
        lemma_nothing_erased_in_sector(
            states.take(k + 1),
            before,
            address,
            chunk,
            t.take(k),
            sector,
            middle,
        );
        lemma_in_sector(
            states.take(k + 1),
            before,
            address,
            chunk,
            t.take(k),
            sector,
            middle,
        );
        if sector is Ok {
            assert forall|j: int| 0 <= j < rest.len() implies states[k][address + n + j]
                & #[trigger] rest[j] == rest[j] by {
                assert(rest[j] == data[n + j]);
                assert(states[k][address + n + j] == states[0][address + (n + j)]);
            }
            lemma_nothing_erased(
                states.skip(k),
                middle,
                (address + n) as nat,
                rest,
                t.skip(k),
                result,
                after,
            );
        }
        assert forall|i: int| 0 <= i < t.len() implies erases_nothing(#[trigger] t[i]) by {
            if i < k {
                assert(t[i] == t.take(k)[i]);
            } else {
                assert(t[i] == t.skip(k)[i - k]);
            }
        }
    }
}

proof fn lemma_nothing_erased_in_sector(
    states: Seq<Seq<u8>>,
    before: FlashState,
    address: nat,
    chunk: Seq<u8>,
    t: Seq<Entry>,
    result: Result<(), DebugProbeError>,
    after: FlashState,
)
    requires
        ran(states, t),
        protocol::writes_in_sector(before, address, chunk, t, result, after),
        !has_whole_sector(address as int, chunk.len()),
        is_chip(states[0]),
        address + chunk.len() <= states[0].len(),
        forall|j: int|
            0 <= j < chunk.len() ==> states[0][address + j] & #[trigger] chunk[j] == chunk[j],
    ensures
        forall|i: int| 0 <= i < t.len() ==> erases_nothing(#[trigger] t[i]),
{
    reveal(protocol::writes_in_sector);
    let len = chunk.len();
    if result is Err && protocol::reads_flash(address, len, t, result) {
        lemma_reads_read(address, len, t, result);
    } else {
        let k = protocol::read_count(len) as int;
        let current = protocol::bytes_read(t.take(k), len);
        lemma_ran_split(states, t, k);
        lemma_reads(states.take(k + 1), address, len, t.take(k), Ok(()));
        lemma_reads_read(address, len, t.take(k), Ok(()));
        assert(protocol::can_program(current, chunk));
        if current != chunk {
            lemma_programming_erases_nothing(address, chunk, t.skip(k), result);
        }
        assert forall|i: int| 0 <= i < t.len() implies erases_nothing(#[trigger] t[i]) by {
            if i < k {
                assert(has_command(t.take(k)[i], CMD_FLASH_READ));
            } else {
                assert(t[i] == t.skip(k)[i - k]);
            }
        }
    }
}

/// A read of flash that succeeds fills the buffer with the bytes of the chip
/// from the address on.
pub proof fn law_read_fills_with_content(
    states: Seq<Seq<u8>>,
    address: u32,
    data: Seq<u8>,
    t: Seq<Entry>,
    result: Result<(), DebugProbeError>,
)
    requires
        ran(states, t),
        protocol::reads_flash(address as nat, data.len(), t, result),
        result is Ok,
        address + data.len() <= states[0].len() <= MAX_FLASH_SIZE,
    ensures
        session::filled(data, t, result).len() == data.len(),
        forall|j: int|
            0 <= j < data.len() ==> #[trigger] session::filled(data, t, result)[j]
                == states[0][address + j],
{
    lemma_reads(states, address as nat, data.len(), t, result);
    assert forall|j: int| 0 <= j < data.len() implies #[trigger] session::filled(
        data,
        t,
        result,
    )[j] == states[0][address + j] by {
        assert(protocol::bytes_read(t, data.len())[j] == states[0].subrange(
            address as int,
            address + data.len(),
        )[j]);
    }
}

proof fn lemma_reads_read(
    address: nat,
    len: nat,
    t: Seq<Entry>,
    result: Result<(), DebugProbeError>,
)
    requires
        protocol::reads_flash(address, len, t, result),
    ensures
        forall|i: int| 0 <= i < t.len() ==> has_command(#[trigger] t[i], CMD_FLASH_READ),
{
    reveal(protocol::reads_flash);
}

/// Whether the programmer has answered the erase of a sector.
pub open spec fn erased_a_sector(t: Seq<Entry>) -> bool {
    exists|i: int|
        0 <= i < t.len() && has_command(#[trigger] t[i], CMD_FLASH_SECT_ERASE)
            && transport::reply_of(t[i]) is Ok
}

/// Whether no remembered range is empty.
pub open spec fn has_no_empty_range(flash: FlashState) -> bool {
    forall|i: int|
        0 <= i < flash.ranges.len() ==> (#[trigger] flash.ranges[i]).start < flash.ranges[i].end
}

/// Flash that is taken to be erased and that a write does not reach is still
/// taken to be erased after it, whatever became of the write, unless a sector
/// was erased.
pub proof fn law_unwritten_flash_stays_erased(
    before: FlashState,
    address: u32,
    data: Seq<u8>,
    t: Seq<Entry>,
    result: Result<(), DebugProbeError>,
    after: FlashState,
    other: u32,
    len: nat,
)
    requires
        protocol::writes_flash(before, address, data, t, result, after),
        !erased_a_sector(t),
        address + data.len() <= 0xffff_ffff,
        other + len <= 0xffff_ffff,
        other + len <= address || address + data.len() <= other,
        protocol::assumes_erased(before, other, len),
    ensures
        protocol::assumes_erased(after, other, len),
{
    law_write_keeps_what_is_known(before, address, data, t, result, after);
    assert(protocol::kept_len(data.len()) == data.len());
    assert(protocol::kept_len(len) == len);
    if protocol::assumes_erased(before, address, data.len()) {
        assert(marks_within(before, address as nat, data.len(), after));
    } else {
        lemma_marks_within(before, address as nat, data, t, result, after);
    }
    assert forall|i: int| 0 <= i < after.ranges.len() implies {
        let range = #[trigger] after.ranges[i];
        range.end <= other || other + len <= range.start
    } by {
        if i < before.ranges.len() {
            assert(after.ranges[i] == before.ranges[i]);
        }
    }
}

/// Whether all that `after` remembers in addition to `before` lies in the `len`
/// bytes at `address`, as far as it still counts.
spec fn marks_within(before: FlashState, address: nat, len: nat, after: FlashState) -> bool {
    after.erased ==> {
        &&& before.erased
        &&& keeps_ranges(before, after)
        &&& forall|i: int|
            before.ranges.len() <= i < after.ranges.len() ==> address <= (
            #[trigger] after.ranges[i]).start && after.ranges[i].end <= address + len
    }
}

proof fn lemma_marks_within(
    before: FlashState,
    address: nat,
    data: Seq<u8>,
    t: Seq<Entry>,
    result: Result<(), DebugProbeError>,
    after: FlashState,
)
    requires
        protocol::writes_sectors(before, address, data, t, result, after),
        address + data.len() <= 0xffff_ffff,
    ensures
        marks_within(before, address, data.len(), after),
    decreases data.len(),
{
    reveal_with_fuel(protocol::writes_sectors, 2);
    if data.len() > 0 {
        let n = protocol::fits(address, data.len(), FLASH_SECTOR_SIZE as nat) as int;
        let (k, sector, middle) = protocol::lemma_writes_cut(
            before,
            address,
            data,
            t,
            result,
            after,
        );
        lemma_marks_within_sector(before, address, data.take(n), t.take(k), sector, middle);
        if sector is Ok {
            lemma_marks_within(
                middle,
                (address + n) as nat,
                data.skip(n),
                t.skip(k),
                result,
                after,
            );
            if after.erased {
                assert(before.ranges =~= after.ranges.take(before.ranges.len() as int));
                assert forall|i: int|
                    before.ranges.len() <= i < after.ranges.len() implies address <= (
                #[trigger] after.ranges[i]).start && after.ranges[i].end <= address
                    + data.len() by {
                    if i < middle.ranges.len() {
                        assert(middle.ranges[i] == after.ranges[i]);
                    }
                }
            }
        }
    } else {
        assert(before.ranges =~= after.ranges.take(before.ranges.len() as int));
    }
}

proof fn lemma_marks_within_sector(
    before: FlashState,
    address: nat,
    chunk: Seq<u8>,
    t: Seq<Entry>,
    result: Result<(), DebugProbeError>,
    after: FlashState,
)
    requires
        protocol::writes_in_sector(before, address, chunk, t, result, after),
        address + chunk.len() <= 0xffff_ffff,
    ensures
        marks_within(before, address, chunk.len(), after),
{
    reveal(protocol::writes_in_sector);
    let offset = address % FLASH_SECTOR_SIZE as nat;
    let start = (address - offset) as nat;
    let len = chunk.len();
    assert(protocol::kept_len(len) == len);
    if offset == 0 && len == FLASH_SECTOR_SIZE {
        let cut = protocol::lemma_replaces_cut(before, start, chunk, t, result, after);
        assert(before.ranges =~= before.ranges.take(before.ranges.len() as int));
    } else if result is Err && protocol::reads_flash(address, len, t, result) {
        assert(before.ranges =~= before.ranges.take(before.ranges.len() as int));
    } else {
        let k = protocol::read_count(len) as int;
        let current = protocol::bytes_read(t.take(k), len);
        if current == chunk {
            assert(before.ranges =~= before.ranges.take(before.ranges.len() as int));
        } else if protocol::can_program(current, chunk) {
            assert(before.ranges =~= after.ranges.take(before.ranges.len() as int));
        } else {
            reveal(protocol::rewrites_sector);
            let rest = t.skip(k);
            let size = FLASH_SECTOR_SIZE as nat;
            let m = protocol::read_count(size) as int;
            if !(result is Err && protocol::reads_flash(start, size, rest, result)) {
                let content = protocol::with_part(
                    protocol::bytes_read(rest.take(m), size),
                    offset as int,
                    chunk,
                );
                let cut = protocol::lemma_replaces_cut(
                    before,
                    start,
                    content,
                    rest.skip(m),
                    result,
                    after,
                );
            }
            assert(before.ranges =~= before.ranges.take(before.ranges.len() as int));
        }
    }
}

/// Flash is taken to be erased exactly where all of it was erased before and no
/// byte of the range has been programmed since, as long as the range does not
/// leave the 32-bit address space.
pub proof fn law_erased_means_not_programmed(flash: FlashState, address: u32, len: nat)
    requires
        has_no_empty_range(flash),
        0 < len < 0x1_0000_0000,
    ensures
        protocol::assumes_erased(flash, address, len) <==> flash.erased && address + len
            <= 0xffff_ffff && forall|i: int|
            address <= i < address + len ==> !#[trigger] in_ranges(flash, i),
{
    let end = address + len;
    assert(protocol::kept_len(len) == len);
    if protocol::assumes_erased(flash, address, len) {
        assert forall|i: int| address <= i < end implies !#[trigger] in_ranges(flash, i) by {
            if in_ranges(flash, i) {
                let k = choose|k: int|
                    0 <= k < flash.ranges.len() && (#[trigger] flash.ranges[k]).start <= i
                        < flash.ranges[k].end;
                assert(flash.ranges[k].end <= address || end <= flash.ranges[k].start);
            }
        }
    } else if flash.erased && end <= 0xffff_ffff {
        let k = choose|k: int|
            0 <= k < flash.ranges.len() && !({
                let range = #[trigger] flash.ranges[k];
                range.end <= address || end <= range.start
            });
        let range = flash.ranges[k];
        let i = if range.start < address {
            address as int
        } else {
            range.start as int
        };
        assert(range.start <= i < range.end && address <= i < end);
        assert(in_ranges(flash, i));
    }
}

/// What has been programmed is remembered, byte for byte, in addition to what
/// was, unless it leaves the 32-bit address space.
pub proof fn law_programmed_bytes_are_remembered(
    flash: FlashState,
    address: u32,
    len: nat,
    i: int,
)
    requires
        len < 0x1_0000_0000,
    ensures
        ({
            let after = protocol::marked(flash, address, len);
            &&& after.erased == flash.erased
            &&& address + len <= 0xffff_ffff ==> (in_ranges(after, i) <==> in_ranges(flash, i)
                || address <= i < address + len)
            &&& address + len > 0xffff_ffff ==> after == flash
        }),
{
    let after = protocol::marked(flash, address, len);
    assert(protocol::kept_len(len) == len);
    if address + len <= 0xffff_ffff && len > 0 {
        let last = flash.ranges.len() as int;
        if address <= i < address + len {
            assert(after.ranges[last].start <= i < after.ranges[last].end);
        }
        if in_ranges(flash, i) {
            let k = choose|k: int|
                0 <= k < flash.ranges.len() && (#[trigger] flash.ranges[k]).start <= i
                    < flash.ranges[k].end;
            assert(after.ranges[k] == flash.ranges[k]);
        }
        if in_ranges(after, i) {
            let k = choose|k: int|
                0 <= k < after.ranges.len() && (#[trigger] after.ranges[k]).start <= i
                    < after.ranges[k].end;
            if k < last {
                assert(after.ranges[k] == flash.ranges[k]);
            }
        }
    }
}

/// Whether every range that is remembered in `before` still is in `after`.
pub open spec fn keeps_ranges(before: FlashState, after: FlashState) -> bool {
    &&& before.ranges.len() <= after.ranges.len()
    &&& before.ranges == after.ranges.take(before.ranges.len() as int)
}

/// Whether what is known of the flash has changed as it should: all of it is
/// taken to be erased until a sector is erased, no range is forgotten until
/// then, and no empty range comes in.
pub open spec fn is_kept(before: FlashState, t: Seq<Entry>, after: FlashState) -> bool {
    &&& after.erased == (before.erased && !erased_a_sector(t))
    &&& after.erased ==> keeps_ranges(before, after)
    &&& has_no_empty_range(before) ==> has_no_empty_range(after)
}

/// Marking a range forgets none.
proof fn lemma_marked_keeps(flash: FlashState, address: u32, len: nat)
    ensures
        keeps_ranges(flash, flash),
        keeps_ranges(flash, protocol::marked(flash, address, len)),
{
    let after = protocol::marked(flash, address, len);
    assert(flash.ranges.take(flash.ranges.len() as int) =~= flash.ranges);
    assert(after.ranges.take(flash.ranges.len() as int) =~= flash.ranges);
}

proof fn lemma_erased_split(t: Seq<Entry>, k: int)
    requires
        0 <= k <= t.len(),
    ensures
        erased_a_sector(t) == (erased_a_sector(t.take(k)) || erased_a_sector(t.skip(k))),
{
    if erased_a_sector(t) {
        let i = choose|i: int|
            0 <= i < t.len() && has_command(#[trigger] t[i], CMD_FLASH_SECT_ERASE)
                && transport::reply_of(t[i]) is Ok;
        if i < k {
            assert(t.take(k)[i] == t[i]);
        } else {
            assert(t.skip(k)[i - k] == t[i]);
        }
    }
    if erased_a_sector(t.take(k)) {
        let i = choose|i: int|
            0 <= i < k && has_command(#[trigger] t.take(k)[i], CMD_FLASH_SECT_ERASE)
                && transport::reply_of(t.take(k)[i]) is Ok;
        assert(t[i] == t.take(k)[i]);
    }
    if erased_a_sector(t.skip(k)) {
        let i = choose|i: int|
            0 <= i < t.len() - k && has_command(#[trigger] t.skip(k)[i], CMD_FLASH_SECT_ERASE)
                && transport::reply_of(t.skip(k)[i]) is Ok;
        assert(t[i + k] == t.skip(k)[i]);
    }
}

proof fn lemma_waits_erase_nothing(
    polls: nat,
    t: Seq<Entry>,
    result: Result<(), DebugProbeError>,
)
    requires
        protocol::waits(polls, t, result),
    ensures
        !erased_a_sector(t),
{
    reveal(protocol::waits);
    assert(protocol::plain_request(CMD_FLASH_GET_STATUS)[0] == CMD_FLASH_GET_STATUS);
}

proof fn lemma_programs_erase_nothing(
    address: nat,
    data: Seq<u8>,
    t: Seq<Entry>,
    result: Result<(), DebugProbeError>,
)
    requires
        protocol::programs(address, data, t, result),
    ensures
        !erased_a_sector(t),
    decreases data.len(),
{
    reveal_with_fuel(protocol::programs, 2);
    if data.len() > 0 {
        let n = protocol::fits(address, data.len(), FLASH_PAGE_SIZE as nat) as int;
        if protocol::is_blank(data.take(n)) {
            lemma_programs_erase_nothing(address + n as nat, data.skip(n), t, result);
        } else {
            let (k, page) = protocol::lemma_programs_cut(address, data, t, result);
            let first = t.take(k);
            lemma_erased_split(t, k);
            reveal(protocol::programs_page);
            lemma_write_data(CMD_FLASH_WRITE, address, data.take(n));
            lemma_erased_split(first, 1);
            if first.len() > 1 {
                lemma_waits_erase_nothing(protocol::READY_POLLS as nat, first.skip(1), page);
            }
            if page is Ok {
                lemma_programs_erase_nothing(
                    (address + n) as nat,
                    data.skip(n),
                    t.skip(k),
                    result,
                );
            }
        }
    }
}

proof fn lemma_replaces_keeps(
    before: FlashState,
    start: nat,
    content: Seq<u8>,
    t: Seq<Entry>,
    result: Result<(), DebugProbeError>,
    after: FlashState,
)
    requires
        protocol::replaces_sector(before, start, content, t, result, after),
    ensures
        is_kept(before, t, after),
{
    let (k, erase) = protocol::lemma_replaces_cut(before, start, content, t, result, after);
    lemma_marked_keeps(before, start as u32, content.len());
    reveal(protocol::erases_sector);
    lemma_write_data(CMD_FLASH_SECT_ERASE, start, Seq::empty());
    assert(has_command(t[0], CMD_FLASH_SECT_ERASE));
    if transport::reply_of(t[0]) is Err {
        assert(t.len() == 1);
    }
}

proof fn lemma_reads_erase_nothing(
    address: nat,
    len: nat,
    t: Seq<Entry>,
    result: Result<(), DebugProbeError>,
)
    requires
        protocol::reads_flash(address, len, t, result),
    ensures
        !erased_a_sector(t),
{
    lemma_reads_read(address, len, t, result);
}

proof fn lemma_in_sector_keeps(
    before: FlashState,
    address: nat,
    chunk: Seq<u8>,
    t: Seq<Entry>,
    result: Result<(), DebugProbeError>,
    after: FlashState,
)
    requires
        protocol::writes_in_sector(before, address, chunk, t, result, after),
    ensures
        is_kept(before, t, after),
{
    reveal(protocol::writes_in_sector);
    lemma_marked_keeps(before, address as u32, chunk.len());
    let offset = address % FLASH_SECTOR_SIZE as nat;
    let start = (address - offset) as nat;
    let size = FLASH_SECTOR_SIZE as nat;
    if offset == 0 && chunk.len() == FLASH_SECTOR_SIZE {
        lemma_replaces_keeps(before, start, chunk, t, result, after);
    } else if result is Err && protocol::reads_flash(address, chunk.len(), t, result) {
        lemma_reads_erase_nothing(address, chunk.len(), t, result);
    } else {
        let k = protocol::read_count(chunk.len()) as int;
        let current = protocol::bytes_read(t.take(k), chunk.len());
        let rest = t.skip(k);
        lemma_erased_split(t, k);
        lemma_reads_erase_nothing(address, chunk.len(), t.take(k), Ok(()));
        if current == chunk {
        } else if protocol::can_program(current, chunk) {
            lemma_programs_erase_nothing(address, chunk, rest, result);
        } else {
            reveal(protocol::rewrites_sector);
            let m = protocol::read_count(size) as int;
            if result is Err && protocol::reads_flash(start, size, rest, result) {
                lemma_reads_erase_nothing(start, size, rest, result);
            } else {
                lemma_erased_split(rest, m);
                lemma_reads_erase_nothing(start, size, rest.take(m), Ok(()));
                lemma_replaces_keeps(
                    before,
                    start,
                    protocol::with_part(
                        protocol::bytes_read(rest.take(m), size),
                        offset as int,
                        chunk,
                    ),
                    rest.skip(m),
                    result,
                    after,
                );
            }
        }
    }
}

proof fn lemma_sectors_keep(
    before: FlashState,
    address: nat,
    data: Seq<u8>,
    t: Seq<Entry>,
    result: Result<(), DebugProbeError>,
    after: FlashState,
)
    requires
        protocol::writes_sectors(before, address, data, t, result, after),
    ensures
        is_kept(before, t, after),
    decreases data.len(),
{
    reveal_with_fuel(protocol::writes_sectors, 2);
    lemma_marked_keeps(before, 0, 0);
    if data.len() > 0 {
        let n = protocol::fits(address, data.len(), FLASH_SECTOR_SIZE as nat) as int;
        let (k, sector, middle) = protocol::lemma_writes_cut(
            before,
            address,
            data,
            t,
            result,
            after,
        );
        lemma_in_sector_keeps(before, address, data.take(n), t.take(k), sector, middle);
        lemma_erased_split(t, k);
        if sector is Ok {
            lemma_sectors_keep(
                middle,
                (address + n) as nat,
                data.skip(n),
                t.skip(k),
                result,
                after,
            );
            if after.erased {
                let n = before.ranges.len() as int;
                assert(after.ranges.take(n) =~= middle.ranges.take(n));
            }
        }
    }
}

/// However a write ends, the flash is taken to be erased afterwards just if it
/// was before and no erase of a sector was answered; no remembered range is
/// forgotten then; and the remembered ranges stay non-empty.
pub proof fn law_write_keeps_what_is_known(
    before: FlashState,
    address: u32,
    data: Seq<u8>,
    t: Seq<Entry>,
    result: Result<(), DebugProbeError>,
    after: FlashState,
)
    requires
        protocol::writes_flash(before, address, data, t, result, after),
    ensures
        after.erased == (before.erased && !erased_a_sector(t)),
        after.erased ==> keeps_ranges(before, after),
        has_no_empty_range(before) ==> has_no_empty_range(after),
{
    lemma_marked_keeps(before, address, data.len());
    if protocol::assumes_erased(before, address, data.len()) {
        lemma_programs_erase_nothing(address as nat, data, t, result);
    } else {
        lemma_sectors_keep(before, address as nat, data, t, result, after);
    }
}

/// Where data was written, the flash is not taken to be erased any more.
pub proof fn law_written_flash_is_not_taken_to_be_erased(
    before: FlashState,
    address: u32,
    data: Seq<u8>,
    t: Seq<Entry>,
    result: Result<(), DebugProbeError>,
    after: FlashState,
)
    requires
        protocol::writes_flash(before, address, data, t, result, after),
        result is Ok,
        data.len() > 0,
        address + data.len() <= MAX_FLASH_SIZE,
    ensures
        !protocol::assumes_erased(after, address, data.len()),
{
    let len = data.len();
    let n = before.ranges.len() as int;
    assert(protocol::kept_len(len) == len);
    law_write_keeps_what_is_known(before, address, data, t, result, after);
    if protocol::assumes_erased(before, address, len) {
        let range = after.ranges[n];
        assert(range.start == address && range.end == address + len);
    } else if after.erased {
        let i = choose|i: int|
            0 <= i < n && {
                let range = #[trigger] before.ranges[i];
                !(range.end <= address || address + len <= range.start)
            };
        assert(after.ranges.take(n)[i] == after.ranges[i]);
    }
}

/// A write of the same data once more just reads, unless it holds a whole
/// sector, and what is known of the flash stays as it is.
pub proof fn law_second_write_just_reads(
    states: Seq<Seq<u8>>,
    before: FlashState,
    address: u32,
    data: Seq<u8>,
    once: Seq<Entry>,
    first: Result<(), DebugProbeError>,
    middle: FlashState,
    again: Seq<Entry>,
    second: Result<(), DebugProbeError>,
    after: FlashState,
)
    requires
        ran(states, once + again),
        protocol::writes_flash(before, address, data, once, first, middle),
        protocol::writes_flash(middle, address, data, again, second, after),
        first is Ok,
        data.len() > 0,
        !has_whole_sector(address as int, data.len()),
        is_chip(states[0]),
        address + data.len() <= states[0].len(),
        is_true(before, states[0]),
    ensures
        forall|i: int| 0 <= i < again.len() ==> has_command(#[trigger] again[i], CMD_FLASH_READ),
        after == middle,
{
    let k = once.len() as int;
    let t = once + again;
    assert(t.take(k) =~= once);
    assert(t.skip(k) =~= again);
    lemma_ran_split(states, t, k);
    law_write_changes_just_its_range(
        states.take(k + 1),
        before,
        address,
        data,
        once,
        first,
        middle,
    );
    law_written_flash_is_not_taken_to_be_erased(before, address, data, once, first, middle);
    assert(states[k].subrange(address as int, address + data.len()) =~= data);
    law_matching_write_just_reads(
        states.skip(k),
        middle,
        address,
        data,
        again,
        second,
        after,
    );
}

} // verus!
