//! The flash commands of each operation, byte by byte, and their order.

use vstd::prelude::*;

use crate::bytes;
use crate::error::DebugProbeError;
use crate::protocol;
use crate::protocol::FlashState;
use crate::requests;
use crate::session;
use crate::transport;
use crate::transport::Entry;

verus! {

/// The request to program `data` at `address`.
pub open spec fn page_request(address: nat, data: Seq<u8>) -> Seq<u8> {
    seq![
        2u8,
        (address % 256) as u8,
        (address / 256 % 256) as u8,
        (address / 65536 % 256) as u8,
    ] + data
}

/// The request to erase the sector at `address`.
pub open spec fn erase_request(address: nat) -> Seq<u8> {
    seq![
        3u8,
        (address % 256) as u8,
        (address / 256 % 256) as u8,
        (address / 65536 % 256) as u8,
    ]
}

/// The request for `len` bytes of flash at `address`.
pub open spec fn flash_request(address: nat, len: nat) -> Seq<u8> {
    seq![
        1u8,
        (address % 256) as u8,
        (address / 256 % 256) as u8,
        (address / 65536 % 256) as u8,
        (len % 256) as u8,
        (len / 256 % 256) as u8,
    ]
}

/// Whether a step polls the status of the flash.
pub open spec fn is_poll(entry: Entry) -> bool {
    requests::asks(entry, seq![6u8, 0u8, 0u8, 0u8], 7)
}

/// Whether a step programs at most 256 bytes, all in one page.
pub open spec fn is_page(entry: Entry, address: nat, data: Seq<u8>) -> bool {
    &&& 0 < data.len()
    &&& address % 256 + data.len() <= 256
    &&& requests::asks(entry, page_request(address, data), 6)
}

/// Whether a step programs the bytes of `data` from `from` up to `to`, all in one
/// page and not all of them blank, where `data` belongs at `address`.
pub open spec fn is_part(entry: Entry, address: nat, data: Seq<u8>, from: int, to: int) -> bool {
    &&& 0 <= from < to <= data.len()
    &&& is_page(entry, (address + from) as nat, data.subrange(from, to))
    &&& exists|i: int| from <= i < to && #[trigger] data[i] != 0xff
}

/// Whether a step reads at most 1024 bytes of flash.
pub open spec fn is_read(entry: Entry, address: nat, len: nat) -> bool {
    0 < len <= 1024 && requests::asks(entry, flash_request(address, len), len + 6)
}

/// Whether a step erases the sector that begins at `address`.
pub open spec fn is_erase(entry: Entry, address: nat) -> bool {
    address % 4096 == 0 && requests::asks(entry, erase_request(address), 6)
}

/// Whether a step is one that writing flash can take.
pub open spec fn is_flash_step(entry: Entry) -> bool {
    ||| is_poll(entry)
    ||| exists|address: nat, data: Seq<u8>| #[trigger] is_page(entry, address, data)
    ||| exists|address: nat, len: nat| #[trigger] is_read(entry, address, len)
    ||| exists|address: nat| #[trigger] is_erase(entry, address)
}

/// Whether the flash may still be busy after a step: it was answered, and it
/// programs or erases, or it is a poll whose status has its lowest bit set.
pub open spec fn leaves_busy(entry: Entry) -> bool {
    entry matches Entry::Exchanged(exchange) && (transport::reply_of(entry) matches Ok(reply) && {
        ||| exchange.request[0] == 2
        ||| exchange.request[0] == 3
        ||| exchange.request[0] == 4
        ||| exchange.request[0] == 6 && reply[4] & 0x01 == 1
    })
}

/// Whether nothing but a poll follows a step that may leave the flash busy, and
/// no success ends in one.
pub open spec fn is_patient(t: Seq<Entry>, result: Result<(), DebugProbeError>) -> bool {
    forall|i: int|
        0 <= i < t.len() && leaves_busy(#[trigger] t[i]) ==> if i + 1 < t.len() {
            is_poll(t[i + 1])
        } else {
            result is Err
        }
}

/// Whether a step that was sent makes an operation fail with `error`: it was not
/// answered, it programmed another number of bytes than it carried, or it is a
/// poll that was answered by another number of bytes than one, or whose status
/// has its lowest bit set.
pub open spec fn fails_with(entry: Entry, error: DebugProbeError) -> bool {
    entry matches Entry::Exchanged(exchange) && match transport::reply_of(entry) {
        Err(reported) => error == reported,
        Ok(reply) => {
            let count = transport::count_of(reply);
            ||| exchange.request[0] == 2 && count != exchange.request.len() - 4 && error == (
            DebugProbeError::FlashWriteLength {
                written: count as u16,
                expected: (exchange.request.len() - 4) as usize,
            })
            ||| exchange.request[0] == 6 && count != 1 && error
                == DebugProbeError::FlashStatusLength
            ||| exchange.request[0] == 6 && count == 1 && reply[4] & 0x01 == 1 && error
                == DebugProbeError::Timeout
        },
    }
}

/// Whether a step that was not answered is the last, and what the last step
/// fails with is the result.
pub open spec fn is_prompt(t: Seq<Entry>, result: Result<(), DebugProbeError>) -> bool {
    &&& forall|i: int|
        0 <= i < t.len() && !requests::answered(#[trigger] t[i]) ==> i == t.len() - 1
            && result is Err
    &&& result matches Err(error) ==> t.len() > 0 && fails_with(t[t.len() - 1], error)
}

/// Whether the steps are ones that writing flash can take, patient and prompt.
pub open spec fn is_orderly(t: Seq<Entry>, result: Result<(), DebugProbeError>) -> bool {
    &&& is_patient(t, result)
    &&& is_prompt(t, result)
    &&& forall|i: int| 0 <= i < t.len() ==> is_flash_step(#[trigger] t[i])
}

/// Erasing a sector sends its address and waits for the flash, for up to 300
/// polls; nothing follows an erase that was not answered.
pub proof fn law_sector_erase_waits(
    address: nat,
    retries: nat,
    t: Seq<Entry>,
    result: Result<(), DebugProbeError>,
)
    requires
        protocol::erases_sector(address, t, result),
        transport::entries_ok(t, retries),
    ensures
        t.len() > 0,
        requests::asks(t[0], erase_request(address), 6),
        match transport::reply_of(t[0]) {
            Err(error) => t.len() == 1 && result == Err::<(), _>(error),
            Ok(_) => requests::waited(300, t.skip(1), result),
        },
{
    reveal(protocol::erases_sector);
    lemma_erase_request(address);
    lemma_entries_skip(t, 1, retries);
    if transport::reply_of(t[0]) is Ok {
        requests::law_waiting_ends_with_the_lowest_bit_clear(300, retries, t.skip(1), result);
    }
}

/// Erasing all flash sends no address and waits for up to 3000 polls.
pub proof fn law_erase_of_all_waits(
    retries: nat,
    t: Seq<Entry>,
    result: Result<(), DebugProbeError>,
)
    requires
        protocol::erases_all(t, result),
        transport::entries_ok(t, retries),
    ensures
        t.len() > 0,
        requests::asks(t[0], seq![4u8, 0u8, 0u8, 0u8], 6),
        match transport::reply_of(t[0]) {
            Err(error) => t.len() == 1 && result == Err::<(), _>(error),
            Ok(_) => requests::waited(3000, t.skip(1), result),
        },
{
    reveal(protocol::erases_all);
    lemma_entries_skip(t, 1, retries);
    if transport::reply_of(t[0]) is Ok {
        requests::law_waiting_ends_with_the_lowest_bit_clear(3000, retries, t.skip(1), result);
    }
}

/// Programming a page sends the address and all of the data, and waits for the
/// flash for up to 300 polls. More than 256 bytes are refused and nothing is
/// sent. A reply that counts another number of bytes than were sent is an error
/// that tells both.
pub proof fn law_page_write_waits(
    address: nat,
    data: Seq<u8>,
    retries: nat,
    t: Seq<Entry>,
    result: Result<(), DebugProbeError>,
)
    requires
        protocol::programs_page(address, data, t, result),
        transport::entries_ok(t, retries),
    ensures
        data.len() > 256 ==> t.len() == 0 && result == Err::<(), _>(
            DebugProbeError::FlashBlockTooLarge(data.len() as usize),
        ),
        data.len() <= 256 ==> t.len() > 0 && requests::asks(
            t[0],
            page_request(address, data),
            6,
        ) && match transport::reply_of(t[0]) {
            Err(error) => t.len() == 1 && result == Err::<(), _>(error),
            Ok(reply) => if reply[2] + 256 * reply[3] == data.len() {
                requests::waited(300, t.skip(1), result)
            } else {
                &&& t.len() == 1
                &&& result == Err::<(), _>(
                    DebugProbeError::FlashWriteLength {
                        written: (reply[2] + 256 * reply[3]) as u16,
                        expected: data.len() as usize,
                    },
                )
            },
        },
{
    reveal(protocol::programs_page);
    if data.len() <= 256 {
        lemma_page_request(address, data);
        lemma_entries_skip(t, 1, retries);
        transport::law_replies_are_checked(t, retries, 0, page_request(address, data), 6);
        if let Ok(reply) = transport::reply_of(t[0]) {
            requests::law_counts_are_two_bytes(reply);
            if transport::count_of(reply) == data.len() {
                requests::law_waiting_ends_with_the_lowest_bit_clear(
                    300,
                    retries,
                    t.skip(1),
                    result,
                );
            }
        }
    }
}

/// What programming a range sends, besides polls, are parts of the data, each to
/// where it belongs and none across the end of a page.
pub proof fn law_pages_carry_the_data(
    address: nat,
    data: Seq<u8>,
    t: Seq<Entry>,
    result: Result<(), DebugProbeError>,
    i: int,
)
    requires
        protocol::programs(address, data, t, result),
        0 <= i < t.len(),
        !is_poll(t[i]),
    ensures
        exists|from: int, to: int| #[trigger] is_part(t[i], address, data, from, to),
    decreases data.len(),
{
    reveal_with_fuel(protocol::programs, 2);
    if data.len() > 0 {
        let n = protocol::fits(address, data.len(), 256) as int;
        let rest = data.skip(n);
        if protocol::is_blank(data.take(n)) {
            law_pages_carry_the_data((address + n) as nat, rest, t, result, i);
            let (from, to) = choose|from: int, to: int| #[trigger]
                is_part(t[i], (address + n) as nat, rest, from, to);
            lemma_part(t[i], address, data, n, from, to);
        } else {
            let (k, page) = protocol::lemma_programs_cut(address, data, t, result);
            let first = t.take(k);
            lemma_page(address, data.take(n), first, page);
            if i < k {
                assert(first[i] == t[i]);
                assert(data.take(n) =~= data.subrange(0, n));
                lemma_not_blank(data, n);
                assert(is_part(t[i], address, data, 0, n));
            } else {
                assert(t.skip(k)[i - k] == t[i]);
                law_pages_carry_the_data((address + n) as nat, rest, t.skip(k), result, i - k);
                let (from, to) = choose|from: int, to: int| #[trigger]
                    is_part(t.skip(k)[i - k], (address + n) as nat, rest, from, to);
                lemma_part(t[i], address, data, n, from, to);
            }
        }
    }
}

/// The parts are sent in the order of their addresses, and no byte twice.
pub proof fn law_no_byte_is_programmed_twice(
    address: nat,
    data: Seq<u8>,
    t: Seq<Entry>,
    result: Result<(), DebugProbeError>,
    i: int,
    j: int,
)
    requires
        protocol::programs(address, data, t, result),
        0 <= i < j < t.len(),
        !is_poll(t[i]),
        !is_poll(t[j]),
    ensures
        exists|from: int, to: int, next: int, end: int|
            to <= next && #[trigger] is_part(t[i], address, data, from, to) && #[trigger] is_part(
                t[j],
                address,
                data,
                next,
                end,
            ),
    decreases data.len(),
{
    reveal_with_fuel(protocol::programs, 2);
    if data.len() > 0 {
        let n = protocol::fits(address, data.len(), 256) as int;
        let rest = data.skip(n);
        let at = (address + n) as nat;
        let blank = protocol::is_blank(data.take(n));
        let (k, page) = if blank {
            (0, result)
        } else {
            protocol::lemma_programs_cut(address, data, t, result)
        };
        let steps = t.skip(k);
        if !blank {
            lemma_page(address, data.take(n), t.take(k), page);
            assert(i < k ==> t.take(k)[i] == t[i]);
            assert(j < k ==> t.take(k)[j] == t[j]);
        } else {
            assert(steps =~= t);
        }
        assert(i >= k ==> steps[i - k] == t[i]);
        assert(steps[j - k] == t[j]);
        if i < k {
            law_pages_carry_the_data(at, rest, steps, result, j - k);
            let (next, end) = choose|next: int, end: int| #[trigger]
                is_part(steps[j - k], at, rest, next, end);
            lemma_part(t[j], address, data, n, next, end);
            assert(data.take(n) =~= data.subrange(0, n));
            lemma_not_blank(data, n);
            assert(is_part(t[i], address, data, 0, n));
        } else {
            law_no_byte_is_programmed_twice(at, rest, steps, result, i - k, j - k);
            let (from, to, next, end) = choose|from: int, to: int, next: int, end: int|
                to <= next && #[trigger] is_part(steps[i - k], at, rest, from, to)
                    && #[trigger] is_part(steps[j - k], at, rest, next, end);
            lemma_part(t[i], address, data, n, from, to);
            lemma_part(t[j], address, data, n, next, end);
        }
    }
}

proof fn lemma_not_blank(data: Seq<u8>, n: int)
    requires
        0 <= n <= data.len(),
        !protocol::is_blank(data.take(n)),
    ensures
        exists|i: int| 0 <= i < n && #[trigger] data[i] != 0xff,
{
    let i = choose|i: int| 0 <= i < n && #[trigger] data.take(n)[i] != 0xff;
    assert(data[i] != 0xff);
}

/// Bytes can be programmed without an erase exactly if none of them has a bit
/// set that is clear in the byte it replaces; where one of both sequences ends,
/// the rest of the other does not matter.
pub proof fn law_programming_sets_no_bit(current: Seq<u8>, desired: Seq<u8>)
    ensures
        protocol::can_program(current, desired) <==> forall|i: int|
            0 <= i < current.len() && i < desired.len() ==> !(#[trigger] current[i]) & desired[i]
                == 0,
{
    assert forall|i: int| 0 <= i < current.len() && i < desired.len() implies (!(
    #[trigger] current[i]) & desired[i] == 0) == (current[i] & desired[i] == desired[i]) by {
        let c = current[i];
        let d = desired[i];
        assert((!c & d == 0) == (c & d == d)) by (bit_vector);
    }
}

/// A part of what is left behind the first `n` bytes is a part of all.
proof fn lemma_part(entry: Entry, address: nat, data: Seq<u8>, n: int, from: int, to: int)
    requires
        0 <= n <= data.len(),
        is_part(entry, (address + n) as nat, data.skip(n), from, to),
    ensures
        is_part(entry, address, data, n + from, n + to),
{
    let rest = data.skip(n);
    assert(rest.subrange(from, to) =~= data.subrange(n + from, n + to));
    let i = choose|i: int| from <= i < to && #[trigger] rest[i] != 0xff;
    assert(data[n + i] != 0xff);
}

/// Programming a range sends every byte of it that is not blank.
pub proof fn law_every_byte_is_programmed(
    address: nat,
    data: Seq<u8>,
    t: Seq<Entry>,
    result: Result<(), DebugProbeError>,
    j: int,
)
    requires
        protocol::programs(address, data, t, result),
        result is Ok,
        0 <= j < data.len(),
        data[j] != 0xff,
    ensures
        exists|i: int, from: int, to: int|
            0 <= i < t.len() && from <= j < to && #[trigger] is_part(
                t[i],
                address,
                data,
                from,
                to,
            ),
    decreases data.len(),
{
    reveal_with_fuel(protocol::programs, 2);
    let n = protocol::fits(address, data.len(), 256) as int;
    let rest = data.skip(n);
    if protocol::is_blank(data.take(n)) {
        assert(j < n ==> data.take(n)[j] == data[j]);
        law_every_byte_is_programmed((address + n) as nat, rest, t, result, j - n);
        let (i, from, to) = choose|i: int, from: int, to: int|
            0 <= i < t.len() && from <= j - n < to && #[trigger] is_part(
                t[i],
                (address + n) as nat,
                rest,
                from,
                to,
            );
        lemma_part(t[i], address, data, n, from, to);
    } else {
        let (k, page) = protocol::lemma_programs_cut(address, data, t, result);
        let first = t.take(k);
        lemma_page(address, data.take(n), first, page);
        if j < n {
            assert(first[0] == t[0]);
            assert(data.take(n) =~= data.subrange(0, n));
            lemma_not_blank(data, n);
            assert(is_part(t[0], address, data, 0, n));
        } else {
            law_every_byte_is_programmed((address + n) as nat, rest, t.skip(k), result, j - n);
            let (i, from, to) = choose|i: int, from: int, to: int|
                0 <= i < t.skip(k).len() && from <= j - n < to && #[trigger] is_part(
                    t.skip(k)[i],
                    (address + n) as nat,
                    rest,
                    from,
                    to,
                );
            assert(t.skip(k)[i] == t[i + k]);
            lemma_part(t[i + k], address, data, n, from, to);
        }
    }
}

/// Reading flash asks for 1024 bytes at a time, and for what is left at the end,
/// one part behind the other, until all was read or a read was not answered.
pub proof fn law_flash_is_read_in_parts(
    address: nat,
    len: nat,
    t: Seq<Entry>,
    result: Result<(), DebugProbeError>,
)
    requires
        protocol::reads_flash(address, len, t, result),
        len <= 0x1_0000_0000,
    ensures
        forall|i: int|
            0 <= i < t.len() ==> is_read(
                #[trigger] t[i],
                (address + 1024 * i) as nat,
                if len - 1024 * i < 1024 {
                    (len - 1024 * i) as nat
                } else {
                    1024
                },
            ),
        forall|i: int| 0 <= i < t.len() - 1 ==> requests::answered(#[trigger] t[i]),
        result is Ok <==> 1024 * t.len() >= len && (t.len() > 0 ==> requests::answered(t.last())),
        result is Err ==> t.len() > 0 && requests::ends_as(t.last(), result),
{
    reveal(protocol::reads_flash);
    assert forall|i: int| 0 <= i < t.len() implies is_read(
        #[trigger] t[i],
        (address + 1024 * i) as nat,
        if len - 1024 * i < 1024 {
            (len - 1024 * i) as nat
        } else {
            1024
        },
    ) by {
        assert(1024 * i < len);
        lemma_flash_request((address + 1024 * i) as nat, protocol::read_len(len, i));
    }
}

/// What a read of flash leaves in the buffer: in the place of each byte the one
/// that its part brought, or, behind the last part that was answered, the byte
/// that was there.
pub proof fn law_flash_bytes_come_from_their_parts(
    address: nat,
    data: Seq<u8>,
    t: Seq<Entry>,
    result: Result<(), DebugProbeError>,
    j: int,
)
    requires
        protocol::reads_flash(address, data.len(), t, result),
        0 <= j < data.len(),
    ensures
        session::filled(data, t, result).len() == data.len(),
        j / 1024 < t.len() && (transport::reply_of(t[j / 1024]) matches Ok(reply)
            && session::filled(data, t, result)[j] == reply[4 + j % 1024]) || (result is Err && j
            / 1024 >= t.len() - 1 && session::filled(data, t, result)[j] == data[j]),
{
    reveal(protocol::reads_flash);
}

/// While the flash may be busy, nothing but its status is asked for: a command
/// follows one that programs or erases only once a poll has found the lowest bit
/// of the status clear, and a write succeeds only after that. All that a write
/// sends are polls, reads of at most 1024 bytes, erases of whole sectors and
/// writes that stay in their page. The first of them that is not answered ends
/// it, and it fails with what its last step failed with.
pub proof fn law_write_awaits_the_flash(
    before: FlashState,
    address: u32,
    data: Seq<u8>,
    t: Seq<Entry>,
    result: Result<(), DebugProbeError>,
    after: FlashState,
)
    requires
        protocol::writes_flash(before, address, data, t, result, after),
    ensures
        is_orderly(t, result),
{
    if protocol::assumes_erased(before, address, data.len()) {
        lemma_programs(address as nat, data, t, result);
    } else {
        lemma_sectors(before, address as nat, data, t, result, after);
    }
}

/// Whether a step reads, programs or erases the byte at `at`, which is `byte`
/// where it is programmed.
pub open spec fn reaches(entry: Entry, at: int, byte: u8) -> bool {
    ||| exists|address: nat, len: nat|
        address <= at < address + len && #[trigger] is_read(entry, address, len)
    ||| exists|address: nat, data: Seq<u8>|
        address <= at < address + data.len() && data[at - address] == byte && #[trigger] is_page(
            entry,
            address,
            data,
        )
    ||| exists|address: nat|
        address <= at < address + 4096 && #[trigger] is_erase(entry, address)
}

/// A write that succeeds leaves out no byte: each is looked at, programmed or in
/// a sector that is erased, unless it is blank in flash that is known to be
/// erased.
pub proof fn law_no_byte_is_left_out(
    before: FlashState,
    address: u32,
    data: Seq<u8>,
    t: Seq<Entry>,
    result: Result<(), DebugProbeError>,
    after: FlashState,
    j: int,
)
    requires
        protocol::writes_flash(before, address, data, t, result, after),
        result is Ok,
        0 <= j < data.len(),
        data[j] != 0xff || !protocol::assumes_erased(before, address, data.len()),
    ensures
        exists|i: int| 0 <= i < t.len() && reaches(#[trigger] t[i], address + j, data[j]),
{
    if protocol::assumes_erased(before, address, data.len()) {
        law_every_byte_is_programmed(address as nat, data, t, result, j);
        let (i, from, to) = choose|i: int, from: int, to: int|
            0 <= i < t.len() && from <= j < to && #[trigger] is_part(
                t[i],
                address as nat,
                data,
                from,
                to,
            );
        let part = data.subrange(from, to);
        assert(part[address + j - (address + from)] == data[j]);
        assert(is_page(t[i], (address as nat + from) as nat, part));
        assert(reaches(t[i], address + j, data[j]));
    } else {
        lemma_no_byte_left_out(before, address as nat, data, t, result, after, j);
    }
}

proof fn lemma_no_byte_left_out(
    before: FlashState,
    address: nat,
    data: Seq<u8>,
    t: Seq<Entry>,
    result: Result<(), DebugProbeError>,
    after: FlashState,
    j: int,
)
    requires
        protocol::writes_sectors(before, address, data, t, result, after),
        result is Ok,
        0 <= j < data.len(),
    ensures
        exists|i: int| 0 <= i < t.len() && reaches(#[trigger] t[i], address + j, data[j]),
    decreases data.len(),
{
    reveal_with_fuel(protocol::writes_sectors, 2);
    let n = protocol::fits(address, data.len(), 4096) as int;
    let (k, sector, middle) = protocol::lemma_writes_cut(before, address, data, t, result, after);
    if j < n {
        lemma_none_left_out_in_sector(
            before,
            address,
            data.take(n),
            t.take(k),
            sector,
            middle,
            j,
        );
        let i = choose|i: int|
            0 <= i < t.take(k).len() && reaches(
                #[trigger] t.take(k)[i],
                address + j,
                data.take(n)[j],
            );
        assert(t.take(k)[i] == t[i]);
    } else {
        lemma_no_byte_left_out(
            middle,
            (address + n) as nat,
            data.skip(n),
            t.skip(k),
            result,
            after,
            j - n,
        );
        let i = choose|i: int|
            0 <= i < t.skip(k).len() && reaches(
                #[trigger] t.skip(k)[i],
                address + n + (j - n),
                data.skip(n)[j - n],
            );
        assert(t.skip(k)[i] == t[i + k]);
    }
}

proof fn lemma_none_left_out_in_sector(
    before: FlashState,
    address: nat,
    chunk: Seq<u8>,
    t: Seq<Entry>,
    result: Result<(), DebugProbeError>,
    after: FlashState,
    j: int,
)
    requires
        protocol::writes_in_sector(before, address, chunk, t, result, after),
        result is Ok,
        0 <= j < chunk.len(),
        chunk.len() <= 4096,
    ensures
        exists|i: int| 0 <= i < t.len() && reaches(#[trigger] t[i], address + j, chunk[j]),
{
    reveal(protocol::writes_in_sector);
    if address % 4096 == 0 && chunk.len() == 4096 {
        let (k, erase) = protocol::lemma_replaces_cut(before, address, chunk, t, result, after);
        lemma_erase(address, t.take(k), erase);
        assert(t.take(k)[0] == t[0]);
        assert(is_erase(t[0], address));
        assert(reaches(t[0], address + j, chunk[j]));
    } else {
        let k = protocol::read_count(chunk.len()) as int;
        let first = t.take(k);
        law_flash_is_read_in_parts(address, chunk.len(), first, Ok(()));
        let i = j / 1024;
        let len = if chunk.len() - 1024 * i < 1024 {
            (chunk.len() - 1024 * i) as nat
        } else {
            1024
        };
        assert(1024 * i <= j);
        assert(i < first.len());
        assert(is_read(first[i], (address + 1024 * i) as nat, len));
        assert(first[i] == t[i]);
        assert(reaches(t[i], address + j, chunk[j]));
    }
}

/// A write erases no sector twice, and only sectors that it writes to.
pub proof fn law_no_sector_is_erased_twice(
    before: FlashState,
    address: u32,
    data: Seq<u8>,
    t: Seq<Entry>,
    result: Result<(), DebugProbeError>,
    after: FlashState,
)
    requires
        protocol::writes_flash(before, address, data, t, result, after),
        address + data.len() <= 0x100_0000,
    ensures
        forall|i: int|
            0 <= i < t.len() && erases(#[trigger] t[i]) ==> exists|start: nat| #[trigger]
                is_erase(t[i], start) && start < address + data.len() && address < start + 4096,
        forall|i: int, j: int|
            0 <= i < j < t.len() && erases(#[trigger] t[i]) && erases(#[trigger] t[j])
                ==> t[i]->Exchanged_0.request != t[j]->Exchanged_0.request,
{
    if protocol::assumes_erased(before, address, data.len()) {
        lemma_pages_erase_nothing(address as nat, data, t, result);
    } else {
        lemma_erases(before, address as nat, data, t, result, after);
        assert forall|i: int| 0 <= i < t.len() && erases(#[trigger] t[i]) implies exists|
            start: nat,
        | #[trigger]
            is_erase(t[i], start) && start < address + data.len() && address < start + 4096 by {
            let start = choose|start: nat| #[trigger]
                erases_between(t[i], start, address as nat, address as nat + data.len());
            assert(is_erase(t[i], start));
        }
    }
}

/// Whether a step erases a sector.
pub open spec fn erases(entry: Entry) -> bool {
    entry matches Entry::Exchanged(exchange) && exchange.request[0] == 3
}

/// Whether a step erases the sector at `start`, which has a byte from `from` up
/// to `to`.
spec fn erases_between(entry: Entry, start: nat, from: nat, to: nat) -> bool {
    is_erase(entry, start) && start < to && from < start + 4096
}

proof fn lemma_erases(
    before: FlashState,
    address: nat,
    data: Seq<u8>,
    t: Seq<Entry>,
    result: Result<(), DebugProbeError>,
    after: FlashState,
)
    requires
        protocol::writes_sectors(before, address, data, t, result, after),
        address + data.len() <= 0x100_0000,
    ensures
        forall|i: int|
            0 <= i < t.len() && erases(#[trigger] t[i]) ==> exists|start: nat| #[trigger]
                erases_between(t[i], start, address, address + data.len()),
        forall|i: int, j: int|
            0 <= i < j < t.len() && erases(#[trigger] t[i]) && erases(#[trigger] t[j])
                ==> t[i]->Exchanged_0.request != t[j]->Exchanged_0.request,
    decreases data.len(),
{
    reveal_with_fuel(protocol::writes_sectors, 2);
    if data.len() > 0 {
        let n = protocol::fits(address, data.len(), 4096) as int;
        let (k, sector, middle) = protocol::lemma_writes_cut(
            before,
            address,
            data,
            t,
            result,
            after,
        );
        let a = t.take(k);
        let b = t.skip(k);
        let first = (address - address % 4096) as nat;
        let all = address + data.len();
        let next = (address + n) as nat;
        lemma_erases_in_sector(before, address, data.take(n), a, sector, middle);
        if sector is Ok {
            lemma_erases(middle, next, data.skip(n), b, result, after);
        }
        assert forall|i: int| 0 <= i < t.len() && erases(#[trigger] t[i]) implies exists|
            start: nat,
        | #[trigger] erases_between(t[i], start, address, all) by {
            if i < k {
                assert(a[i] == t[i]);
                assert(erases_between(t[i], first, address, all));
            } else {
                assert(b[i - k] == t[i]);
                let start = choose|start: nat| #[trigger]
                    erases_between(b[i - k], start, next, next + data.skip(n).len());
                assert(erases_between(t[i], start, address, all));
            }
        }
        assert forall|i: int, j: int|
            0 <= i < j < t.len() && erases(#[trigger] t[i]) && erases(
                #[trigger] t[j],
            ) implies t[i]->Exchanged_0.request != t[j]->Exchanged_0.request by {
            if j < k {
                assert(a[i] == t[i] && a[j] == t[j]);
            } else if i >= k {
                assert(b[i - k] == t[i] && b[j - k] == t[j]);
            } else {
                assert(a[i] == t[i] && b[j - k] == t[j]);
                let start = choose|start: nat| #[trigger]
                    erases_between(b[j - k], start, next, next + data.skip(n).len());
                lemma_erase_requests_differ(first, start);
            }
        }
    }
}

proof fn lemma_erase_requests_differ(a: nat, b: nat)
    requires
        a < 0x100_0000,
        b < 0x100_0000,
        a != b,
    ensures
        erase_request(a) != erase_request(b),
{
    if erase_request(a) == erase_request(b) {
        assert(erase_request(a)[1] == erase_request(b)[1]);
        assert(erase_request(a)[2] == erase_request(b)[2]);
        assert(erase_request(a)[3] == erase_request(b)[3]);
    }
}

proof fn lemma_erases_in_sector(
    before: FlashState,
    address: nat,
    chunk: Seq<u8>,
    t: Seq<Entry>,
    result: Result<(), DebugProbeError>,
    after: FlashState,
)
    requires
        protocol::writes_in_sector(before, address, chunk, t, result, after),
    ensures
        ({
            let start = (address - address % 4096) as nat;
            &&& forall|i: int|
                0 <= i < t.len() && erases(#[trigger] t[i]) ==> requests::asks(
                    t[i],
                    erase_request(start),
                    6,
                )
            &&& forall|i: int, j: int|
                0 <= i < j < t.len() && erases(#[trigger] t[i]) ==> !erases(#[trigger] t[j])
        }),
{
    reveal(protocol::writes_in_sector);
    let offset = address % 4096;
    let start = (address - offset) as nat;
    let len = chunk.len();
    if offset == 0 && len == 4096 {
        lemma_one_erase(before, start, chunk, t, result, after);
    } else if result is Err && protocol::reads_flash(address, len, t, result) {
        lemma_reads_erase_nothing(address, len, t, result);
    } else {
        let k = protocol::read_count(len) as int;
        let current = protocol::bytes_read(t.take(k), len);
        let rest = t.skip(k);
        lemma_reads_erase_nothing(address, len, t.take(k), Ok(()));
        assert forall|i: int| 0 <= i < k implies !erases(#[trigger] t[i]) by {
            assert(t.take(k)[i] == t[i]);
        }
        assert(forall|i: int| k <= i < t.len() ==> #[trigger] t[i] == rest[i - k]);
        if current == chunk {
        } else if protocol::can_program(current, chunk) {
            lemma_pages_erase_nothing(address, chunk, rest, result);
        } else {
            reveal(protocol::rewrites_sector);
            let m = protocol::read_count(4096) as int;
            if result is Err && protocol::reads_flash(start, 4096, rest, result) {
                lemma_reads_erase_nothing(start, 4096, rest, result);
            } else {
                let content = protocol::with_part(
                    protocol::bytes_read(rest.take(m), 4096),
                    offset as int,
                    chunk,
                );
                let tail = rest.skip(m);
                lemma_reads_erase_nothing(start, 4096, rest.take(m), Ok(()));
                lemma_one_erase(before, start, content, tail, result, after);
                assert forall|i: int| 0 <= i < m implies !erases(#[trigger] rest[i]) by {
                    assert(rest.take(m)[i] == rest[i]);
                }
                assert(forall|i: int| m <= i < rest.len() ==> #[trigger] rest[i] == tail[i - m]);
            }
        }
    }
}

proof fn lemma_reads_erase_nothing(
    address: nat,
    len: nat,
    t: Seq<Entry>,
    result: Result<(), DebugProbeError>,
)
    requires
        protocol::reads_flash(address, len, t, result),
    ensures
        forall|i: int| 0 <= i < t.len() ==> !erases(#[trigger] t[i]),
{
    reveal(protocol::reads_flash);
}

proof fn lemma_one_erase(
    before: FlashState,
    start: nat,
    content: Seq<u8>,
    t: Seq<Entry>,
    result: Result<(), DebugProbeError>,
    after: FlashState,
)
    requires
        protocol::replaces_sector(before, start, content, t, result, after),
        start % 4096 == 0,
    ensures
        t.len() > 0,
        requests::asks(t[0], erase_request(start), 6),
        forall|i: int| 0 < i < t.len() ==> !erases(#[trigger] t[i]),
{
    let (k, erase) = protocol::lemma_replaces_cut(before, start, content, t, result, after);
    let first = t.take(k);
    let rest = t.skip(k);
    assert(requests::asks(first[0], erase_request(start), 6) && forall|i: int|
        0 < i < first.len() ==> is_poll(#[trigger] first[i])) by {
        lemma_erase(start, first, erase);
    }
    assert(first[0] == t[0]);
    if erase is Ok {
        lemma_pages_erase_nothing(start, content, rest, result);
    }
    assert forall|i: int| 0 < i < t.len() implies !erases(#[trigger] t[i]) by {
        if i < k {
            assert(first[i] == t[i]);
        } else {
            assert(rest[i - k] == t[i]);
        }
    }
}

proof fn lemma_pages_erase_nothing(
    address: nat,
    data: Seq<u8>,
    t: Seq<Entry>,
    result: Result<(), DebugProbeError>,
)
    requires
        protocol::programs(address, data, t, result),
    ensures
        forall|i: int| 0 <= i < t.len() ==> !erases(#[trigger] t[i]),
{
    assert forall|i: int| 0 <= i < t.len() implies !erases(#[trigger] t[i]) by {
        if !is_poll(t[i]) {
            law_pages_carry_the_data(address, data, t, result, i);
        }
    }
}

/// Programming a range awaits the flash after every page.
pub proof fn law_programming_awaits_the_flash(
    address: nat,
    data: Seq<u8>,
    t: Seq<Entry>,
    result: Result<(), DebugProbeError>,
)
    requires
        protocol::programs(address, data, t, result),
    ensures
        is_orderly(t, result),
{
    lemma_programs(address, data, t, result);
}

/// Erasing all flash succeeds only once a poll has found the lowest bit of the
/// status clear.
pub proof fn law_erasing_awaits_the_flash(t: Seq<Entry>, result: Result<(), DebugProbeError>)
    requires
        protocol::erases_all(t, result),
    ensures
        is_patient(t, result),
        is_prompt(t, result),
{
    reveal(protocol::erases_all);
    if transport::reply_of(t[0]) is Ok {
        lemma_waits(3000, t.skip(1), result);
        assert(t.skip(1)[0] == t[1]);
        lemma_after_command(t, result);
    }
}

/// Writing whole sectors that are not known to be erased reads nothing.
pub proof fn law_whole_sectors_are_not_read(
    before: FlashState,
    address: u32,
    data: Seq<u8>,
    t: Seq<Entry>,
    result: Result<(), DebugProbeError>,
    after: FlashState,
    i: int,
)
    requires
        protocol::writes_flash(before, address, data, t, result, after),
        address % 4096 == 0,
        data.len() % 4096 == 0,
        0 <= i < t.len(),
    ensures
        t[i] matches Entry::Exchanged(exchange) && exchange.request[0] != 1,
{
    if protocol::assumes_erased(before, address, data.len()) {
        lemma_programs(address as nat, data, t, result);
        if !is_poll(t[i]) {
            law_pages_carry_the_data(address as nat, data, t, result, i);
        }
    } else {
        lemma_no_reads(before, address as nat, data, t, result, after);
    }
}

proof fn lemma_no_reads(
    before: FlashState,
    address: nat,
    data: Seq<u8>,
    t: Seq<Entry>,
    result: Result<(), DebugProbeError>,
    after: FlashState,
)
    requires
        protocol::writes_sectors(before, address, data, t, result, after),
        address % 4096 == 0,
        data.len() % 4096 == 0,
    ensures
        forall|i: int| 0 <= i < t.len() ==> reads_nothing(#[trigger] t[i]),
    decreases data.len(),
{
    reveal_with_fuel(protocol::writes_sectors, 2);
    if data.len() > 0 {
        let n = protocol::fits(address, data.len(), 4096) as int;
        let (k, sector, middle) = protocol::lemma_writes_cut(
            before,
            address,
            data,
            t,
            result,
            after,
        );
        let first = t.take(k);
        lemma_no_reads_in_sector(before, address, data.take(n), first, sector, middle);
        if sector is Ok {
            lemma_no_reads(
                middle,
                (address + n) as nat,
                data.skip(n),
                t.skip(k),
                result,
                after,
            );
        }
        assert forall|i: int| 0 <= i < t.len() implies reads_nothing(#[trigger] t[i]) by {
            if i < k {
                assert(first[i] == t[i]);
            } else {
                assert(t.skip(k)[i - k] == t[i]);
            }
        }
    }
}

proof fn lemma_no_reads_in_sector(
    before: FlashState,
    address: nat,
    chunk: Seq<u8>,
    t: Seq<Entry>,
    result: Result<(), DebugProbeError>,
    after: FlashState,
)
    requires
        protocol::writes_in_sector(before, address, chunk, t, result, after),
        address % 4096 == 0,
        chunk.len() == 4096,
    ensures
        forall|i: int| 0 <= i < t.len() ==> reads_nothing(#[trigger] t[i]),
{
    assert(protocol::replaces_sector(before, address, chunk, t, result, after)) by {
        reveal(protocol::writes_in_sector);
    }
    let (k, erase) = protocol::lemma_replaces_cut(before, address, chunk, t, result, after);
    lemma_erase(address, t.take(k), erase);
    assert forall|i: int| 0 <= i < t.len() implies reads_nothing(#[trigger] t[i]) by {
        if i == 0 {
            assert(t.take(k)[0] == t[0]);
        } else if i < k {
            assert(is_poll(t.take(k)[i]));
        } else {
            assert(t.skip(k)[i - k] == t[i]);
            if !is_poll(t[i]) {
                law_pages_carry_the_data(address, chunk, t.skip(k), result, i - k);
            }
        }
    }
}

spec fn reads_nothing(entry: Entry) -> bool {
    entry matches Entry::Exchanged(exchange) && exchange.request[0] != 1
}

proof fn lemma_erase_request(address: nat)
    ensures
        protocol::write_request(3, address, Seq::empty()) == erase_request(address),
{
    bytes::lemma_le_three(address);
    assert(protocol::write_request(3, address, Seq::empty()) =~= erase_request(address));
}

proof fn lemma_page_request(address: nat, data: Seq<u8>)
    ensures
        protocol::write_request(2, address, data) == page_request(address, data),
{
    bytes::lemma_le_three(address);
    assert(protocol::write_request(2, address, data) =~= page_request(address, data));
}

proof fn lemma_flash_request(address: nat, len: nat)
    ensures
        protocol::read_request(1, address, len) == flash_request(address, len),
{
    bytes::lemma_le_three(address);
    bytes::lemma_le_two(len);
    assert(protocol::read_request(1, address, len) =~= flash_request(address, len));
}

proof fn lemma_entries_skip(t: Seq<Entry>, k: int, retries: nat)
    requires
        transport::entries_ok(t, retries),
        0 <= k <= t.len(),
    ensures
        transport::entries_ok(t.skip(k), retries),
{
    reveal(transport::entries_ok);
    let rest = t.skip(k);
    assert forall|i: int| 0 <= i < rest.len() implies transport::entry_ok(
        #[trigger] rest[i],
        retries,
    ) by {
        assert(rest[i] == t[i + k]);
    }
}

/// Waiting is orderly.
proof fn lemma_waits(polls: nat, t: Seq<Entry>, result: Result<(), DebugProbeError>)
    requires
        protocol::waits(polls, t, result),
        polls > 0,
    ensures
        is_orderly(t, result),
        t.len() > 0,
        forall|i: int| 0 <= i < t.len() ==> is_poll(#[trigger] t[i]),
{
    reveal(protocol::waits);
    assert(protocol::plain_request(6) =~= seq![6u8, 0u8, 0u8, 0u8]);
    assert forall|i: int| 0 <= i < t.len() implies is_poll(#[trigger] t[i]) by {}
    if t.len() > 0 {
        let last = t[t.len() - 1];
        if let Ok(reply) = transport::reply_of(last) {
            requests::law_busy_is_the_lowest_bit(reply[4]);
        }
    }
}

/// Whatever a command is followed by orderly polls, it is patient with them.
proof fn lemma_after_command(t: Seq<Entry>, result: Result<(), DebugProbeError>)
    requires
        t.len() > 1,
        is_patient(t.skip(1), result),
        is_prompt(t.skip(1), result),
        requests::answered(t[0]),
        is_poll(t[1]),
    ensures
        is_patient(t, result),
        is_prompt(t, result),
{
    let rest = t.skip(1);
    assert forall|i: int| 0 <= i < t.len() && !requests::answered(#[trigger] t[i]) implies i
        == t.len() - 1 && result is Err by {
        assert(rest[i - 1] == t[i]);
    }
    assert(rest[rest.len() - 1] == t[t.len() - 1]);
    assert forall|i: int| 0 <= i < t.len() && leaves_busy(#[trigger] t[i]) implies if i + 1
        < t.len() {
        is_poll(t[i + 1])
    } else {
        result is Err
    } by {
        if i > 0 {
            assert(rest[i - 1] == t[i]);
            assert(i + 1 < t.len() ==> rest[i] == t[i + 1]);
        }
    }
}

/// Erasing a sector is orderly.
proof fn lemma_erase(address: nat, t: Seq<Entry>, result: Result<(), DebugProbeError>)
    requires
        protocol::erases_sector(address, t, result),
        address % 4096 == 0,
    ensures
        is_orderly(t, result),
        t.len() > 0,
        requests::asks(t[0], erase_request(address), 6),
        forall|i: int| 0 < i < t.len() ==> is_poll(#[trigger] t[i]),
{
    reveal(protocol::erases_sector);
    lemma_erase_request(address);
    assert(is_erase(t[0], address));
    if transport::reply_of(t[0]) is Ok {
        let rest = t.skip(1);
        lemma_waits(300, rest, result);
        assert(rest[0] == t[1]);
        lemma_after_command(t, result);
        assert forall|i: int| 0 < i < t.len() implies is_poll(#[trigger] t[i]) by {
            assert(rest[i - 1] == t[i]);
        }
    }
}

/// Programming a page is orderly.
proof fn lemma_page(
    address: nat,
    data: Seq<u8>,
    t: Seq<Entry>,
    result: Result<(), DebugProbeError>,
)
    requires
        protocol::programs_page(address, data, t, result),
        0 < data.len(),
        address % 256 + data.len() <= 256,
    ensures
        is_orderly(t, result),
        t.len() > 0,
        is_page(t[0], address, data),
        forall|i: int| 0 < i < t.len() ==> is_poll(#[trigger] t[i]),
{
    reveal(protocol::programs_page);
    lemma_page_request(address, data);
    assert(is_page(t[0], address, data));
    if let Ok(reply) = transport::reply_of(t[0]) {
        if transport::count_of(reply) == data.len() {
            let rest = t.skip(1);
            lemma_waits(300, rest, result);
            assert(rest[0] == t[1]);
            lemma_after_command(t, result);
            assert forall|i: int| 0 < i < t.len() implies is_poll(#[trigger] t[i]) by {
                assert(rest[i - 1] == t[i]);
            }
        }
    }
}

/// Orderly steps that went well, and orderly steps after them.
proof fn lemma_join(
    t: Seq<Entry>,
    k: int,
    first: Result<(), DebugProbeError>,
    result: Result<(), DebugProbeError>,
)
    requires
        0 <= k <= t.len(),
        is_orderly(t.take(k), first),
        first is Ok,
        is_orderly(t.skip(k), result),
    ensures
        is_orderly(t, result),
{
    let a = t.take(k);
    let b = t.skip(k);
    assert forall|i: int| 0 <= i < t.len() && !requests::answered(#[trigger] t[i]) implies i
        == t.len() - 1 && result is Err by {
        if i < k {
            assert(requests::answered(a[i]));
        } else {
            assert(requests::answered(b[i - k]) == requests::answered(t[i]));
        }
    }
    if result is Err {
        assert(b[b.len() - 1] == t[t.len() - 1]);
    }
    assert forall|i: int| 0 <= i < t.len() implies is_flash_step(#[trigger] t[i]) by {
        if i < k {
            assert(is_flash_step(a[i]));
        } else {
            assert(is_flash_step(b[i - k]));
        }
    }
    assert forall|i: int| 0 <= i < t.len() && leaves_busy(#[trigger] t[i]) implies if i + 1
        < t.len() {
        is_poll(t[i + 1])
    } else {
        result is Err
    } by {
        if i < k {
            assert(leaves_busy(a[i]));
            assert(i + 1 < k && a[i + 1] == t[i + 1]);
        } else {
            assert(leaves_busy(b[i - k]));
            assert(i + 1 < t.len() ==> b[i - k + 1] == t[i + 1]);
        }
    }
}

/// Programming a range is orderly.
proof fn lemma_programs(
    address: nat,
    data: Seq<u8>,
    t: Seq<Entry>,
    result: Result<(), DebugProbeError>,
)
    requires
        protocol::programs(address, data, t, result),
    ensures
        is_orderly(t, result),
    decreases data.len(),
{
    reveal_with_fuel(protocol::programs, 2);
    if data.len() > 0 {
        let n = protocol::fits(address, data.len(), 256) as int;
        if protocol::is_blank(data.take(n)) {
            lemma_programs((address + n) as nat, data.skip(n), t, result);
        } else {
            let (k, page) = protocol::lemma_programs_cut(address, data, t, result);
            lemma_page(address, data.take(n), t.take(k), page);
            if page is Ok {
                lemma_programs((address + n) as nat, data.skip(n), t.skip(k), result);
                lemma_join(t, k, page, result);
            } else {
                assert(t.take(k) =~= t);
            }
        }
    }
}

/// Reading flash is orderly.
proof fn lemma_reads(
    address: nat,
    len: nat,
    t: Seq<Entry>,
    result: Result<(), DebugProbeError>,
)
    requires
        protocol::reads_flash(address, len, t, result),
    ensures
        is_orderly(t, result),
{
    reveal(protocol::reads_flash);
    assert forall|i: int| 0 <= i < t.len() implies is_flash_step(#[trigger] t[i]) && !leaves_busy(
        t[i],
    ) by {
        assert(1024 * i < len);
        let at = protocol::read_address(address, i);
        let n = protocol::read_len(len, i);
        lemma_flash_request(at, n);
        assert(is_read(t[i], at, n));
    }
}

/// Replacing a sector is orderly.
proof fn lemma_replaces(
    before: FlashState,
    start: nat,
    content: Seq<u8>,
    t: Seq<Entry>,
    result: Result<(), DebugProbeError>,
    after: FlashState,
)
    requires
        protocol::replaces_sector(before, start, content, t, result, after),
        start % 4096 == 0,
    ensures
        is_orderly(t, result),
{
    let (k, erase) = protocol::lemma_replaces_cut(before, start, content, t, result, after);
    lemma_erase(start, t.take(k), erase);
    if erase is Ok {
        lemma_programs(start, content, t.skip(k), result);
        lemma_join(t, k, erase, result);
    } else {
        assert(t.take(k) =~= t);
    }
}

/// Writing in a sector is orderly.
proof fn lemma_in_sector(
    before: FlashState,
    address: nat,
    chunk: Seq<u8>,
    t: Seq<Entry>,
    result: Result<(), DebugProbeError>,
    after: FlashState,
)
    requires
        protocol::writes_in_sector(before, address, chunk, t, result, after),
    ensures
        is_orderly(t, result),
{
    reveal(protocol::writes_in_sector);
    let offset = address % 4096;
    let start = (address - offset) as nat;
    let len = chunk.len();
    if offset == 0 && len == 4096 {
        lemma_replaces(before, start, chunk, t, result, after);
    } else if result is Err && protocol::reads_flash(address, len, t, result) {
        lemma_reads(address, len, t, result);
    } else {
        let k = protocol::read_count(len) as int;
        let current = protocol::bytes_read(t.take(k), len);
        let rest = t.skip(k);
        lemma_reads(address, len, t.take(k), Ok(()));
        if current == chunk {
        } else if protocol::can_program(current, chunk) {
            lemma_programs(address, chunk, rest, result);
        } else {
            reveal(protocol::rewrites_sector);
            let m = protocol::read_count(4096) as int;
            if result is Err && protocol::reads_flash(start, 4096, rest, result) {
                lemma_reads(start, 4096, rest, result);
            } else {
                lemma_reads(start, 4096, rest.take(m), Ok(()));
                lemma_replaces(
                    before,
                    start,
                    protocol::with_part(
                        protocol::bytes_read(rest.take(m), 4096),
                        offset as int,
                        chunk,
                    ),
                    rest.skip(m),
                    result,
                    after,
                );
                lemma_join(rest, m, Ok(()), result);
            }
        }
        lemma_join(t, k, Ok(()), result);
    }
}

/// Writing sector by sector is orderly.
proof fn lemma_sectors(
    before: FlashState,
    address: nat,
    data: Seq<u8>,
    t: Seq<Entry>,
    result: Result<(), DebugProbeError>,
    after: FlashState,
)
    requires
        protocol::writes_sectors(before, address, data, t, result, after),
    ensures
        is_orderly(t, result),
    decreases data.len(),
{
    reveal_with_fuel(protocol::writes_sectors, 2);
    if data.len() > 0 {
        let n = protocol::fits(address, data.len(), 4096) as int;
        let (k, sector, middle) = protocol::lemma_writes_cut(
            before,
            address,
            data,
            t,
            result,
            after,
        );
        lemma_in_sector(before, address, data.take(n), t.take(k), sector, middle);
        if sector is Ok {
            lemma_sectors(
                middle,
                (address + n) as nat,
                data.skip(n),
                t.skip(k),
                result,
                after,
            );
            lemma_join(t, k, sector, result);
        } else {
            assert(t.take(k) =~= t);
        }
    }
}

} // verus!
