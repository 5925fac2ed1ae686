//! The requests of each operation, byte by byte, and what their replies decide.

use vstd::prelude::*;

use crate::bytes;
use crate::crc;
use crate::error::DebugProbeError;
use crate::protocol;
use crate::session;
use crate::session::ProbeView;
use crate::tc32::calls::SwsCall;
use crate::tc32::TlsrSwsDebug;
use crate::telink_sws::TelinkSws;
use crate::transport;
use crate::transport::Entry;
use crate::transport::Expects;
use crate::transport::Io;
use crate::transport::IoEvent;
use crate::wire;

verus! {

/// Whether a step sends `request` and waits for a reply of `want` bytes.
pub open spec fn asks(entry: Entry, request: Seq<u8>, want: nat) -> bool {
    entry matches Entry::Exchanged(exchange) && exchange.request == request && exchange.expects
        == Expects::Bytes(want)
}

/// Whether a step activates the target with `count` frames.
pub open spec fn activates(entry: Entry, count: nat) -> bool {
    entry matches Entry::Exchanged(exchange) && exchange.request == seq![
        0u8,
        4u8,
        (count % 256) as u8,
        (count / 256) as u8,
    ] && exchange.expects is Announced
}

/// Whether a step was answered by a reply.
pub open spec fn answered(entry: Entry) -> bool {
    transport::reply_of(entry) is Ok
}

/// Whether all that was written between two states of a probe is `request` in a
/// packet, once or more.
pub open spec fn wrote_just<T>(
    before: ProbeView<T>,
    after: ProbeView<T>,
    request: Seq<u8>,
) -> bool {
    let events = after.events.skip(before.events.len() as int);
    &&& after.events.take(before.events.len() as int) == before.events
    &&& events.len() > 0 && events[0] is Write
    &&& forall|k: int|
        0 <= k < events.len() ==> (#[trigger] events[k] matches IoEvent::Write { data, .. }
            ==> wire::is_packet(data, request))
}

/// A memory write puts on the wire the command, the three address bytes and all
/// of the data, whatever their number, and nothing else; it succeeds if the
/// programmer answers with its command and no error.
pub proof fn law_memory_write_is_on_the_wire<T: Io>(
    before: TelinkSws<T>,
    address: u32,
    data: Seq<u8>,
    outcome: Result<(), DebugProbeError>,
    after: TelinkSws<T>,
)
    requires
        TelinkSws::<T>::takes(before, SwsCall::WriteMemory { address, data, outcome }, after),
    ensures
        wrote_just(
            before@,
            after@,
            seq![
                8u8,
                (address % 256) as u8,
                (address / 256 % 256) as u8,
                (address / 65536 % 256) as u8,
            ] + data,
        ),
        outcome is Ok ==> exists|leading: Seq<u8>, reply: Seq<u8>|
            {
                &&& #[trigger] (leading + reply) == wire::heard(
                    session::events_since(before@, after@),
                )
                &&& !leading.contains(8u8)
                &&& reply.len() == 6
                &&& reply[0] == 8
                &&& reply[1] == 0
                &&& crc::crc_of(reply) == 0
            },
        outcome is Err ==> wire::packets(session::events_since(before@, after@))
            == before@.io_retries + 1,
        session::since(before@, after@).len() == 1,
        ends_as(session::since(before@, after@)[0], outcome),
{
    let entry = session::since(before@, after@)[0];
    let request = seq![
        8u8,
        (address % 256) as u8,
        (address / 256 % 256) as u8,
        (address / 65536 % 256) as u8,
    ] + data;
    bytes::lemma_le_three(address as nat);
    assert(protocol::write_request(8, address as nat, data) =~= request);
    lemma_one_command(before@, after@, request, 6);
    if outcome is Ok {
        let reply = transport::reply_of(entry)->Ok_0;
        let leading = choose|leading: Seq<u8>|
            !leading.contains(8u8) && #[trigger] (leading + reply) == wire::heard(
                session::events_since(before@, after@),
            );
        assert(leading + reply == wire::heard(session::events_since(before@, after@)));
    }
}

/// A memory read puts on the wire its command, the three address bytes and the
/// two length bytes, and nothing else. What it brings, if it succeeds, are the
/// bytes of the reply from the fifth on; otherwise the buffer is as it was.
pub proof fn law_memory_read_is_on_the_wire<T: Io>(
    before: TelinkSws<T>,
    address: u32,
    held: Seq<u8>,
    data: Seq<u8>,
    outcome: Result<(), DebugProbeError>,
    after: TelinkSws<T>,
)
    requires
        TelinkSws::<T>::takes(before, SwsCall::ReadMemory { address, held, data, outcome }, after),
    ensures
        reads_on_the_wire(7, before@, address, held, data, outcome, after@),
{
    lemma_reads_on_the_wire(7, before@, address, held, data, outcome, after@);
}

/// A flash read differs from a memory read in its command alone.
pub proof fn law_flash_read_is_on_the_wire<T: Io>(
    before: TelinkSws<T>,
    address: u32,
    held: Seq<u8>,
    data: Seq<u8>,
    outcome: Result<(), DebugProbeError>,
    after: TelinkSws<T>,
)
    requires
        TelinkSws::<T>::takes(before, SwsCall::ReadFlash { address, held, data, outcome }, after),
    ensures
        reads_on_the_wire(1, before@, address, held, data, outcome, after@),
{
    lemma_reads_on_the_wire(1, before@, address, held, data, outcome, after@);
}

/// Whether a read with `command` at `address` was made over the wire, and `data`
/// is what it left in a buffer that held `held`.
pub open spec fn reads_on_the_wire<T: Io>(
    command: u8,
    before: ProbeView<T>,
    address: u32,
    held: Seq<u8>,
    data: Seq<u8>,
    outcome: Result<(), DebugProbeError>,
    after: ProbeView<T>,
) -> bool {
    let len = held.len();
    let events = after.events.skip(before.events.len() as int);
    &&& wrote_just(
        before,
        after,
        seq![
            command,
            (address % 256) as u8,
            (address / 256 % 256) as u8,
            (address / 65536 % 256) as u8,
            (len % 256) as u8,
            (len / 256 % 256) as u8,
        ],
    )
    &&& outcome is Ok ==> exists|leading: Seq<u8>, reply: Seq<u8>|
        {
            &&& #[trigger] (leading + reply) == wire::heard(events)
            &&& !leading.contains(command)
            &&& reply.len() == len + 6
            &&& reply[0] == command
            &&& reply[1] == 0
            &&& crc::crc_of(reply) == 0
            &&& data.len() == len
            &&& forall|i: int| 0 <= i < len ==> #[trigger] data[i] == reply[4 + i]
        }
    &&& outcome is Err ==> data == held && wire::packets(events) == before.io_retries + 1
    &&& session::since(before, after).len() == 1
    &&& ends_as(session::since(before, after)[0], outcome)
}

proof fn lemma_reads_on_the_wire<T: Io>(
    command: u8,
    before: ProbeView<T>,
    address: u32,
    held: Seq<u8>,
    data: Seq<u8>,
    outcome: Result<(), DebugProbeError>,
    after: ProbeView<T>,
)
    requires
        session::only_session(before, after),
        session::fills(command, address, session::since(before, after), held, outcome, data),
    ensures
        reads_on_the_wire(command, before, address, held, data, outcome, after),
{
    let len = held.len();
    let entry = session::since(before, after)[0];
    let request = seq![
        command,
        (address % 256) as u8,
        (address / 256 % 256) as u8,
        (address / 65536 % 256) as u8,
        (len % 256) as u8,
        (len / 256 % 256) as u8,
    ];
    lemma_read_request(command, address as nat, len);
    lemma_one_command(before, after, request, len + 6);
    if outcome is Ok {
        let reply = transport::reply_of(entry)->Ok_0;
        let leading = choose|leading: Seq<u8>|
            !leading.contains(command) && #[trigger] (leading + reply) == wire::heard(
                session::events_since(before, after),
            );
        assert(leading + reply == wire::heard(session::events_since(before, after)));
    }
}

/// The bytes of a read request.
proof fn lemma_read_request(command: u8, address: nat, len: nat)
    ensures
        protocol::read_request(command, address, len) == seq![
            command,
            (address % 256) as u8,
            (address / 256 % 256) as u8,
            (address / 65536 % 256) as u8,
            (len % 256) as u8,
            (len / 256 % 256) as u8,
        ],
{
    bytes::lemma_le_three(address);
    bytes::lemma_le_two(len);
    assert(protocol::read_request(command, address, len) =~= seq![
        command,
        (address % 256) as u8,
        (address / 256 % 256) as u8,
        (address / 65536 % 256) as u8,
        (len % 256) as u8,
        (len / 256 % 256) as u8,
    ]);
}

/// What one command puts on the wire and takes from it.
proof fn lemma_one_command<T: Io>(
    before: ProbeView<T>,
    after: ProbeView<T>,
    request: Seq<u8>,
    want: nat,
)
    requires
        session::went_on(before, after),
        session::since(before, after).len() == 1,
        transport::is_command(session::since(before, after)[0], request, want),
    ensures
        wrote_just(before, after, request),
        ({
            let events = session::events_since(before, after);
            match transport::reply_of(session::since(before, after)[0]) {
                Err(_) => wire::packets(events) == before.io_retries + 1,
                Ok(reply) => {
                    &&& reply.len() == want >= 2
                    &&& reply[0] == request[0]
                    &&& reply[1] == 0
                    &&& crc::crc_of(reply) == 0
                    &&& exists|leading: Seq<u8>|
                        !leading.contains(request[0]) && #[trigger] (leading + reply)
                            == wire::heard(events)
                },
            }
        }),
{
    reveal(session::went_on);
    reveal(transport::entries_ok);
    let steps = session::since(before, after);
    let exchange = steps[0]->Exchanged_0;
    let retries = before.io_retries;
    assert(transport::entry_ok(steps[0], retries));
    reveal_with_fuel(transport::log_events, 2);
    assert(steps.drop_last() =~= Seq::empty());
    let events = transport::attempts_events(exchange.attempts);
    assert(transport::log_events(steps) =~= events);
    assert(session::events_since(before, after) =~= events);
    assert(after.events.take(before.events.len() as int) =~= before.events);
    wire::law_packets_are_counted(exchange, retries);
    wire::law_replies_are_what_was_heard(exchange, retries, want);
    assert(events.len() > 0) by {
        if events.len() == 0 {
            reveal(Seq::filter);
        }
    }
    wire::law_packets_carry_their_request(exchange, retries, 0);
    assert forall|k: int| 0 <= k < events.len() implies (
    #[trigger] events[k] matches IoEvent::Write { data, .. } ==> wire::is_packet(
        data,
        request,
    )) by {
        wire::law_packets_carry_their_request(exchange, retries, k);
    }
}

/// The flash is busy exactly as long as the lowest bit of its status is set,
/// whatever the other bits are.
pub proof fn law_busy_is_the_lowest_bit(status: u8)
    ensures
        protocol::is_busy(status) <==> status & 0x01 == 1,
        !protocol::is_busy(status) <==> status & 0x01 == 0,
{
    assert((status % 2 == 1) == (status & 0x01 == 1)) by (bit_vector);
    assert((status & 0x01 == 0) == (status & 0x01 != 1)) by (bit_vector);
}

/// Whether the steps `t` poll the status of the flash up to `polls` times: until
/// a poll finds the lowest bit clear, which alone is a success. The first poll
/// that is not answered, or not answered by one byte, ends it as well, and it
/// times out if the bit is set in all polls.
pub open spec fn waited(
    polls: nat,
    t: Seq<Entry>,
    result: Result<(), DebugProbeError>,
) -> bool {
    &&& t.len() <= polls
    &&& forall|i: int| 0 <= i < t.len() ==> asks(#[trigger] t[i], seq![6u8, 0u8, 0u8, 0u8], 7)
    &&& forall|i: int|
        0 <= i < t.len() - 1 ==> (transport::reply_of(#[trigger] t[i]) matches Ok(reply)
            && reply[2] == 1 && reply[3] == 0 && reply[4] & 0x01 == 1)
    &&& result is Ok <==> t.len() > 0 && (transport::reply_of(t.last()) matches Ok(reply)
        && reply[2] == 1 && reply[3] == 0 && reply[4] & 0x01 == 0)
    &&& t.len() == 0 ==> polls == 0 && result == Err::<(), _>(DebugProbeError::Timeout)
    &&& t.len() > 0 && result is Err ==> match transport::reply_of(t.last()) {
        Err(error) => result == Err::<(), _>(error),
        Ok(reply) => if reply[2] == 1 && reply[3] == 0 {
            t.len() == polls && result == Err::<(), _>(DebugProbeError::Timeout)
        } else {
            result == Err::<(), _>(DebugProbeError::FlashStatusLength)
        },
    }
}

/// Waiting for the flash ends in success only with a poll whose status has its
/// lowest bit clear, and goes on as long as that bit is set.
pub proof fn law_waiting_ends_with_the_lowest_bit_clear(
    polls: nat,
    retries: nat,
    t: Seq<Entry>,
    result: Result<(), DebugProbeError>,
)
    requires
        protocol::waits(polls, t, result),
        transport::entries_ok(t, retries),
    ensures
        waited(polls, t, result),
{
    reveal(protocol::waits);
    assert(protocol::plain_request(6) =~= seq![6u8, 0u8, 0u8, 0u8]);
    assert forall|i: int| 0 <= i < t.len() implies (transport::reply_of(#[trigger] t[i]) matches Ok(
        reply,
    ) ==> {
        &&& protocol::is_busy(reply[4]) == (reply[4] & 0x01 == 1)
        &&& protocol::is_busy(reply[4]) != (reply[4] & 0x01 == 0)
        &&& (transport::count_of(reply) == 1) == (reply[2] == 1 && reply[3] == 0)
    }) by {
        transport::law_replies_are_checked(t, retries, i, seq![6u8, 0u8, 0u8, 0u8], 7);
        if let Ok(reply) = transport::reply_of(t[i]) {
            law_busy_is_the_lowest_bit(reply[4]);
            law_counts_are_two_bytes(reply);
        }
    }
    if t.len() > 0 {
        assert(t.last() == t[t.len() - 1]);
    }
}

/// The length or count that a reply tells is its third byte and 256 times its
/// fourth.
pub proof fn law_counts_are_two_bytes(reply: Seq<u8>)
    requires
        reply.len() >= 4,
    ensures
        transport::count_of(reply) == reply[2] + 256 * reply[3],
{
    bytes::lemma_le_value_two(reply.subrange(2, 4));
}

/// The status of the flash is the fifth byte of a reply that counts one byte.
pub proof fn law_status_is_the_fifth_byte(entry: Entry)
    requires
        transport::reply_of(entry) matches Ok(reply) ==> reply.len() >= 5,
    ensures
        match transport::reply_of(entry) {
            Err(error) => protocol::status_of(entry) == Err::<u8, _>(error),
            Ok(reply) => protocol::status_of(entry) == if reply[2] == 1 && reply[3] == 0 {
                Ok(reply[4])
            } else {
                Err(DebugProbeError::FlashStatusLength)
            },
        },
{
    if let Ok(reply) = transport::reply_of(entry) {
        law_counts_are_two_bytes(reply);
    }
}

/// Asking for the version sends four zeros.
pub proof fn law_version_request_is_zeros(entry: Entry)
    requires
        transport::is_command(entry, protocol::version_request(), 19),
    ensures
        asks(entry, seq![0u8, 0u8, 0u8, 0u8], 19),
{
}

/// Setting the reset pin takes one command, and ends as that does.
pub proof fn law_reset_pin_takes_one_command(
    enabled: bool,
    t: Seq<Entry>,
    result: Result<(), DebugProbeError>,
)
    requires
        protocol::sets_reset_pin(enabled, t, result),
    ensures
        t.len() == 1,
        asks(
            t[0],
            seq![
                0u8,
                3u8,
                if enabled {
                    1u8
                } else {
                    0u8
                },
                0u8,
            ],
            7,
        ),
        ends_as(t[0], result),
{
}

/// Whether a result is how the exchange of a step ended.
pub open spec fn ends_as(entry: Entry, result: Result<(), DebugProbeError>) -> bool {
    match transport::reply_of(entry) {
        Ok(_) => result is Ok,
        Err(error) => result == Err::<(), _>(error),
    }
}

/// A reset pulls the reset pin and lets it go again; it is not let go if it
/// could not be pulled.
pub proof fn law_reset_pulls_and_lets_go(t: Seq<Entry>, result: Result<(), DebugProbeError>)
    requires
        protocol::resets(t, result),
    ensures
        1 <= t.len() <= 2,
        asks(t[0], seq![0u8, 3u8, 1u8, 0u8], 7),
        answered(t[0]) <==> t.len() == 2,
        t.len() == 2 ==> asks(t[1], seq![0u8, 3u8, 0u8, 0u8], 7),
        ends_as(t.last(), result),
{
}

/// Configuring the single wire sends the divider and the address length.
pub proof fn law_configuration_carries_the_divider(
    swdiv: u8,
    swaddrlen: u8,
    t: Seq<Entry>,
    result: Result<(), DebugProbeError>,
)
    requires
        protocol::configures(swdiv, swaddrlen, t, result),
    ensures
        t.len() == 1,
        asks(
            t[0],
            seq![0u8, 2u8, 0u8, 0u8, swdiv, swaddrlen, 0x5au8, 0u8, 6u8, 2u8, 0u8, 5u8],
            14,
        ),
        ends_as(t[0], result),
{
}

/// An activation sends the number of frames, low byte first.
pub proof fn law_activation_carries_the_count(
    count: u16,
    t: Seq<Entry>,
    result: Result<(), DebugProbeError>,
)
    requires
        protocol::activates(count, t, result),
    ensures
        t.len() == 1,
        activates(t[0], count as nat),
        ends_as(t[0], result),
{
    lemma_activation(t[0], count);
}

proof fn lemma_activation(entry: Entry, count: u16)
    requires
        transport::is_activation(entry, protocol::activate_request(count)),
    ensures
        activates(entry, count as nat),
{
    bytes::lemma_le_two(count as nat);
    assert(protocol::activate_request(count) =~= seq![
        0u8,
        4u8,
        (count as nat % 256) as u8,
        (count as nat / 256) as u8,
    ]);
}

/// An activation that fails is repeated once: after the reset pin was pulled,
/// ten milliseconds have passed and the pin was let go, with the other number of
/// frames. One that succeeds is all there is.
pub proof fn law_activation_is_repeated_after_a_reset(
    initial: u16,
    recovery: u16,
    t: Seq<Entry>,
    result: Result<(), DebugProbeError>,
)
    requires
        protocol::activates_or_recovers(initial, recovery, t, result),
    ensures
        recovers(initial as nat, recovery as nat, t, result),
{
    lemma_activation(t[0], initial);
    if t.len() == 5 {
        lemma_activation(t.skip(4)[0], recovery);
    }
}

/// The steps that try an activation with `initial` frames, and once more with
/// `recovery` frames after a reset.
pub open spec fn recovers(
    initial: nat,
    recovery: nat,
    t: Seq<Entry>,
    result: Result<(), DebugProbeError>,
) -> bool {
    &&& t.len() == 1 || t.len() == 2 || t.len() == 4 || t.len() == 5
    &&& activates(t[0], initial)
    &&& t.len() == 1 <==> answered(t[0])
    &&& t.len() == 1 ==> result is Ok
    &&& t.len() > 1 ==> asks(t[1], seq![0u8, 3u8, 1u8, 0u8], 7) && ends_as(t.last(), result)
    &&& t.len() == 2 ==> !answered(t[1])
    &&& t.len() > 2 ==> answered(t[1]) && t[2] == (Entry::Delayed { millis: 10 }) && asks(
        t[3],
        seq![0u8, 3u8, 0u8, 0u8],
        7,
    )
    &&& t.len() == 4 ==> !answered(t[3])
    &&& t.len() == 5 ==> answered(t[3]) && activates(t[4], recovery)
}

/// Attaching asks for the version, configures the wire with the divider 4 and
/// three address bytes, lets the reset pin go and activates the target with 965
/// frames or, failing that, with 1379 after a reset. The first step that is not
/// answered ends it, except that activation.
pub proof fn law_attaching_goes_step_by_step(t: Seq<Entry>, result: Result<(), DebugProbeError>)
    requires
        protocol::attaches(t, result),
    ensures
        t.len() >= 1,
        asks(t[0], seq![0u8, 0u8, 0u8, 0u8], 19),
        t.len() == 1 <==> !answered(t[0]),
        t.len() > 1 ==> asks(
            t[1],
            seq![0u8, 2u8, 0u8, 0u8, 4u8, 3u8, 0x5au8, 0u8, 6u8, 2u8, 0u8, 5u8],
            14,
        ),
        t.len() == 2 ==> !answered(t[1]),
        t.len() > 2 ==> answered(t[1]) && asks(t[2], seq![0u8, 3u8, 0u8, 0u8], 7),
        t.len() == 3 ==> !answered(t[2]),
        t.len() <= 3 ==> ends_as(t.last(), result),
        t.len() > 3 ==> answered(t[2]) && recovers(965, 1379, t.skip(3), result),
{
    if t.len() > 3 {
        law_activation_is_repeated_after_a_reset(965, 1379, t.skip(3), result);
    }
}

/// The speed that a divider gives is the largest whole number of kHz that the
/// 4800 kHz of the wire's clock hold as often as the divider says.
pub proof fn law_speed_is_the_clock_divided(swdiv: u8)
    requires
        swdiv > 0,
    ensures
        protocol::speed_of(swdiv) * swdiv <= 4800 < (protocol::speed_of(swdiv) + 1) * swdiv,
{
    let d = swdiv as int;
    let s = 4800int / d;
    assert(24_000int / 5 == 4800);
    assert(s * d <= 4800 < (s + 1) * d && s >= 1) by (nonlinear_arith)
        requires
            1 <= d <= 255,
            s == 4800int / d,
    ;
}

/// The divider for a speed is the largest that does not fall below it, unless
/// it would leave the range from 1 to 255.
pub proof fn law_divider_is_the_largest_that_is_fast_enough(speed_khz: u32)
    ensures
        ({
            let d = protocol::divider_of(speed_khz);
            let wanted = if speed_khz == 0 {
                1
            } else {
                speed_khz as int
            };
            &&& 1 <= d <= 255
            &&& d > 1 ==> d * wanted <= 4800
            &&& d < 255 ==> 4800 < (d + 1) * wanted
        }),
{
    let w = if speed_khz == 0 {
        1
    } else {
        speed_khz as int
    };
    let q = 4800int / w;
    assert(24_000int / 5 == 4800);
    assert(0 <= q && q * w <= 4800 < (q + 1) * w) by (nonlinear_arith)
        requires
            1 <= w,
            q == 4800int / w,
    ;
    assert(q > 255 ==> 255 * w <= q * w) by (nonlinear_arith)
        requires
            1 <= w,
    ;
    assert(q < 1 ==> 4800 < 2 * w) by (nonlinear_arith)
        requires
            4800 < (q + 1) * w,
            1 <= w,
    ;
}

} // verus!
