//! What goes over the wire, byte by byte.

use vstd::prelude::*;

use crate::bytes;
use crate::crc;
use crate::error::DebugProbeError;
use crate::error::IoError;
use crate::error::IoErrorKind;
use crate::session;
use crate::session::ProbeView;
use crate::transport;
use crate::transport::Attempt;
use crate::transport::Entry;
use crate::transport::Exchange;
use crate::transport::Expects;
use crate::transport::Io;
use crate::transport::IoEvent;

verus! {

/// Whether `packet` is `request`, all of it, with two bytes behind it that leave
/// no remainder.
pub open spec fn is_packet(packet: Seq<u8>, request: Seq<u8>) -> bool {
    &&& packet.len() == request.len() + 2
    &&& packet.take(request.len() as int) == request
    &&& crc::crc_of(packet) == 0
}

/// The bytes that came in after the last packet that went out.
pub open spec fn heard(events: Seq<IoEvent>) -> Seq<u8>
    decreases events.len(),
{
    if events.len() == 0 {
        Seq::empty()
    } else {
        match events.last() {
            IoEvent::Write { .. } => Seq::empty(),
            IoEvent::Read { outcome: Ok(data), .. } => heard(events.drop_last()) + data,
            _ => heard(events.drop_last()),
        }
    }
}

/// How many packets went out.
pub open spec fn packets(events: Seq<IoEvent>) -> nat {
    events.filter(|event: IoEvent| event is Write).len()
}

/// Every packet that is written for a request is that request, byte for byte and
/// at any length, and its CRC; the first call of all writes one.
pub proof fn law_packets_carry_their_request(exchange: Exchange, retries: nat, k: int)
    requires
        transport::exchange_ok(exchange, retries),
        0 <= k < transport::attempts_events(exchange.attempts).len(),
    ensures
        transport::attempts_events(exchange.attempts)[0] is Write,
        transport::attempts_events(exchange.attempts)[k] matches IoEvent::Write { data, .. }
            ==> is_packet(data, exchange.request),
{
    let attempts = exchange.attempts;
    lemma_attempts(exchange, retries, attempts.len() as int);
    assert(attempts.take(attempts.len() as int) =~= attempts);
}

/// A command is given up only once it has gone out as often as there are
/// retries and once more; each time that it fails, pending input is dropped. One
/// that is answered does not go out again. An activation goes out once. What is
/// reported is how the last attempt ended.
pub proof fn law_packets_are_counted(exchange: Exchange, retries: nat)
    requires
        transport::exchange_ok(exchange, retries),
    ensures
        ({
            let attempts = exchange.attempts;
            let events = transport::attempts_events(attempts);
            let reply = transport::reply_of(Entry::Exchanged(exchange));
            &&& attempts.len() > 0
            &&& packets(events) == attempts.len()
            &&& reply == attempts.last().outcome
            &&& exchange.expects is Bytes ==> {
                &&& packets(events) <= retries + 1
                &&& reply is Err ==> packets(events) == retries + 1 && events.last() is Discard
                &&& forall|i: int|
                    0 <= i < attempts.len() - 1 ==> (#[trigger] attempts[i]).outcome is Err
                &&& forall|i: int|
                    0 <= i < attempts.len() ==> if (#[trigger] attempts[i]).outcome is Err {
                        attempts[i].cleanup.len() == 1 && attempts[i].cleanup[0] is Discard
                    } else {
                        attempts[i].cleanup.len() == 0
                    }
            }
            &&& exchange.expects is Announced ==> packets(events) == 1
        }),
{
    let attempts = exchange.attempts;
    lemma_attempts(exchange, retries, attempts.len() as int);
    assert(attempts.take(attempts.len() as int) =~= attempts);
    assert(attempts.last() == attempts[attempts.len() - 1]);
    if let Expects::Bytes(want) = exchange.expects {
        assert forall|i: int| 0 <= i < attempts.len() implies if (#[trigger] attempts[i]).outcome
            is Err {
            attempts[i].cleanup.len() == 1 && attempts[i].cleanup[0] is Discard
        } else {
            attempts[i].cleanup.len() == 0
        } by {
            assert(transport::command_attempt(exchange.request, want, attempts[i]));
        }
    }
}

/// The reply to a command is what came in since its packet went out, from the
/// first byte on that is the command's own; it has the length asked for, leaves
/// no remainder and reports no error. If there was no such reply the command
/// failed.
pub proof fn law_replies_are_what_was_heard(exchange: Exchange, retries: nat, want: nat)
    requires
        transport::exchange_ok(exchange, retries),
        exchange.expects == Expects::Bytes(want),
    ensures
        transport::reply_of(Entry::Exchanged(exchange)) matches Ok(reply) ==> {
            &&& reply.len() == want >= 2
            &&& reply[0] == exchange.request[0]
            &&& reply[1] == 0
            &&& crc::crc_of(reply) == 0
            &&& exists|leading: Seq<u8>|
                !leading.contains(exchange.request[0]) && #[trigger] (leading + reply) == heard(
                    transport::attempts_events(exchange.attempts),
                )
        },
{
    let attempts = exchange.attempts;
    let n = attempts.len() as int;
    let last = attempts[n - 1];
    let mark = exchange.request[0];
    lemma_attempts(exchange, retries, n);
    assert(attempts.take(n) =~= attempts);
    assert(transport::command_attempt(exchange.request, want, last));
    if let Ok(reply) = last.outcome {
        let all = transport::stream(last.reply);
        crc::law_valid_packets_leave_nothing(reply);
        assert(transport::from_first(all, mark) == reply);
        assert(transport::stream(last.rest) =~= Seq::empty());
        assert(all + transport::stream(last.rest) =~= all);
        let leading = lemma_from_first(all, mark);
        assert(leading + reply == heard(transport::attempts_events(attempts)));
    }
}

/// The reply to an activation is what came in since its packet went out, from
/// the first byte on that is the command's own: six bytes, of which the third
/// and the fourth tell how many more follow. It leaves no remainder and reports
/// no error.
pub proof fn law_activation_replies_are_what_was_heard(exchange: Exchange, retries: nat)
    requires
        transport::exchange_ok(exchange, retries),
        exchange.expects is Announced,
    ensures
        transport::reply_of(Entry::Exchanged(exchange)) matches Ok(reply) ==> {
            &&& reply.len() >= 6
            &&& reply.len() == 6 + reply[2] + 256 * reply[3]
            &&& reply[0] == exchange.request[0]
            &&& reply[1] == 0
            &&& crc::crc_of(reply) == 0
            &&& exists|leading: Seq<u8>|
                !leading.contains(exchange.request[0]) && #[trigger] (leading + reply) == heard(
                    transport::attempts_events(exchange.attempts),
                )
        },
{
    let attempts = exchange.attempts;
    let last = attempts[0];
    let mark = exchange.request[0];
    lemma_attempts(exchange, retries, 1);
    assert(attempts.take(1) =~= attempts);
    assert(transport::activation_attempt(exchange.request, last));
    if let Ok(reply) = last.outcome {
        let all = transport::stream(last.reply);
        let rest = transport::stream(last.rest);
        let header = transport::from_first(all, mark);
        crc::law_valid_packets_leave_nothing(reply);
        assert(reply == header + rest);
        assert(header.len() == 6);
        let leading = lemma_from_first(all, mark);
        bytes::lemma_le_value_two(header.subrange(2, 4));
        assert(rest.len() == header[2] + 256 * header[3]);
        assert(leading + reply =~= all + rest);
        assert(leading + reply == heard(transport::attempts_events(attempts)));
    }
}

/// How each way to fail is reported. A transport that fails to write, to flush
/// or to read is reported as it is, except that a read that found nothing in
/// time is a timeout, as is one that brought no byte. A complete reply fails
/// with its remainder first, then with the error that it reports.
pub proof fn law_failures_are_told_apart(request: Seq<u8>, want: nat, attempt: Attempt)
    requires
        transport::command_attempt(request, want, attempt),
    ensures
        ({
            let got = transport::from_first(transport::stream(attempt.reply), request[0]);
            &&& attempt.sending.len() > 0 && attempt.sending[0] is Write
            &&& attempt.sending[0] matches IoEvent::Write { outcome: Err(error), .. }
                ==> attempt.sending.len() == 1 && attempt.reply.len() == 0 && attempt.outcome
                == Err::<Seq<u8>, _>(DebugProbeError::Usb(error))
            &&& attempt.sending[0] matches IoEvent::Write { outcome: Ok(_), .. } ==> {
                &&& attempt.sending.len() == 2
                &&& attempt.sending[1] is Flush
                &&& attempt.sending[1] matches IoEvent::Flush { outcome: Err(error) }
                    ==> attempt.reply.len() == 0 && attempt.outcome == Err::<Seq<u8>, _>(
                    DebugProbeError::Usb(error),
                )
                &&& attempt.sending[1] matches IoEvent::Flush { outcome: Ok(_) } ==> {
                    &&& got.len() < want ==> ends_early(attempt.reply, attempt.outcome)
                    &&& got.len() == want < 2 ==> attempt.outcome == Err::<Seq<u8>, _>(
                        DebugProbeError::InvalidCrc,
                    )
                    &&& got.len() == want >= 2 && crc::crc_of(got) != 0 ==> attempt.outcome
                        == Err::<Seq<u8>, _>(DebugProbeError::InvalidCrc)
                    &&& got.len() == want >= 2 && crc::crc_of(got) == 0 && got[1] != 0
                        ==> attempt.outcome == Err::<Seq<u8>, _>(
                        DebugProbeError::Programmer(got[1]),
                    )
                    &&& got.len() == want >= 2 && crc::crc_of(got) == 0 && got[1] == 0
                        ==> attempt.outcome == Ok::<_, DebugProbeError>(got)
                    &&& got.len() <= want
                }
            }
        }),
{
    let all = transport::stream(attempt.reply);
    let got = transport::from_first(all, request[0]);
    crc::law_valid_packets_leave_nothing(got);
    let leading = lemma_from_first(all, request[0]);
    assert(attempt.sending.len() > 0 && attempt.sending[0] is Write);
    if attempt.reply.len() > 0 {
        lemma_no_byte_too_many(attempt.reply, request[0], want);
    }
}

/// Sending a request writes it in one packet, and nothing else; it is flushed if
/// that succeeded.
pub proof fn law_sending_writes_the_request(
    request: Seq<u8>,
    events: Seq<IoEvent>,
    result: Result<(), DebugProbeError>,
)
    requires
        transport::sent(request, events) == Some(result),
    ensures
        events.len() > 0,
        events[0] matches IoEvent::Write { data, outcome } && is_packet(data, request)
            && match outcome {
            Err(error) => events.len() == 1 && result == Err::<(), _>(DebugProbeError::Usb(error)),
            Ok(_) => events.len() == 2 && (events[1] matches IoEvent::Flush { outcome: flushed }
                && match flushed {
                Err(error) => result == Err::<(), _>(DebugProbeError::Usb(error)),
                Ok(_) => result is Ok,
            }),
        },
{
    crc::law_nothing_remains_of_a_frame(request);
    assert(crc::framed(request).take(request.len() as int) =~= request);
}

/// How each way that an activation can fail is reported: as for a command, but a
/// reply that leaves a remainder and one that reports an error are told apart
/// from those to a command.
pub proof fn law_activation_failures_are_told_apart(request: Seq<u8>, attempt: Attempt)
    requires
        transport::activation_attempt(request, attempt),
    ensures
        ({
            let header = transport::from_first(transport::stream(attempt.reply), request[0]);
            let rest = transport::stream(attempt.rest);
            let reply = header + rest;
            &&& attempt.sending.len() > 0 && attempt.sending[0] is Write
            &&& attempt.sending[0] matches IoEvent::Write { outcome: Err(error), .. }
                ==> attempt.outcome == Err::<Seq<u8>, _>(DebugProbeError::Usb(error))
            &&& attempt.sending[0] matches IoEvent::Write { outcome: Ok(_), .. } ==> {
                &&& attempt.sending.len() == 2
                &&& attempt.sending[1] matches IoEvent::Flush { outcome: Err(error) }
                    ==> attempt.outcome == Err::<Seq<u8>, _>(DebugProbeError::Usb(error))
                &&& attempt.sending[1] matches IoEvent::Flush { outcome: Ok(_) } ==> {
                    &&& header.len() < 6 ==> attempt.rest.len() == 0 && ends_early(
                        attempt.reply,
                        attempt.outcome,
                    )
                    &&& header.len() == 6 && rest.len() < header[2] + 256 * header[3]
                        ==> ends_early(attempt.rest, attempt.outcome)
                    &&& header.len() == 6 && rest.len() == header[2] + 256 * header[3]
                        ==> attempt.outcome == if crc::crc_of(reply) != 0 {
                        Err(DebugProbeError::InvalidActivateCrc)
                    } else if reply[1] != 0 {
                        Err(DebugProbeError::ActivateFailed(reply[1]))
                    } else {
                        Ok(reply)
                    }
                }
            }
        }),
{
    let header = transport::from_first(transport::stream(attempt.reply), request[0]);
    let rest = transport::stream(attempt.rest);
    crc::law_valid_packets_leave_nothing(header + rest);
    if header.len() == 6 {
        bytes::lemma_le_value_two(header.subrange(2, 4));
    }
    assert(attempt.sending.len() > 0 && attempt.sending[0] is Write);
}

/// How it is reported that `reads` ended before all bytes were there: the last
/// of them failed, or brought nothing. As long as each brings something they end
/// only with the number that 64 bits can count.
pub open spec fn ends_early(
    reads: Seq<IoEvent>,
    outcome: Result<Seq<u8>, DebugProbeError>,
) -> bool {
    &&& reads.len() > 0
    &&& reads.last() matches IoEvent::Read { outcome: read, .. }
    &&& match read {
        Err(error) => outcome == Err::<Seq<u8>, _>(
            if error.kind == IoErrorKind::Other {
                DebugProbeError::Usb(error)
            } else {
                DebugProbeError::Timeout
            },
        ),
        Ok(data) => {
            &&& outcome == Err::<Seq<u8>, _>(DebugProbeError::Timeout)
            &&& data.len() == 0 || reads.len() >= 0xffff_ffff_ffff_ffff
        },
    }
}

/// A failed read is a timeout if the stream gave nothing in time, and reported
/// as it is otherwise.
pub proof fn law_read_errors_are_told_apart(error: IoError)
    ensures
        error.kind == IoErrorKind::TimedOut || error.kind == IoErrorKind::WouldBlock
            ==> transport::read_error(error) == DebugProbeError::Timeout,
        error.kind == IoErrorKind::Other ==> transport::read_error(error) == DebugProbeError::Usb(
            error,
        ),
{
}

/// Each read asks for exactly the bytes that are still missing: of those that
/// came in so far, the ones before the first `mark` do not count. Another one
/// follows only if it brought something.
pub proof fn law_reads_ask_for_what_is_missing(
    reads: Seq<IoEvent>,
    mark: u8,
    want: nat,
    i: int,
    leading: Seq<u8>,
    got: Seq<u8>,
)
    requires
        transport::reads_for(reads, Some(mark), want),
        0 <= i < reads.len(),
        transport::stream(reads.take(i)) == leading + got,
        !leading.contains(mark),
        got.len() > 0 ==> got[0] == mark,
    ensures
        reads[i] matches IoEvent::Read { max, .. } && max + got.len() == want && max > 0,
        i + 1 < reads.len() ==> (reads[i] matches IoEvent::Read { outcome: Ok(data), .. }
            && data.len() > 0),
{
    reveal(transport::reads_for);
    let n = leading.len() as int;
    assert forall|k: int| 0 <= k < n implies (leading + got)[k] != mark by {
        assert((leading + got)[k] == leading[k]);
    }
    transport::lemma_from_first_skip(leading + got, mark, n);
    assert((leading + got).skip(n) =~= got);
    assert(got.len() > 0 ==> got[0] == mark);
}

/// Reading a number of bytes, where all count, asks for what is missing until it
/// is there. It ends early with a read that fails or brings nothing.
pub proof fn law_all_bytes_are_read(
    reads: Seq<IoEvent>,
    want: nat,
    result: Result<Seq<u8>, DebugProbeError>,
)
    requires
        transport::reads_for(reads, None, want),
        transport::reads_end(reads, None, want) == Some(result),
    ensures
        forall|i: int|
            0 <= i < reads.len() ==> (#[trigger] reads[i] matches IoEvent::Read { max, .. } && max
                + transport::stream(reads.take(i)).len() == want && max > 0),
        transport::stream(reads).len() == want ==> result == Ok::<_, DebugProbeError>(
            transport::stream(reads),
        ),
        transport::stream(reads).len() != want ==> ends_early(reads, result),
        forall|i: int|
            0 <= i < reads.len() - 1 ==> (#[trigger] reads[i] matches IoEvent::Read {
                outcome: Ok(data),
                ..
            } && data.len() > 0),
{
    reveal(transport::reads_for);
}

/// What a read brings is the beginning of the buffer that it leaves: as many
/// bytes as it tells, but no more than were asked for or are there.
pub proof fn law_read_brings_the_beginning(buffer: Seq<u8>, max: nat, count: usize)
    ensures
        transport::brought(buffer, max, Ok(count)) matches Ok(data) && {
            &&& data.len() <= count && data.len() <= max && data.len() <= buffer.len()
            &&& data.len() == count || data.len() == max || data.len() == buffer.len()
            &&& data == buffer.take(data.len() as int)
        },
{
    let data = transport::brought(buffer, max, Ok(count))->Ok_0;
    assert(data =~= buffer.take(data.len() as int));
}

/// An exchange writes, flushes, reads and drops pending input, and nothing else:
/// it never waits.
pub proof fn law_an_exchange_never_waits(exchange: Exchange, retries: nat, k: int)
    requires
        transport::exchange_ok(exchange, retries),
        0 <= k < transport::attempts_events(exchange.attempts).len(),
    ensures
        ({
            let event = transport::attempts_events(exchange.attempts)[k];
            event is Write || event is Flush || event is Read || event is Discard
        }),
{
    let attempts = exchange.attempts;
    lemma_attempts(exchange, retries, attempts.len() as int);
    assert(attempts.take(attempts.len() as int) =~= attempts);
}

/// A delay in a session is one call on the transport, and as long.
pub proof fn law_a_delay_is_one_call<T: Io>(
    before: ProbeView<T>,
    after: ProbeView<T>,
    millis: u64,
)
    requires
        session::went_on(before, after),
        session::since(before, after) == seq![Entry::Delayed { millis }],
    ensures
        after.events == before.events.push(IoEvent::Delay { millis }),
{
    reveal(session::went_on);
    reveal_with_fuel(transport::log_events, 2);
    let steps = session::since(before, after);
    assert(steps.drop_last() =~= Seq::empty());
    assert(transport::log_events(steps) =~= seq![IoEvent::Delay { millis }]);
    assert(after.events =~= before.events.push(IoEvent::Delay { millis }));
}

/// All that is written between two states of a probe are the packets of the
/// requests that the session has in between.
pub proof fn law_nothing_else_is_written<T: Io>(
    before: ProbeView<T>,
    after: ProbeView<T>,
    k: int,
)
    requires
        session::went_on(before, after),
        before.events.len() <= k < after.events.len(),
        after.events[k] is Write,
    ensures
        exists|i: int|
            {
                &&& 0 <= i < session::since(before, after).len()
                &&& (#[trigger] session::since(before, after)[i]) is Exchanged
                &&& is_packet(
                    after.events[k]->Write_data,
                    session::since(before, after)[i]->Exchanged_0.request,
                )
            },
{
    reveal(session::went_on);
    lemma_log(session::since(before, after), before.io_retries, k - before.events.len());
}

/// Every request that a session has between two states of a probe was written
/// in between.
pub proof fn law_every_request_is_written<T: Io>(
    before: ProbeView<T>,
    after: ProbeView<T>,
    i: int,
)
    requires
        session::went_on(before, after),
        0 <= i < session::since(before, after).len(),
        session::since(before, after)[i] is Exchanged,
    ensures
        exists|k: int|
            {
                &&& before.events.len() <= k < after.events.len()
                &&& (#[trigger] after.events[k]) is Write
                &&& is_packet(
                    after.events[k]->Write_data,
                    session::since(before, after)[i]->Exchanged_0.request,
                )
            },
{
    reveal(session::went_on);
    let steps = session::since(before, after);
    let k = lemma_written(steps, before.io_retries, i);
    assert(after.events[before.events.len() + k] == transport::log_events(steps)[k]);
}

/// The bytes that several reads bring are those of each, in order.
pub proof fn law_reads_bring_their_bytes_in_order(a: Seq<IoEvent>, b: Seq<IoEvent>)
    ensures
        transport::stream(a + b) == transport::stream(a) + transport::stream(b),
        a.len() == 1 ==> transport::stream(a) == match a[0] {
            IoEvent::Read { outcome: Ok(data), .. } => data,
            _ => Seq::empty(),
        },
    decreases b.len(),
{
    if b.len() == 0 {
        assert(a + b =~= a);
        assert(transport::stream(a) + transport::stream(b) =~= transport::stream(a));
    } else {
        law_reads_bring_their_bytes_in_order(a, b.drop_last());
        assert((a + b).drop_last() =~= a + b.drop_last());
        assert(transport::stream(a + b) =~= transport::stream(a) + transport::stream(b));
    }
    if a.len() == 1 {
        reveal_with_fuel(transport::stream, 2);
        assert(transport::stream(a) =~= match a[0] {
            IoEvent::Read { outcome: Ok(data), .. } => data,
            _ => Seq::empty(),
        });
    }
}

/// Reads never bring more than was asked for.
proof fn lemma_no_byte_too_many(reads: Seq<IoEvent>, mark: u8, want: nat)
    requires
        transport::reads_for(reads, Some(mark), want),
        reads.len() > 0,
    ensures
        transport::from_first(transport::stream(reads), mark).len() <= want,
{
    reveal(transport::reads_for);
    let front = reads.drop_last();
    let last = reads[reads.len() - 1];
    assert(reads.take(reads.len() - 1) =~= front);
    if let IoEvent::Read { max, outcome: Ok(data) } = last {
        transport::lemma_counted_more(transport::stream(front), data, Some(mark));
        let leading = lemma_from_first(data, mark);
    } else {
        assert(transport::stream(reads) =~= transport::stream(front));
    }
}

/// What is left out before the first `mark`.
proof fn lemma_from_first(bytes: Seq<u8>, mark: u8) -> (leading: Seq<u8>)
    ensures
        !leading.contains(mark),
        leading + transport::from_first(bytes, mark) == bytes,
        transport::from_first(bytes, mark).len() > 0 ==> transport::from_first(bytes, mark)[0]
            == mark,
    decreases bytes.len(),
{
    if bytes.len() == 0 || bytes[0] == mark {
        assert(Seq::<u8>::empty() + bytes =~= bytes);
        Seq::empty()
    } else {
        let less = lemma_from_first(bytes.skip(1), mark);
        let leading = seq![bytes[0]] + less;
        assert forall|i: int| 0 <= i < leading.len() implies leading[i] != mark by {
            if i > 0 {
                assert(less.contains(less[i - 1]));
            }
        }
        assert(leading + transport::from_first(bytes, mark) =~= seq![bytes[0]] + bytes.skip(1));
        assert(seq![bytes[0]] + bytes.skip(1) =~= bytes);
        leading
    }
}

/// Calls that write nothing add to what was heard.
proof fn lemma_heard(a: Seq<IoEvent>, b: Seq<IoEvent>)
    requires
        forall|i: int| 0 <= i < b.len() ==> !((#[trigger] b[i]) is Write),
    ensures
        heard(a + b) == heard(a) + transport::stream(b),
        packets(a + b) == packets(a),
    decreases b.len(),
{
    if b.len() == 0 {
        assert(a + b =~= a);
        assert(heard(a) + transport::stream(b) =~= heard(a));
    } else {
        let front = b.drop_last();
        assert forall|i: int| 0 <= i < front.len() implies !((#[trigger] front[i]) is Write) by {
            assert(front[i] == b[i]);
        }
        lemma_heard(a, front);
        assert((a + b).drop_last() =~= a + front);
        assert((a + b).last() == b[b.len() - 1]);
        assert(heard(a + b) =~= heard(a) + transport::stream(b));
        reveal(Seq::filter);
    }
}

/// The calls of the first `n` attempts of an exchange.
proof fn lemma_attempts(exchange: Exchange, retries: nat, n: int)
    requires
        transport::exchange_ok(exchange, retries),
        0 <= n <= exchange.attempts.len(),
    ensures
        ({
            let events = transport::attempts_events(exchange.attempts.take(n));
            let last = exchange.attempts[n - 1];
            &&& packets(events) == n
            &&& forall|k: int|
                0 <= k < events.len() && (#[trigger] events[k]) is Write ==> is_packet(
                    events[k]->Write_data,
                    exchange.request,
                )
            &&& forall|k: int|
                0 <= k < events.len() ==> (#[trigger] events[k]) is Write || events[k] is Flush
                    || events[k] is Read || events[k] is Discard
            &&& n > 0 ==> events.len() > 0 && events[0] is Write
            &&& n > 0 && last.outcome is Ok ==> heard(events) == transport::stream(last.reply)
                + transport::stream(last.rest)
            &&& n > 0 && last.outcome is Err && exchange.expects is Bytes
                ==> events.last() is Discard
        }),
    decreases n,
{
    let attempts = exchange.attempts;
    let some = attempts.take(n);
    if n == 0 {
        assert(transport::attempts_events(some) =~= Seq::empty());
        reveal(Seq::filter);
    } else {
        lemma_attempts(exchange, retries, n - 1);
        assert(some.drop_last() =~= attempts.take(n - 1));
        let last = attempts[n - 1];
        assert(some.last() == last);
        let earlier = transport::attempts_events(attempts.take(n - 1));
        let events = transport::attempts_events(some);
        match exchange.expects {
            Expects::Bytes(want) => {
                assert(transport::command_attempt(exchange.request, want, last));
            },
            Expects::Announced => {
                assert(transport::activation_attempt(exchange.request, last));
            },
        }
        lemma_attempt(exchange.request, earlier, last);
        assert(events =~= earlier + last.sending + (last.reply + last.rest + last.cleanup));
        assert forall|k: int| 0 <= k < events.len() implies {
            &&& (#[trigger] events[k]) is Write ==> is_packet(
                events[k]->Write_data,
                exchange.request,
            )
            &&& events[k] is Write || events[k] is Flush || events[k] is Read
                || events[k] is Discard
        } by {
            let at = k - earlier.len();
            let tail = last.reply + last.rest + last.cleanup;
            if at < 0 {
                assert(events[k] == earlier[k]);
            } else if at < last.sending.len() {
                assert(events[k] == last.sending[at]);
            } else {
                assert(events[k] == tail[at - last.sending.len()]);
            }
        }
        if n > 1 {
            assert(events[0] == earlier[0]);
        } else {
            assert(earlier.len() == 0);
            assert(events[0] == last.sending[0]);
        }
        if last.outcome is Ok {
            assert(heard(events) =~= transport::stream(last.reply) + transport::stream(last.rest));
        } else if exchange.expects is Bytes {
            assert(events.last() == last.cleanup[0]);
        }
    }
}

/// The calls of one attempt more.
proof fn lemma_attempt(request: Seq<u8>, earlier: Seq<IoEvent>, attempt: Attempt)
    requires
        (exists|want: nat| #[trigger] transport::command_attempt(request, want, attempt))
            || transport::activation_attempt(request, attempt),
    ensures
        ({
            let tail = attempt.reply + attempt.rest + attempt.cleanup;
            let events = earlier + attempt.sending + tail;
            &&& attempt.sending.len() > 0
            &&& attempt.sending[0] is Write
            &&& is_packet(attempt.sending[0]->Write_data, request)
            &&& forall|i: int|
                0 < i < attempt.sending.len() ==> !((#[trigger] attempt.sending[i]) is Write)
            &&& forall|i: int|
                0 < i < attempt.sending.len() ==> (#[trigger] attempt.sending[i]) is Flush
            &&& forall|i: int|
                0 <= i < tail.len() ==> (#[trigger] tail[i]) is Read || tail[i] is Discard
            &&& packets(events) == packets(earlier) + 1
            &&& attempt.cleanup.len() == 0 ==> heard(events) == transport::stream(attempt.reply)
                + transport::stream(attempt.rest)
        }),
{
    let sending = attempt.sending;
    let tail = attempt.reply + attempt.rest + attempt.cleanup;
    assert(transport::sent(request, sending) is Some);
    crc::law_nothing_remains_of_a_frame(request);
    assert(crc::framed(request).take(request.len() as int) =~= request);
    reveal(transport::reads_for);
    assert forall|i: int| 0 <= i < tail.len() implies (#[trigger] tail[i]) is Read
        || tail[i] is Discard by {
        let a = attempt.reply.len();
        let b = a + attempt.rest.len();
        if i < a {
            assert(tail[i] == attempt.reply[i]);
        } else if i < b {
            assert(tail[i] == attempt.rest[i - a]);
        } else {
            assert(tail[i] == attempt.cleanup[i - b]);
        }
    }
    let first = earlier.push(sending[0]);
    let others = sending.skip(1);
    assert(earlier + sending =~= first + others);
    assert(first.drop_last() =~= earlier);
    reveal(Seq::filter);
    assert(packets(first) == packets(earlier) + 1);
    assert(heard(first) =~= Seq::empty());
    lemma_heard(first, others);
    lemma_heard(earlier + sending, tail);
    if attempt.cleanup.len() == 0 {
        reveal_with_fuel(transport::stream, 2);
        assert(transport::stream(others) =~= Seq::empty());
        assert(tail =~= attempt.reply + attempt.rest);
        law_reads_bring_their_bytes_in_order(attempt.reply, attempt.rest);
        assert(heard(earlier + sending + tail) =~= transport::stream(attempt.reply)
            + transport::stream(attempt.rest));
    }
}

/// A write among the calls of a session belongs to one of its requests.
proof fn lemma_log(log: Seq<Entry>, retries: nat, k: int)
    requires
        transport::entries_ok(log, retries),
        0 <= k < transport::log_events(log).len(),
        transport::log_events(log)[k] is Write,
    ensures
        exists|i: int|
            {
                &&& 0 <= i < log.len()
                &&& (#[trigger] log[i]) is Exchanged
                &&& is_packet(
                    transport::log_events(log)[k]->Write_data,
                    log[i]->Exchanged_0.request,
                )
            },
    decreases log.len(),
{
    let front = log.drop_last();
    let n = transport::log_events(front).len();
    lemma_entries(log, retries);
    if k < n {
        lemma_log(front, retries, k);
        let i = choose|i: int|
            {
                &&& 0 <= i < front.len()
                &&& (#[trigger] front[i]) is Exchanged
                &&& is_packet(
                    transport::log_events(front)[k]->Write_data,
                    front[i]->Exchanged_0.request,
                )
            };
        assert(log[i] == front[i]);
    } else {
        let last = log[log.len() - 1];
        assert(transport::log_events(log)[k] == transport::entry_events(last)[k - n]);
        if let Entry::Exchanged(exchange) = last {
            law_packets_carry_their_request(exchange, retries, k - n);
        }
    }
}

/// Where the request of a step is written.
proof fn lemma_written(log: Seq<Entry>, retries: nat, i: int) -> (k: int)
    requires
        transport::entries_ok(log, retries),
        0 <= i < log.len(),
        log[i] is Exchanged,
    ensures
        0 <= k < transport::log_events(log).len(),
        transport::log_events(log)[k] is Write,
        is_packet(transport::log_events(log)[k]->Write_data, log[i]->Exchanged_0.request),
    decreases log.len(),
{
    let front = log.drop_last();
    let n = transport::log_events(front).len();
    lemma_entries(log, retries);
    if i < log.len() - 1 {
        lemma_written(front, retries, i)
    } else {
        let exchange = log[i]->Exchanged_0;
        lemma_attempts(exchange, retries, exchange.attempts.len() as int);
        assert(exchange.attempts.take(exchange.attempts.len() as int) =~= exchange.attempts);
        assert(transport::log_events(log)[n as int] == transport::entry_events(log[i])[0]);
        n as int
    }
}

proof fn lemma_entries(log: Seq<Entry>, retries: nat)
    requires
        transport::entries_ok(log, retries),
        log.len() > 0,
    ensures
        transport::entries_ok(log.drop_last(), retries),
        transport::entry_ok(log.last(), retries),
{
    reveal(transport::entries_ok);
    let front = log.drop_last();
    assert forall|j: int| 0 <= j < front.len() implies transport::entry_ok(
        #[trigger] front[j],
        retries,
    ) by {
        assert(front[j] == log[j]);
    }
    assert(log.last() == log[log.len() - 1]);
}

} // verus!
