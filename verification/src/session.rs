//! How a session with a programmer goes on.
//!
//! A contract relates two states of a probe: what is on record in the second
//! and not yet in the first is what an operation has done.

use vstd::prelude::*;

use crate::crc;
use crate::error::DebugProbeError;
use crate::protocol;
use crate::protocol::FlashState;
use crate::protocol::MAX_FLASH_READ_SIZE;
use crate::transport;
use crate::transport::Attempt;
use crate::transport::Entry;
use crate::transport::Exchange;
use crate::transport::Expects;
use crate::transport::Io;
use crate::transport::IoEvent;

verus! {

/// The speed that a probe reports before any was set, in kHz.
pub const DEFAULT_SPEED_KHZ: u32 = 960;

/// A probe as its contracts see it.
pub struct ProbeView<T> {
    pub endpoint: Seq<char>,
    pub speed_khz: u32,
    pub attached: bool,
    pub io_retries: nat,
    pub flash: FlashState,
    /// The session so far.
    pub log: Seq<Entry>,
    pub transport: T,
    /// Every call on the transport so far.
    pub events: Seq<IoEvent>,
}

/// The transport calls made between two states of a probe.
pub open spec fn events_since<T>(before: ProbeView<T>, after: ProbeView<T>) -> Seq<IoEvent> {
    after.events.skip(before.events.len() as int)
}

/// Whether only transport calls lie between two states of a probe. They lead
/// from the one transport to the other, so it is as it was if there was none.
pub open spec fn only_events<T: Io>(before: ProbeView<T>, after: ProbeView<T>) -> bool {
    let events = events_since(before, after);
    &&& before.events.len() <= after.events.len()
    &&& transport::leads(before.transport, events, after.transport)
    &&& events.len() == 0 ==> after.transport == before.transport
    &&& after == (ProbeView {
        transport: after.transport,
        events: before.events + events,
        ..before
    })
}

/// The steps of the session between two states of a probe.
pub open spec fn since<T>(before: ProbeView<T>, after: ProbeView<T>) -> Seq<Entry> {
    after.log.skip(before.log.len() as int)
}

/// Whether the session went on between two states of a probe: the steps are
/// the ones that the protocol takes, they made the transport calls, and these
/// lead from the one transport to the other.
#[verifier::opaque]
pub open spec fn went_on<T: Io>(before: ProbeView<T>, after: ProbeView<T>) -> bool {
    let steps = since(before, after);
    &&& before.log.len() <= after.log.len()
    &&& after.log == before.log + steps
    &&& after.events == before.events + transport::log_events(steps)
    &&& transport::leads(before.transport, transport::log_events(steps), after.transport)
    &&& transport::log_events(steps).len() == 0 ==> after.transport == before.transport
    &&& after.io_retries == before.io_retries
    &&& transport::entries_ok(steps, before.io_retries)
}

/// Whether nothing but the session changed between two states of a probe.
pub open spec fn only_session<T: Io>(before: ProbeView<T>, after: ProbeView<T>) -> bool {
    &&& went_on(before, after)
    &&& after == (ProbeView {
        log: after.log,
        transport: after.transport,
        events: after.events,
        ..before
    })
}

/// The reply or error of a result.
pub open spec fn outcome_view(result: Result<Vec<u8>, DebugProbeError>) -> Result<
    Seq<u8>,
    DebugProbeError,
> {
    match result {
        Ok(reply) => Ok(reply@),
        Err(error) => Err(error),
    }
}

/// A probe on a transport that nothing has been exchanged over yet.
pub open spec fn fresh<T>(
    endpoint: Seq<char>,
    attached: bool,
    io_retries: nat,
    transport: T,
    events: Seq<IoEvent>,
) -> ProbeView<T> {
    ProbeView {
        endpoint,
        speed_khz: DEFAULT_SPEED_KHZ,
        attached,
        io_retries,
        flash: FlashState { erased: false, ranges: Seq::empty() },
        log: Seq::empty(),
        transport,
        events,
    }
}

/// What a session leaves behind stays: its steps and the calls on the transport
/// are added to those before, and whatever else an operation changes is one
/// thing at most, be it the speed or what is known of the flash.
pub proof fn law_a_session_only_adds<T: Io>(before: ProbeView<T>, after: ProbeView<T>)
    ensures
        went_on(before, after) ==> {
            &&& before.log.len() <= after.log.len()
            &&& after.log.take(before.log.len() as int) == before.log
            &&& before.events.len() <= after.events.len()
            &&& after.events.take(before.events.len() as int) == before.events
            &&& after.io_retries == before.io_retries
        },
        only_session(before, after) ==> {
            &&& went_on(before, after)
            &&& after.endpoint == before.endpoint
            &&& after.speed_khz == before.speed_khz
            &&& after.attached == before.attached
            &&& after.flash == before.flash
        },
        only_events(before, after) ==> {
            &&& after.events.take(before.events.len() as int) == before.events
            &&& after.log == before.log
            &&& after.endpoint == before.endpoint
            &&& after.speed_khz == before.speed_khz
            &&& after.attached == before.attached
            &&& after.flash == before.flash
            &&& after.io_retries == before.io_retries
        },
        forall|flash: FlashState| #[trigger]
            only_flash(before, after, flash) ==> {
                &&& after.flash == flash
                &&& after.endpoint == before.endpoint
                &&& after.speed_khz == before.speed_khz
                &&& after.attached == before.attached
                &&& after.io_retries == before.io_retries
            },
        forall|speed_khz: int| #[trigger]
            only_speed(before, after, speed_khz) ==> {
                &&& after.speed_khz == speed_khz
                &&& after.endpoint == before.endpoint
                &&& after.attached == before.attached
                &&& after.flash == before.flash
                &&& after.io_retries == before.io_retries
            },
{
    reveal(went_on);
    if went_on(before, after) {
        assert(after.log.take(before.log.len() as int) =~= before.log);
        assert(after.events.take(before.events.len() as int) =~= before.events);
    }
    if only_events(before, after) {
        assert(after.events.take(before.events.len() as int) =~= before.events);
    }
}

/// A probe starts with 960 kHz, nothing exchanged, and nothing assumed to be
/// erased anywhere.
pub proof fn law_fresh_probe_assumes_nothing<T>(
    endpoint: Seq<char>,
    attached: bool,
    io_retries: nat,
    transport: T,
    events: Seq<IoEvent>,
    address: u32,
    len: nat,
)
    ensures
        ({
            let probe = fresh(endpoint, attached, io_retries, transport, events);
            &&& probe.endpoint == endpoint
            &&& probe.speed_khz == 960
            &&& probe.attached == attached
            &&& probe.io_retries == io_retries
            &&& probe.log.len() == 0
            &&& probe.transport == transport
            &&& probe.events == events
            &&& !protocol::assumes_erased(probe.flash, address, len)
        }),
{
}

/// Whether nothing but the session and what is known of the flash changed, and
/// the latter is `flash` now.
pub open spec fn only_flash<T>(
    before: ProbeView<T>,
    after: ProbeView<T>,
    flash: FlashState,
) -> bool {
    after == (ProbeView {
        log: after.log,
        transport: after.transport,
        events: after.events,
        flash,
        ..before
    })
}

/// Whether nothing but the session and the speed changed, and the latter is
/// `speed_khz` now.
pub open spec fn only_speed<T>(before: ProbeView<T>, after: ProbeView<T>, speed_khz: int) -> bool {
    &&& after.speed_khz == speed_khz
    &&& after == (ProbeView {
        log: after.log,
        transport: after.transport,
        events: after.events,
        speed_khz: after.speed_khz,
        ..before
    })
}

/// `data` filled by the flash reads `t`: all of it, or, after a failure, the
/// part before the read that failed.
pub open spec fn filled(
    data: Seq<u8>,
    t: Seq<Entry>,
    result: Result<(), DebugProbeError>,
) -> Seq<u8> {
    Seq::new(
        data.len(),
        |j: int|
            if result is Ok || j < MAX_FLASH_READ_SIZE * (t.len() - 1) {
                protocol::byte_read(t, j)
            } else {
                data[j]
            },
    )
}

/// Filling `before` by one read `command` at `address`: all of it on success,
/// nothing on failure.
pub open spec fn fills(
    command: u8,
    address: u32,
    t: Seq<Entry>,
    before: Seq<u8>,
    result: Result<(), DebugProbeError>,
    after: Seq<u8>,
) -> bool {
    let len = before.len();
    &&& t.len() == 1
    &&& transport::is_command(
        t[0],
        protocol::read_request(command, address as nat, len),
        len + 6,
    )
    &&& match transport::reply_of(t[0]) {
        Err(error) => result == Err::<(), _>(error) && after == before,
        Ok(reply) => {
            &&& result is Ok
            &&& reply.len() == len + 6
            &&& after == reply.subrange(4, 4 + len as int)
        },
    }
}

/// How many of the calls of one attempt send the request.
pub open spec fn sending_len(events: Seq<IoEvent>) -> int {
    if events.len() < 2 {
        events.len() as int
    } else {
        2
    }
}

/// What holds of every reply of `want` bytes that is accepted for `request`.
pub open spec fn accepted(request: Seq<u8>, want: nat, reply: Seq<u8>) -> bool {
    &&& reply.len() == want
    &&& crc::is_framed(reply)
    &&& reply[0] == request[0]
    &&& reply[1] == 0
}

/// The attempt that made the calls `events` and `cleanup`.
pub open spec fn attempt_of(
    events: Seq<IoEvent>,
    cleanup: Seq<IoEvent>,
    outcome: Result<Seq<u8>, DebugProbeError>,
) -> Attempt {
    Attempt {
        sending: events.take(sending_len(events)),
        reply: events.skip(sending_len(events)),
        rest: Seq::empty(),
        cleanup,
        outcome,
    }
}

pub proof fn lemma_attempt(
    done: Seq<Attempt>,
    events: Seq<IoEvent>,
    cleanup: Seq<IoEvent>,
    outcome: Result<Seq<u8>, DebugProbeError>,
)
    ensures
        transport::attempts_events(done.push(attempt_of(events, cleanup, outcome)))
            == transport::attempts_events(done) + events + cleanup,
{
    let attempt = attempt_of(events, cleanup, outcome);
    assert(done.push(attempt).drop_last() =~= done);
    assert(transport::attempt_events(attempt) =~= events + cleanup);
    assert(transport::attempts_events(done) + (events + cleanup) =~= transport::attempts_events(
        done,
    ) + events + cleanup);
}

/// A session that goes on by one step.
pub proof fn lemma_one_step<T: Io>(before: ProbeView<T>, after: ProbeView<T>, entry: Entry)
    requires
        transport::entry_ok(entry, before.io_retries),
        transport::leads(before.transport, transport::entry_events(entry), after.transport),
        transport::entry_events(entry).len() == 0 ==> after.transport == before.transport,
        after == (ProbeView {
            log: before.log.push(entry),
            transport: after.transport,
            events: before.events + transport::entry_events(entry),
            ..before
        }),
    ensures
        only_session(before, after),
        since(before, after) == seq![entry],
{
    assert(since(before, after) =~= seq![entry]);
    assert(after.log =~= before.log + seq![entry]);
    reveal(went_on);
    reveal(transport::entries_ok);
    reveal_with_fuel(transport::log_events, 2);
    assert(transport::log_events(seq![entry]) =~= transport::entry_events(entry));
}

/// The session once an activation that took these calls has been put into it.
pub proof fn lemma_activation<T: Io>(
    first: ProbeView<T>,
    last: ProbeView<T>,
    request: Seq<u8>,
    sending: Seq<IoEvent>,
    reply: Seq<IoEvent>,
    rest: Seq<IoEvent>,
    outcome: Result<Seq<u8>, DebugProbeError>,
) -> (log: Seq<Entry>)
    requires
        only_events(first, last),
        events_since(first, last) == sending + reply + rest,
        transport::activation_answer(request, sending, reply, rest) == Some(outcome),
    ensures
        ({
            let after = ProbeView { log, ..last };
            let steps = since(first, after);
            &&& only_session(first, after)
            &&& steps.len() == 1
            &&& transport::is_activation(steps[0], request)
            &&& transport::reply_of(steps[0]) == outcome
        }),
{
    let attempt = Attempt { sending, reply, rest, cleanup: Seq::empty(), outcome };
    let exchange = Exchange { request, expects: Expects::Announced, attempts: seq![attempt] };
    let entry = Entry::Exchanged(exchange);
    reveal_with_fuel(transport::attempts_events, 2);
    assert(seq![attempt].drop_last() =~= Seq::empty());
    assert(transport::entry_events(entry) =~= sending + reply + rest);
    let log = first.log.push(entry);
    lemma_one_step(first, ProbeView { log, ..last }, entry);
    log
}

/// A session that goes on twice goes on by the steps of both.
pub proof fn lemma_went_on<T: Io>(first: ProbeView<T>, middle: ProbeView<T>, last: ProbeView<T>)
    requires
        went_on(first, middle),
        went_on(middle, last),
    ensures
        went_on(first, last),
        since(first, last) == since(first, middle) + since(middle, last),
{
    reveal(went_on);
    let a = since(first, middle);
    let b = since(middle, last);
    lemma_concat(first.log, a, b);
    lemma_concat(first.events, transport::log_events(a), transport::log_events(b));
    transport::lemma_log_events_concat(a, b);
    transport::lemma_entries_ok_concat(a, b, first.io_retries);
    transport::lemma_leads(
        first.transport,
        transport::log_events(a),
        middle.transport,
        transport::log_events(b),
        last.transport,
    );
}

pub proof fn lemma_concat<A>(x: Seq<A>, a: Seq<A>, b: Seq<A>)
    ensures
        x + a + b == x + (a + b),
        (x + (a + b)).skip(x.len() as int) == a + b,
{
    assert(x + a + b =~= x + (a + b));
    assert((x + (a + b)).skip(x.len() as int) =~= a + b);
}

/// Whatever else changes, the session has gone on as it had.
pub proof fn lemma_same_session<T: Io>(
    first: ProbeView<T>,
    middle: ProbeView<T>,
    last: ProbeView<T>,
)
    requires
        went_on(first, middle),
        last.log == middle.log,
        last.transport == middle.transport,
        last.events == middle.events,
        last.io_retries == middle.io_retries,
    ensures
        went_on(first, last),
        since(first, last) == since(first, middle),
{
    reveal(went_on);
}

/// A session that has not gone on.
pub proof fn lemma_stayed<T: Io>(first: ProbeView<T>, last: ProbeView<T>)
    requires
        first.log == last.log,
        first.transport == last.transport,
        first.events == last.events,
        first.io_retries == last.io_retries,
    ensures
        went_on(first, last),
        since(first, last) == Seq::<Entry>::empty(),
{
    reveal(went_on);
    reveal(transport::entries_ok);
    assert(since(first, last) =~= Seq::empty());
    assert(last.log =~= first.log + Seq::<Entry>::empty());
    assert(last.events =~= first.events + Seq::<IoEvent>::empty());
    transport::lemma_leads_nowhere(first.transport);
}

/// No call at all.
pub proof fn lemma_no_event<T: Io>(probe: ProbeView<T>)
    ensures
        only_events(probe, probe),
        events_since(probe, probe) == Seq::<IoEvent>::empty(),
{
    assert(events_since(probe, probe) =~= Seq::empty());
    assert(probe.events + Seq::<IoEvent>::empty() =~= probe.events);
    transport::lemma_leads_nowhere(probe.transport);
}

/// One more call.
pub proof fn lemma_one_event<T: Io>(before: ProbeView<T>, after: ProbeView<T>)
    requires
        after.events == before.events.push(after.events.last()),
        transport::moves(before.transport, after.events.last(), after.transport),
        after == (ProbeView { transport: after.transport, events: after.events, ..before }),
    ensures
        only_events(before, after),
        events_since(before, after) == seq![after.events.last()],
{
    assert(events_since(before, after) =~= seq![after.events.last()]);
    assert(after.events =~= before.events + seq![after.events.last()]);
    transport::lemma_leads_one(before.transport, after.events.last(), after.transport);
}

pub proof fn lemma_only_events<T: Io>(first: ProbeView<T>, middle: ProbeView<T>, last: ProbeView<T>)
    requires
        only_events(first, middle),
        only_events(middle, last),
    ensures
        only_events(first, last),
        events_since(first, last) == events_since(first, middle) + events_since(middle, last),
{
    let a = events_since(first, middle);
    let b = events_since(middle, last);
    assert(last.events =~= first.events + (a + b));
    assert(events_since(first, last) =~= a + b);
    transport::lemma_leads(first.transport, a, middle.transport, b, last.transport);
}

} // verus!
