//! The byte transport to a programmer, and what passes over it.

use vstd::prelude::*;

use crate::bytes;
use crate::crc;
use crate::error::DebugProbeError;
use crate::error::IoError;
use crate::error::IoErrorKind;
use crate::error::ProbeCreationError;

verus! {

/// A byte transport to a programmer.
///
/// Nothing is taken for granted about an implementation: what a call hands
/// back may be any value of its type.
pub trait Io: Sized {
    /// Whether the call `event` may take the transport from `before` to `after`.
    /// What that means is up to the implementation; one that does not say
    /// promises nothing.
    open spec fn takes(before: Self, event: IoEvent, after: Self) -> bool {
        true
    }

    /// Reads some bytes into `buf` and tells how many; none means that the
    /// stream gave nothing in time.
    fn read(&mut self, buf: &mut [u8]) -> (count: Result<usize, IoError>)
        ensures
            Self::takes(
                *old(self),
                IoEvent::Read {
                    max: old(buf)@.len(),
                    outcome: brought(final(buf)@, old(buf)@.len(), count),
                },
                *final(self),
            ),
    ;

    /// Writes all of `data`.
    fn write_all(&mut self, data: &[u8]) -> (outcome: Result<(), IoError>)
        ensures
            Self::takes(*old(self), IoEvent::Write { data: data@, outcome }, *final(self)),
    ;

    /// Pushes out what was written.
    fn flush(&mut self) -> (outcome: Result<(), IoError>)
        ensures
            Self::takes(*old(self), IoEvent::Flush { outcome }, *final(self)),
    ;

    /// Lets a freshly opened transport come to rest. A transport that does not
    /// say how has nothing to do for that.
    fn settle_after_open(&mut self) -> (outcome: Result<(), IoError>)
        ensures
            Self::takes(*old(self), IoEvent::Settle { outcome }, *final(self)) || (outcome is Ok
                && *final(self) == *old(self)),
        default_ensures
            outcome is Ok,
            *final(self) == *old(self),
    {
        Ok(())
    }

    /// Drops what was received and not read yet, and tells how many bytes. A
    /// transport that does not say how drops nothing.
    fn discard_pending_input(&mut self) -> (outcome: Result<usize, IoError>)
        ensures
            Self::takes(*old(self), IoEvent::Discard { outcome }, *final(self)) || (outcome == Ok::<
                usize,
                IoError,
            >(0) && *final(self) == *old(self)),
        default_ensures
            outcome == Ok::<usize, IoError>(0),
            *final(self) == *old(self),
    {
        Ok(0)
    }

    /// Waits for `millis` milliseconds.
    fn delay_ms(&mut self, millis: u64)
        ensures
            Self::takes(*old(self), IoEvent::Delay { millis }, *final(self)),
    ;
}

/// One call on the transport and how it ended.
#[allow(inconsistent_fields)]
pub enum IoEvent {
    Write { data: Seq<u8>, outcome: Result<(), IoError> },
    Flush { outcome: Result<(), IoError> },
    Read { max: nat, outcome: Result<Seq<u8>, IoError> },
    Discard { outcome: Result<usize, IoError> },
    Settle { outcome: Result<(), IoError> },
    Delay { millis: u64 },
}

/// The first `n` bytes, or all if there are fewer.
pub open spec fn first(bytes: Seq<u8>, n: nat) -> Seq<u8> {
    if n < bytes.len() {
        bytes.take(n as int)
    } else {
        bytes
    }
}

/// What a read for at most `max` bytes brought, where it left `buffer` behind
/// and ended in `count`.
pub open spec fn brought(buffer: Seq<u8>, max: nat, count: Result<usize, IoError>) -> Result<
    Seq<u8>,
    IoError,
> {
    match count {
        Ok(read) => Ok(first(first(buffer, max), read as nat)),
        Err(error) => Err(error),
    }
}

/// Whether the call `event` takes a transport from `before` to `after`. Coming
/// to rest and dropping pending input may also be nothing at all.
pub open spec fn moves<T: Io>(before: T, event: IoEvent, after: T) -> bool {
    ||| T::takes(before, event, after)
    ||| event matches IoEvent::Settle { outcome } && outcome is Ok && after == before
    ||| event matches IoEvent::Discard { outcome } && outcome == Ok::<usize, IoError>(0) && after
        == before
}

/// Whether the calls `events` take a transport through `states`.
pub open spec fn passes<T: Io>(states: Seq<T>, events: Seq<IoEvent>) -> bool {
    &&& states.len() == events.len() + 1
    &&& forall|i: int|
        0 <= i < events.len() ==> moves(states[i], #[trigger] events[i], states[i + 1])
}

/// Whether the calls `events`, and nothing besides, lead from `before` to
/// `after`.
#[verifier::opaque]
pub open spec fn leads<T: Io>(before: T, events: Seq<IoEvent>, after: T) -> bool {
    exists|states: Seq<T>| #[trigger]
        passes(states, events) && states[0] == before && states.last() == after
}

/// No call leads nowhere.
pub proof fn lemma_leads_nowhere<T: Io>(io: T)
    ensures
        leads(io, Seq::empty(), io),
{
    reveal(leads);
    assert(passes(seq![io], Seq::empty()));
}

/// One call leads where it takes the transport.
pub proof fn lemma_leads_one<T: Io>(before: T, event: IoEvent, after: T)
    requires
        moves(before, event, after),
    ensures
        leads(before, seq![event], after),
{
    reveal(leads);
    assert(passes(seq![before, after], seq![event]));
}

/// Calls that lead on from where others led to.
pub proof fn lemma_leads<T: Io>(
    start: T,
    a: Seq<IoEvent>,
    middle: T,
    b: Seq<IoEvent>,
    end: T,
)
    requires
        leads(start, a, middle),
        leads(middle, b, end),
    ensures
        leads(start, a + b, end),
{
    reveal(leads);
    let p = choose|states: Seq<T>| #[trigger]
        passes(states, a) && states[0] == start && states.last() == middle;
    let q = choose|states: Seq<T>| #[trigger]
        passes(states, b) && states[0] == middle && states.last() == end;
    let r = p + q.skip(1);
    assert forall|i: int| 0 <= i < (a + b).len() implies moves(
        r[i],
        #[trigger] (a + b)[i],
        r[i + 1],
    ) by {
        if i < a.len() {
            assert(moves(p[i], a[i], p[i + 1]));
        } else {
            let j = i - a.len();
            assert(moves(q[j], b[j], q[j + 1]));
            assert(r[i + 1] == q[j + 1]);
            assert(r[i] == q[j]);
        }
    }
    assert(passes(r, a + b));
}

/// What every call on a transport keeps, any number of calls keeps.
pub proof fn law_calls_keep_what_each_keeps<T: Io>(
    before: T,
    events: Seq<IoEvent>,
    after: T,
    kept: spec_fn(T) -> bool,
)
    requires
        leads(before, events, after),
        kept(before),
        forall|a: T, event: IoEvent, b: T| kept(a) && #[trigger] moves(a, event, b) ==> kept(b),
    ensures
        kept(after),
{
    reveal(leads);
    let states = choose|states: Seq<T>| #[trigger]
        passes(states, events) && states[0] == before && states.last() == after;
    lemma_kept(states, events, kept, 0);
}

/// What one of several calls brings about and every call keeps, holds after all
/// of them.
pub proof fn law_what_a_call_brings_about_lasts<T: Io>(
    before: T,
    events: Seq<IoEvent>,
    after: T,
    kept: spec_fn(T) -> bool,
    i: int,
)
    requires
        leads(before, events, after),
        0 <= i < events.len(),
        forall|a: T, b: T| #[trigger] moves(a, events[i], b) ==> kept(b),
        forall|a: T, event: IoEvent, b: T| kept(a) && #[trigger] moves(a, event, b) ==> kept(b),
    ensures
        kept(after),
{
    reveal(leads);
    let states = choose|states: Seq<T>| #[trigger]
        passes(states, events) && states[0] == before && states.last() == after;
    assert(moves(states[i], events[i], states[i + 1]));
    lemma_kept(states, events, kept, i + 1);
}

proof fn lemma_kept<T: Io>(
    states: Seq<T>,
    events: Seq<IoEvent>,
    kept: spec_fn(T) -> bool,
    from: int,
)
    requires
        passes(states, events),
        0 <= from < states.len(),
        kept(states[from]),
        forall|a: T, event: IoEvent, b: T| kept(a) && #[trigger] moves(a, event, b) ==> kept(b),
    ensures
        kept(states.last()),
    decreases states.len() - from,
{
    if from + 1 < states.len() {
        assert(moves(states[from], events[from], states[from + 1]));
        lemma_kept(states, events, kept, from + 1);
    }
}

/// Where a programmer is reached.
#[derive(Debug, PartialEq, Eq)]
pub enum Endpoint {
    /// A TCP address.
    Tcp(String),
    /// A serial port.
    Serial(String),
}

/// The rate of a serial endpoint, in baud.
pub const DEFAULT_UART_BAUD: u32 = 230_400;

/// How long a transport waits for bytes, in milliseconds.
pub const DEFAULT_IO_TIMEOUT_MS: u64 = 2000;

/// How long a transport rests after it was opened, in milliseconds.
pub const TRANSPORT_OPEN_SETTLE_MS: u64 = 200;

/// Whether `name` is the name of a TCP endpoint.
pub open spec fn names_tcp(name: Seq<char>) -> bool {
    name.len() >= 6 && name.take(6) == "tcp://"@
}

/// Whether `name` is the name of `endpoint`.
pub open spec fn names(endpoint: Endpoint, name: Seq<char>) -> bool {
    match endpoint {
        Endpoint::Tcp(address) => names_tcp(name) && name == "tcp://"@ + address@,
        Endpoint::Serial(port) => !names_tcp(name) && port@ == name,
    }
}

/// Tells a TCP endpoint, `tcp://` and an address, from a serial port.
pub fn parse_endpoint(name: &str) -> (endpoint: Endpoint)
    ensures
        names(endpoint, name@),
{
    let len: usize = name.unicode_len();
    proof {
        reveal_strlit("tcp://");
    }
    if len >= 6 && name.get_char(0) == 't' && name.get_char(1) == 'c' && name.get_char(2) == 'p'
        && name.get_char(3) == ':' && name.get_char(4) == '/' && name.get_char(5) == '/' {
        let address = name.substring_char(6, len);
        assert(name@.take(6) =~= "tcp://"@);
        assert(name@ =~= "tcp://"@ + address@);
        Endpoint::Tcp(address.to_string())
    } else {
        proof {
            if names_tcp(name@) {
                assert forall|i: int| 0 <= i < 6 implies #[trigger] name@[i] == "tcp://"@[i] by {
                    assert(name@.take(6)[i] == name@[i]);
                }
                assert(false);
            }
        }
        Endpoint::Serial(name.to_string())
    }
}

/// A name is that of a TCP endpoint exactly if it begins with `tcp://`, and its
/// address is all that follows; any other name is that of a serial port, as it
/// is.
pub proof fn law_endpoints_are_told_by_their_beginning(endpoint: Endpoint, name: Seq<char>)
    requires
        names(endpoint, name),
    ensures
        endpoint is Tcp <==> name.len() >= 6 && name[0] == 't' && name[1] == 'c' && name[2] == 'p'
            && name[3] == ':' && name[4] == '/' && name[5] == '/',
        endpoint matches Endpoint::Tcp(address) ==> address@ == name.skip(6),
        endpoint matches Endpoint::Serial(port) ==> port@ == name,
{
    reveal_strlit("tcp://");
    if let Endpoint::Tcp(address) = endpoint {
        assert(address@ =~= name.skip(6));
    } else if name.len() >= 6 && name[0] == 't' && name[1] == 'c' && name[2] == 'p' && name[3]
        == ':' && name[4] == '/' && name[5] == '/' {
        assert(name.take(6) =~= "tcp://"@);
    }
}

/// How it is reported that an endpoint could not be connected to.
pub fn connect_error(endpoint: &Endpoint, error: IoError) -> (reported: DebugProbeError)
    ensures
        reported == match *endpoint {
            Endpoint::Tcp(_) => DebugProbeError::Usb(error),
            Endpoint::Serial(_) => DebugProbeError::ProbeCouldNotBeCreated(
                ProbeCreationError::CouldNotOpen,
            ),
        },
{
    match endpoint {
        Endpoint::Tcp(_) => DebugProbeError::Usb(error),
        Endpoint::Serial(_) => DebugProbeError::ProbeCouldNotBeCreated(
            ProbeCreationError::CouldNotOpen,
        ),
    }
}

/// How far dropping pending input has come.
#[derive(Clone, Copy, Debug, PartialEq, Eq, Structural)]
pub enum Drain {
    /// There may be more.
    More { discarded: usize },
    /// Nothing is left.
    Done { discarded: usize },
    /// The transport failed.
    Failed(IoError),
}

/// Goes on dropping pending input of a stream that does not block, where
/// `discarded` bytes have been dropped and the next read ended in `outcome`.
pub fn drain(discarded: usize, outcome: Result<usize, IoError>) -> (next: Drain)
    requires
        outcome matches Ok(len) ==> discarded + len <= usize::MAX,
    ensures
        next == match outcome {
            Ok(len) => if len == 0 {
                Drain::Done { discarded }
            } else {
                Drain::More { discarded: (discarded + len) as usize }
            },
            Err(error) => if error.kind is WouldBlock {
                Drain::Done { discarded }
            } else {
                Drain::Failed(error)
            },
        },
{
    match outcome {
        Ok(len) => if len == 0 {
            Drain::Done { discarded }
        } else {
            Drain::More { discarded: discarded + len }
        },
        Err(error) => match error.kind {
            IoErrorKind::WouldBlock => Drain::Done { discarded },
            _ => Drain::Failed(error),
        },
    }
}

/// How a failed read is reported: a stream that gave nothing in time is a
/// timeout.
pub open spec fn read_error(error: IoError) -> DebugProbeError {
    match error.kind {
        IoErrorKind::TimedOut | IoErrorKind::WouldBlock => DebugProbeError::Timeout,
        IoErrorKind::Other => DebugProbeError::Usb(error),
    }
}

/// All bytes that `reads` brought in.
pub open spec fn stream(reads: Seq<IoEvent>) -> Seq<u8>
    decreases reads.len(),
{
    if reads.len() == 0 {
        Seq::empty()
    } else {
        stream(reads.drop_last()) + match reads.last() {
            IoEvent::Read { outcome: Ok(data), .. } => data,
            _ => Seq::empty(),
        }
    }
}

/// `bytes` from the first `mark` on; nothing without one.
pub open spec fn from_first(bytes: Seq<u8>, mark: u8) -> Seq<u8>
    decreases bytes.len(),
{
    if bytes.len() == 0 {
        Seq::empty()
    } else if bytes[0] == mark {
        bytes
    } else {
        from_first(bytes.skip(1), mark)
    }
}

/// The part of `bytes` that counts: all of it, or what starts with the first
/// occurrence of the byte to wait for.
pub open spec fn counted(bytes: Seq<u8>, start: Option<u8>) -> Seq<u8> {
    match start {
        Some(mark) => from_first(bytes, mark),
        None => bytes,
    }
}

/// After so many reads that left a reply incomplete it is given up.
pub const READ_LIMIT: u64 = u64::MAX;

/// Whether `reads` are the reads for `want` bytes: each asks for exactly what
/// is still missing, and goes on only where the one before brought something.
#[verifier::opaque]
pub open spec fn reads_for(reads: Seq<IoEvent>, start: Option<u8>, want: nat) -> bool {
    forall|i: int| #![trigger reads[i]]
        0 <= i < reads.len() ==> {
            let missing = want - counted(stream(reads.take(i)), start).len();
            match reads[i] {
                IoEvent::Read { max, outcome } => {
                    &&& max == missing
                    &&& missing > 0
                    &&& outcome matches Ok(data) ==> data.len() <= max
                    &&& i + 1 < reads.len() ==> brought_bytes(outcome)
                },
                _ => false,
            }
        }
}

/// Whether a read brought at least one byte.
pub open spec fn brought_bytes(outcome: Result<Seq<u8>, IoError>) -> bool {
    outcome matches Ok(data) && data.len() > 0
}

/// What `reads` for `want` bytes end in, or nothing if they have to go on.
pub open spec fn reads_end(reads: Seq<IoEvent>, start: Option<u8>, want: nat) -> Option<
    Result<Seq<u8>, DebugProbeError>,
> {
    let got = counted(stream(reads), start);
    if got.len() == want {
        Some(Ok(got))
    } else if reads.len() == 0 {
        None
    } else {
        match reads.last() {
            IoEvent::Read { outcome: Err(error), .. } => Some(Err(read_error(error))),
            IoEvent::Read { outcome: Ok(data), .. } => if data.len() == 0 || reads.len()
                >= READ_LIMIT {
                Some(Err(DebugProbeError::Timeout))
            } else {
                None
            },
            _ => None,
        }
    }
}

/// How sending `request` in a frame ended, or nothing where `events` are not
/// the calls that send it.
pub open spec fn sent(request: Seq<u8>, events: Seq<IoEvent>) -> Option<
    Result<(), DebugProbeError>,
> {
    if events.len() == 1 {
        match events[0] {
            IoEvent::Write { data, outcome: Err(error) } => if data == crc::framed(request) {
                Some(Err(DebugProbeError::Usb(error)))
            } else {
                None
            },
            _ => None,
        }
    } else if events.len() == 2 {
        match (events[0], events[1]) {
            (
                IoEvent::Write { data, outcome: Ok(_) },
                IoEvent::Flush { outcome },
            ) => if data == crc::framed(request) {
                match outcome {
                    Err(error) => Some(Err(DebugProbeError::Usb(error))),
                    Ok(_) => Some(Ok(())),
                }
            } else {
                None
            },
            _ => None,
        }
    } else {
        None
    }
}

/// What came of one attempt to have a request answered, and the calls it took.
pub struct Attempt {
    /// Write and flush.
    pub sending: Seq<IoEvent>,
    /// Reads for the reply, or for its header where the length is announced.
    pub reply: Seq<IoEvent>,
    /// Reads for the announced rest.
    pub rest: Seq<IoEvent>,
    /// What was done after a failure.
    pub cleanup: Seq<IoEvent>,
    pub outcome: Result<Seq<u8>, DebugProbeError>,
}

/// How the end of a reply is found.
pub enum Expects {
    /// The reply has this many bytes.
    Bytes(nat),
    /// The reply is a header that announces the length of the rest.
    Announced,
}

/// A request and the attempts to have it answered.
pub struct Exchange {
    pub request: Seq<u8>,
    pub expects: Expects,
    pub attempts: Seq<Attempt>,
}

/// One step of a session with a programmer.
pub enum Entry {
    Exchanged(Exchange),
    Delayed { millis: u64 },
}

/// Which complete replies to `request` are accepted, and how others are
/// reported.
pub open spec fn judged(request: Seq<u8>, reply: Seq<u8>) -> Result<Seq<u8>, DebugProbeError> {
    if !crc::is_framed(reply) {
        Err(DebugProbeError::InvalidCrc)
    } else if reply[0] != request[0] {
        Err(DebugProbeError::UnexpectedCommand)
    } else if reply[1] != 0 {
        Err(DebugProbeError::Programmer(reply[1]))
    } else {
        Ok(reply)
    }
}

/// The length that the header of a reply announces, or the count that it
/// reports.
pub open spec fn count_of(reply: Seq<u8>) -> nat {
    bytes::le_value(reply.subrange(2, 4))
}

/// The length of a reply's header.
pub const HEADER_LEN: usize = 6;

/// Which complete replies to an activation are accepted.
pub open spec fn judged_activation(reply: Seq<u8>) -> Result<Seq<u8>, DebugProbeError> {
    if !crc::is_framed(reply) {
        Err(DebugProbeError::InvalidActivateCrc)
    } else if reply[1] != 0 {
        Err(DebugProbeError::ActivateFailed(reply[1]))
    } else {
        Ok(reply)
    }
}

/// What comes of sending `request` and reading a reply of `want` bytes, or
/// nothing where `sending` and `reply` are not the calls for that.
pub open spec fn command_answer(
    request: Seq<u8>,
    want: nat,
    sending: Seq<IoEvent>,
    reply: Seq<IoEvent>,
) -> Option<Result<Seq<u8>, DebugProbeError>> {
    let start = Some(request[0]);
    match sent(request, sending) {
        None => None,
        Some(Err(error)) => if reply.len() == 0 {
            Some(Err(error))
        } else {
            None
        },
        Some(Ok(_)) => if reads_for(reply, start, want) {
            match reads_end(reply, start, want) {
                None => None,
                Some(Err(error)) => Some(Err(error)),
                Some(Ok(complete)) => Some(judged(request, complete)),
            }
        } else {
            None
        },
    }
}

/// Whether `attempt` is one attempt to have `request` answered by `want`
/// bytes. A failed one drops pending input at its end.
pub open spec fn command_attempt(request: Seq<u8>, want: nat, attempt: Attempt) -> bool {
    &&& attempt.rest.len() == 0
    &&& if attempt.outcome is Ok {
        attempt.cleanup.len() == 0
    } else {
        attempt.cleanup.len() == 1 && attempt.cleanup[0] is Discard
    }
    &&& command_answer(request, want, attempt.sending, attempt.reply) == Some(attempt.outcome)
}

/// What comes of reading the bytes that `header` announces, or nothing where
/// `rest` are not the reads for that.
pub open spec fn announced_answer(header: Seq<u8>, rest: Seq<IoEvent>) -> Option<
    Result<Seq<u8>, DebugProbeError>,
> {
    if reads_for(rest, None, count_of(header)) {
        match reads_end(rest, None, count_of(header)) {
            None => None,
            Some(Err(error)) => Some(Err(error)),
            Some(Ok(complete)) => Some(judged_activation(header + complete)),
        }
    } else {
        None
    }
}

/// What comes of sending the activation `request` and reading a header and the
/// bytes it announces, or nothing where these are not the calls for that.
pub open spec fn activation_answer(
    request: Seq<u8>,
    sending: Seq<IoEvent>,
    reply: Seq<IoEvent>,
    rest: Seq<IoEvent>,
) -> Option<Result<Seq<u8>, DebugProbeError>> {
    let start = Some(request[0]);
    let header_len = HEADER_LEN as nat;
    match sent(request, sending) {
        None => None,
        Some(Err(error)) => if reply.len() == 0 && rest.len() == 0 {
            Some(Err(error))
        } else {
            None
        },
        Some(Ok(_)) => if reads_for(reply, start, header_len) {
            match reads_end(reply, start, header_len) {
                None => None,
                Some(Err(error)) => if rest.len() == 0 {
                    Some(Err(error))
                } else {
                    None
                },
                Some(Ok(header)) => announced_answer(header, rest),
            }
        } else {
            None
        },
    }
}

/// Whether `attempt` is an attempt to have the activation `request` answered.
pub open spec fn activation_attempt(request: Seq<u8>, attempt: Attempt) -> bool {
    &&& attempt.cleanup.len() == 0
    &&& activation_answer(request, attempt.sending, attempt.reply, attempt.rest) == Some(
        attempt.outcome,
    )
}

/// Whether `exchange` is how a request is exchanged with `retries` retries: a
/// command is tried again until it is answered or no retry is left, an
/// activation is tried once.
pub open spec fn exchange_ok(exchange: Exchange, retries: nat) -> bool {
    let attempts = exchange.attempts;
    match exchange.expects {
        Expects::Bytes(want) => {
            &&& 1 <= attempts.len() <= retries + 1
            &&& forall|i: int|
                0 <= i < attempts.len() ==> command_attempt(
                    exchange.request,
                    want,
                    #[trigger] attempts[i],
                )
            &&& forall|i: int|
                0 <= i < attempts.len() - 1 ==> (#[trigger] attempts[i]).outcome is Err
            &&& attempts.last().outcome is Ok || attempts.len() == retries + 1
        },
        Expects::Announced => {
            &&& attempts.len() == 1
            &&& activation_attempt(exchange.request, attempts[0])
        },
    }
}

/// Whether `entry` is a step that a session with `retries` retries takes.
pub open spec fn entry_ok(entry: Entry, retries: nat) -> bool {
    match entry {
        Entry::Exchanged(exchange) => exchange_ok(exchange, retries),
        Entry::Delayed { .. } => true,
    }
}

/// Whether all of `log` are steps that a session with `retries` retries takes.
#[verifier::opaque]
pub open spec fn entries_ok(log: Seq<Entry>, retries: nat) -> bool {
    forall|i: int| 0 <= i < log.len() ==> entry_ok(#[trigger] log[i], retries)
}

/// The reply that an exchange ended in, or why there is none.
pub open spec fn reply_of(entry: Entry) -> Result<Seq<u8>, DebugProbeError> {
    match entry {
        Entry::Exchanged(exchange) => exchange.attempts.last().outcome,
        Entry::Delayed { .. } => Err(DebugProbeError::Timeout),
    }
}

/// Whether `entry` is the command `request`, answered by `want` bytes.
pub open spec fn is_command(entry: Entry, request: Seq<u8>, want: nat) -> bool {
    entry matches Entry::Exchanged(exchange) && exchange.request == request && exchange.expects
        == Expects::Bytes(want)
}

/// Whether `entry` is the activation `request`.
pub open spec fn is_activation(entry: Entry, request: Seq<u8>) -> bool {
    entry matches Entry::Exchanged(exchange) && exchange.request == request && exchange.expects
        == Expects::Announced
}

/// The calls of an attempt in order.
pub open spec fn attempt_events(attempt: Attempt) -> Seq<IoEvent> {
    attempt.sending + attempt.reply + attempt.rest + attempt.cleanup
}

/// The calls of several attempts in order.
pub open spec fn attempts_events(attempts: Seq<Attempt>) -> Seq<IoEvent>
    decreases attempts.len(),
{
    if attempts.len() == 0 {
        Seq::empty()
    } else {
        attempts_events(attempts.drop_last()) + attempt_events(attempts.last())
    }
}

/// The calls of one step of a session.
pub open spec fn entry_events(entry: Entry) -> Seq<IoEvent> {
    match entry {
        Entry::Exchanged(exchange) => attempts_events(exchange.attempts),
        Entry::Delayed { millis } => seq![IoEvent::Delay { millis }],
    }
}

/// The calls of a session in order.
pub open spec fn log_events(log: Seq<Entry>) -> Seq<IoEvent>
    decreases log.len(),
{
    if log.len() == 0 {
        Seq::empty()
    } else {
        log_events(log.drop_last()) + entry_events(log.last())
    }
}

pub proof fn lemma_entries_ok_concat(a: Seq<Entry>, b: Seq<Entry>, retries: nat)
    requires
        entries_ok(a, retries),
        entries_ok(b, retries),
    ensures
        entries_ok(a + b, retries),
{
    reveal(entries_ok);
    assert forall|i: int| 0 <= i < (a + b).len() implies entry_ok(
        #[trigger] (a + b)[i],
        retries,
    ) by {
        if i < a.len() {
            assert((a + b)[i] == a[i]);
        } else {
            assert((a + b)[i] == b[i - a.len()]);
        }
    }
}

pub proof fn lemma_log_events_concat(a: Seq<Entry>, b: Seq<Entry>)
    ensures
        log_events(a + b) == log_events(a) + log_events(b),
    decreases b.len(),
{
    if b.len() == 0 {
        assert(a + b =~= a);
        assert(log_events(a) + log_events(b) =~= log_events(a));
    } else {
        lemma_log_events_concat(a, b.drop_last());
        assert((a + b).drop_last() =~= a + b.drop_last());
        assert((a + b).last() == b.last());
        assert(log_events(a + b) =~= log_events(a) + log_events(b));
    }
}

/// One more read, for what is still missing, continues the reads.
#[verifier::rlimit(30)]
pub proof fn lemma_one_more_read(
    reads: Seq<IoEvent>,
    start: Option<u8>,
    want: nat,
    outcome: Result<Seq<u8>, IoError>,
)
    requires
        reads_for(reads, start, want),
        counted(stream(reads), start).len() < want,
        reads.len() > 0 ==> (reads.last() matches IoEvent::Read { outcome, .. } && brought_bytes(
            outcome,
        )),
        outcome matches Ok(data) ==> data.len() <= want - counted(stream(reads), start).len(),
    ensures
        ({
            let missing = (want - counted(stream(reads), start).len()) as nat;
            let longer = reads.push(IoEvent::Read { max: missing, outcome });
            &&& reads_for(longer, start, want)
            &&& stream(longer) == match outcome {
                Ok(data) => stream(reads) + data,
                Err(_) => stream(reads),
            }
        }),
{
    reveal(reads_for);
    let missing = (want - counted(stream(reads), start).len()) as nat;
    let longer = reads.push(IoEvent::Read { max: missing, outcome });
    assert(longer.drop_last() =~= reads);
    assert(stream(longer) =~= match outcome {
        Ok(data) => stream(reads) + data,
        Err(_) => stream(reads),
    });
    assert forall|i: int| #![trigger longer[i]] 0 <= i < longer.len() implies longer.take(i)
        == reads.take(i) by {
        assert(longer.take(i) =~= reads.take(i));
    }
    assert(reads.take(reads.len() as int) =~= reads);
    assert forall|i: int| 0 <= i < reads.len() implies #[trigger] longer[i] == reads[i] by {}
}

/// Where nothing has counted yet, a chunk counts from its first `mark` on;
/// afterwards all of it counts.
pub proof fn lemma_counted_more(held: Seq<u8>, chunk: Seq<u8>, start: Option<u8>)
    ensures
        counted(held + chunk, start) == if start is Some && counted(held, start).len() == 0 {
            counted(chunk, start)
        } else {
            counted(held, start) + chunk
        },
{
    if let Some(mark) = start {
        lemma_from_first_concat(held, chunk, mark);
    }
}

pub proof fn lemma_from_first_concat(a: Seq<u8>, b: Seq<u8>, mark: u8)
    ensures
        from_first(a + b, mark) == if from_first(a, mark).len() > 0 {
            from_first(a, mark) + b
        } else {
            from_first(b, mark)
        },
    decreases a.len(),
{
    if a.len() == 0 {
        assert(a + b =~= b);
    } else if a[0] == mark {
        assert((a + b)[0] == mark);
    } else {
        lemma_from_first_concat(a.skip(1), b, mark);
        assert((a + b).skip(1) =~= a.skip(1) + b);
    }
}

/// Skipping bytes that are not `mark` loses nothing.
pub proof fn lemma_from_first_skip(bytes: Seq<u8>, mark: u8, n: int)
    requires
        0 <= n <= bytes.len(),
        forall|i: int| 0 <= i < n ==> bytes[i] != mark,
    ensures
        from_first(bytes, mark) == from_first(bytes.skip(n), mark),
    decreases n,
{
    if n > 0 {
        lemma_from_first_skip(bytes.skip(1), mark, n - 1);
        assert(bytes.skip(1).skip(n - 1) =~= bytes.skip(n));
    } else {
        assert(bytes.skip(0) =~= bytes);
    }
}

/// Whatever comes before the first byte of a reply is dropped, however the
/// bytes are cut into reads.
pub proof fn law_leading_bytes_are_dropped(
    reads: Seq<IoEvent>,
    mark: u8,
    leading: Seq<u8>,
    reply: Seq<u8>,
)
    requires
        stream(reads) == leading + reply,
        !leading.contains(mark),
        reply.len() > 0,
        reply[0] == mark,
    ensures
        reads_end(reads, Some(mark), reply.len()) == Some(Ok::<_, DebugProbeError>(reply)),
{
    let n = leading.len() as int;
    assert forall|i: int| 0 <= i < n implies (leading + reply)[i] != mark by {
        assert((leading + reply)[i] == leading[i]);
    }
    lemma_from_first_skip(leading + reply, mark, n);
    assert((leading + reply).skip(n) =~= reply);
}

/// Every packet that goes out in a session ends in its CRC.
pub proof fn law_packets_are_framed(log: Seq<Entry>, retries: nat, i: int)
    requires
        entries_ok(log, retries),
        0 <= i < log_events(log).len(),
        log_events(log)[i] is Write,
    ensures
        crc::is_framed(log_events(log)[i]->Write_data),
    decreases log.len(),
{
    reveal(entries_ok);
    let front = log.drop_last();
    let k = log_events(front).len();
    assert forall|j: int| 0 <= j < front.len() implies entry_ok(#[trigger] front[j], retries) by {
        assert(front[j] == log[j]);
    }
    if i < k {
        law_packets_are_framed(front, retries, i);
    } else {
        assert(entry_ok(log[log.len() - 1], retries));
        assert(log_events(log)[i] == entry_events(log.last())[i - k]);
        if let Entry::Exchanged(exchange) = log.last() {
            lemma_attempts_are_framed(exchange, exchange.attempts, i - k);
        }
    }
}

/// A command is tried once and as often again as there are retries at most, and
/// a reply that is accepted for it has the length asked for, ends in its CRC,
/// names the command and reports no error.
pub proof fn law_replies_are_checked(
    log: Seq<Entry>,
    retries: nat,
    i: int,
    request: Seq<u8>,
    want: nat,
)
    requires
        entries_ok(log, retries),
        0 <= i < log.len(),
        is_command(log[i], request, want),
    ensures
        1 <= log[i]->Exchanged_0.attempts.len() <= retries + 1,
        reply_of(log[i]) matches Ok(reply) ==> {
            &&& reply.len() == want
            &&& crc::is_framed(reply)
            &&& reply[0] == request[0]
            &&& reply[1] == 0
        },
{
    reveal(entries_ok);
    assert(entry_ok(log[i], retries));
    let attempts = log[i]->Exchanged_0.attempts;
    assert(command_attempt(request, want, attempts[attempts.len() - 1]));
}

/// Whether a call, if it writes, writes `request` in a frame.
spec fn writes_just(event: IoEvent, request: Seq<u8>) -> bool {
    event matches IoEvent::Write { data, .. } ==> data == crc::framed(request)
}

proof fn lemma_attempts_are_framed(exchange: Exchange, attempts: Seq<Attempt>, i: int)
    requires
        forall|j: int|
            0 <= j < attempts.len() ==> match exchange.expects {
                Expects::Bytes(want) => command_attempt(
                    exchange.request,
                    want,
                    #[trigger] attempts[j],
                ),
                Expects::Announced => activation_attempt(exchange.request, attempts[j]),
            },
        0 <= i < attempts_events(attempts).len(),
        attempts_events(attempts)[i] is Write,
    ensures
        crc::is_framed(attempts_events(attempts)[i]->Write_data),
    decreases attempts.len(),
{
    let front = attempts.drop_last();
    let k = attempts_events(front).len();
    let last = attempts.last();
    assert(last == attempts[attempts.len() - 1]);
    if i < k {
        assert forall|j: int| 0 <= j < front.len() implies match exchange.expects {
            Expects::Bytes(want) => command_attempt(
                exchange.request,
                want,
                #[trigger] front[j],
            ),
            Expects::Announced => activation_attempt(exchange.request, front[j]),
        } by {
            assert(front[j] == attempts[j]);
        }
        lemma_attempts_are_framed(exchange, front, i);
    } else {
        let event = attempts_events(attempts)[i];
        let events = attempt_events(last);
        assert(event == events[i - k]);
        reveal(reads_for);
        assert(sent(exchange.request, last.sending) is Some);
        assert forall|j: int| 0 <= j < last.sending.len() implies writes_just(
            #[trigger] last.sending[j],
            exchange.request,
        ) by {}
        assert(forall|j: int| 0 <= j < last.reply.len() ==> !((#[trigger] last.reply[j]) is Write));
        assert(forall|j: int| 0 <= j < last.rest.len() ==> !((#[trigger] last.rest[j]) is Write));
        assert(forall|j: int|
            0 <= j < last.cleanup.len() ==> !((#[trigger] last.cleanup[j]) is Write));
        let at = i - k;
        let a = last.sending.len();
        let b = a + last.reply.len();
        let c = b + last.rest.len();
        if at < a {
            assert(event == last.sending[at]);
        } else if at < b {
            assert(event == last.reply[at - a]);
        } else if at < c {
            assert(event == last.rest[at - b]);
        } else {
            assert(event == last.cleanup[at - c]);
        }
        crc::law_framed_is_valid(exchange.request);
    }
}

} // verus!
