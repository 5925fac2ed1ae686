//! The Telink SWS programmer.

use vstd::prelude::*;
use vstd::slice::slice_subrange;

use crate::bytes;
use crate::crc::crc_block;
use crate::crc::crc_valid;
use crate::error::DebugProbeError;
use crate::error::Error;
use crate::error::IoError;
use crate::error::IoErrorKind;
use crate::error::ProbeCreationError;
use crate::error::WireProtocol;
use crate::link::Link;
use crate::protocol;
use crate::protocol::FlashRange;
use crate::protocol::FlashState;
use crate::protocol::ATTACH_ACTIVATIONS;
use crate::protocol::ATTACH_SWDIV;
use crate::protocol::CMDF_EXT_POWER;
use crate::protocol::CMDF_GET_VERSION;
use crate::protocol::CMDF_SWIRE_ACTIVATE;
use crate::protocol::CMDF_SWIRE_CFG;
use crate::protocol::CMD_FLASH_ALL_ERASE;
use crate::protocol::CMD_FLASH_GET_STATUS;
use crate::protocol::CMD_FLASH_READ;
use crate::protocol::CMD_FLASH_SECT_ERASE;
use crate::protocol::CMD_FLASH_WRITE;
use crate::protocol::CMD_FUNCS;
use crate::protocol::CMD_SWIRE_READ;
use crate::protocol::CMD_SWIRE_WRITE;
use crate::protocol::ERASE_ALL_POLLS;
use crate::protocol::ERR_NONE;
use crate::protocol::FLASH_PAGE_SIZE;
use crate::protocol::FLASH_SECTOR_SIZE;
use crate::protocol::MAX_FLASH_READ_SIZE;
use crate::protocol::READY_POLLS;
use crate::protocol::RECOVERY_ACTIVATIONS;
use crate::protocol::RECOVERY_RESET_MS;
use crate::protocol::SWIRE_ADDRESS_LEN;
use crate::session;
use crate::session::ProbeView;
use crate::session::DEFAULT_SPEED_KHZ;
use crate::slices::any_programmed;
use crate::slices::copy_from;
use crate::slices::position_of;
use crate::slices::same_bytes;
use crate::tc32::calls::SwsCall;
use crate::tc32::Tc32CommunicationInterface;
use crate::tc32::TlsrSwsDebug;
use crate::transport;
use crate::transport::parse_endpoint;
use crate::transport::Attempt;
use crate::transport::Endpoint;
use crate::transport::Entry;
use crate::transport::Exchange;
use crate::transport::Expects;
use crate::transport::Io;
use crate::transport::IoEvent;
use crate::transport::HEADER_LEN;
use crate::transport::READ_LIMIT;

verus! {

/// How often a command is tried again.
pub const DEFAULT_IO_RETRIES: usize = 3;

/// A Telink SWS programmer reached through the transport `T`.
pub struct TelinkSws<T: Io> {
    endpoint: String,
    link: Link<T>,
    speed_khz: u32,
    attached: bool,
    io_retries: usize,
    flash_erased: bool,
    programmed_flash_ranges: Vec<FlashRange>,
    log: Ghost<Seq<Entry>>,
}

impl<T: Io> View for TelinkSws<T> {
    type V = ProbeView<T>;

    closed spec fn view(&self) -> ProbeView<T> {
        ProbeView {
            endpoint: self.endpoint@,
            speed_khz: self.speed_khz,
            attached: self.attached,
            io_retries: self.io_retries as nat,
            flash: FlashState {
                erased: self.flash_erased,
                ranges: self.programmed_flash_ranges@,
            },
            log: self.log@,
            transport: self.link.transport(),
            events: self.link.events(),
        }
    }
}

impl<T: Io> TelinkSws<T> {
    /// Opens the programmer that `io` reaches, once the transport has come to
    /// rest.
    pub fn open(endpoint: &str, io: T) -> (result: Result<Self, DebugProbeError>)
        ensures
            exists|io_ref: &mut T, settled: Result<(), IoError>|
                {
                    &&& *io_ref == io
                    &&& #[trigger] call_ensures(T::settle_after_open, (io_ref,), settled)
                    &&& match settled {
                        Ok(_) => result matches Ok(probe) && probe@ == session::fresh(
                            endpoint@,
                            false,
                            DEFAULT_IO_RETRIES as nat,
                            *final(io_ref),
                            seq![IoEvent::Settle { outcome: settled }],
                        ),
                        Err(error) => result == Err::<Self, _>(DebugProbeError::Usb(error)),
                    }
                },
    {
        let mut link = Link::new(io);
        let settled = link.settle();
        assert(link.events() =~= seq![IoEvent::Settle { outcome: settled }]);
        Self::opened(endpoint, link, settled)
    }

    /// The programmer that `link` reaches, where coming to rest ended in
    /// `settled`.
    pub fn opened(endpoint: &str, link: Link<T>, settled: Result<(), IoError>) -> (result: Result<
        Self,
        DebugProbeError,
    >)
        ensures
            match settled {
                Ok(_) => {
                    &&& result matches Ok(probe)
                    &&& probe@ == session::fresh(
                        endpoint@,
                        false,
                        DEFAULT_IO_RETRIES as nat,
                        link.transport(),
                        link.events(),
                    )
                },
                Err(error) => result == Err::<Self, _>(DebugProbeError::Usb(error)),
            },
            result matches Ok(probe) ==> probe@.io_retries == 3 && probe@.speed_khz == 960
                && !probe@.attached,
    {
        match settled {
            Ok(()) => Ok(
                TelinkSws {
                    endpoint: endpoint.to_string(),
                    link,
                    speed_khz: DEFAULT_SPEED_KHZ,
                    attached: false,
                    io_retries: DEFAULT_IO_RETRIES,
                    flash_erased: false,
                    programmed_flash_ranges: Vec::new(),
                    log: Ghost(Seq::empty()),
                },
            ),
            Err(error) => Err(DebugProbeError::Usb(error)),
        }
    }

    /// A programmer that counts as attached and tries nothing again.
    pub fn from_io_for_test(io: T) -> (probe: Self)
        ensures
            probe@ == session::fresh("test"@, true, 0, io, Seq::empty()),
    {
        TelinkSws {
            endpoint: "test".to_string(),
            link: Link::new(io),
            speed_khz: DEFAULT_SPEED_KHZ,
            attached: true,
            io_retries: 0,
            flash_erased: false,
            programmed_flash_ranges: Vec::new(),
            log: Ghost(Seq::empty()),
        }
    }

    /// One read for at most `want` bytes. Bytes beyond those asked for do not
    /// count.
    pub fn read_io(&mut self, want: usize) -> (result: Result<Vec<u8>, DebugProbeError>)
        ensures
            session::only_events(old(self)@, final(self)@),
            ({
                let events = session::events_since(old(self)@, final(self)@);
                &&& events.len() == 1
                &&& match events[0] {
                    IoEvent::Read { max, outcome } => {
                        &&& max == want
                        &&& match outcome {
                            Ok(data) => {
                                &&& data.len() <= want
                                &&& session::outcome_view(result) == Ok::<_, DebugProbeError>(data)
                            },
                            Err(error) => session::outcome_view(result) == Err::<Seq<u8>, _>(
                                transport::read_error(error),
                            ),
                        }
                    },
                    _ => false,
                }
            }),
    {
        let ghost first = self@;
        let outcome = self.link.read(want);
        proof {
            session::lemma_one_event(first, self@);
        }
        match outcome {
            Ok(data) => Ok(data),
            Err(error) => Err(
                match error.kind {
                    IoErrorKind::TimedOut | IoErrorKind::WouldBlock => DebugProbeError::Timeout,
                    IoErrorKind::Other => DebugProbeError::Usb(error),
                },
            ),
        }
    }

    /// Reads until `want` bytes that count are there.
    fn read_counted(&mut self, want: usize, start: Option<u8>) -> (result: Result<
        Vec<u8>,
        DebugProbeError,
    >)
        ensures
            session::only_events(old(self)@, final(self)@),
            ({
                let reads = session::events_since(old(self)@, final(self)@);
                &&& transport::reads_for(reads, start, want as nat)
                &&& transport::reads_end(reads, start, want as nat) == Some(
                    session::outcome_view(result),
                )
            }),
    {
        let mut reply: Vec<u8> = Vec::new();
        let mut count: u64 = 0;
        proof {
            reveal(transport::reads_for);
            session::lemma_no_event(self@);
        }
        while reply.len() < want
            invariant
                session::only_events(old(self)@, self@),
                reply@.len() <= want,
                ({
                    let reads = session::events_since(old(self)@, self@);
                    &&& reads.len() == count
                    &&& transport::reads_for(reads, start, want as nat)
                    &&& reply@ == transport::counted(transport::stream(reads), start)
                    &&& count > 0 ==> (reads.last() matches IoEvent::Read { outcome, .. }
                        && transport::brought_bytes(outcome))
                }),
            decreases READ_LIMIT - count,
        {
            if count == READ_LIMIT {
                return Err(DebugProbeError::Timeout);
            }
            let ghost reads = session::events_since(old(self)@, self@);
            let ghost middle = self@;
            let missing: usize = want - reply.len();
            let result = self.read_io(missing);
            proof {
                let event = session::events_since(middle, self@)[0];
                let outcome = event->Read_outcome;
                session::lemma_only_events(old(self)@, middle, self@);
                assert(session::events_since(old(self)@, self@) =~= reads.push(event));
                transport::lemma_one_more_read(reads, start, want as nat, outcome);
            }
            let chunk = match result {
                Ok(chunk) => chunk,
                Err(error) => return Err(error),
            };
            proof {
                transport::lemma_counted_more(transport::stream(reads), chunk@, start);
            }
            if chunk.len() == 0 {
                assert(transport::stream(reads) + chunk@ =~= transport::stream(reads));
                return Err(DebugProbeError::Timeout);
            }
            if start.is_some() && reply.len() == 0 {
                let mark: u8 = start.unwrap();
                let at: usize = position_of(chunk.as_slice(), mark);
                let (_, tail) = chunk.as_slice().split_at(at);
                reply.extend_from_slice(tail);
                assert(reply@ =~= chunk@.skip(at as int));
            } else {
                let ghost held = reply@;
                reply.extend_from_slice(chunk.as_slice());
                assert(reply@ =~= held + chunk@);
            }
            count = count + 1;
        }
        Ok(reply)
    }

    /// Reads a reply of `want` bytes, dropping everything before the first
    /// `expected_command`.
    pub fn read_exact_response(&mut self, want: usize, expected_command: u8) -> (result: Result<
        Vec<u8>,
        DebugProbeError,
    >)
        ensures
            session::only_events(old(self)@, final(self)@),
            ({
                let reads = session::events_since(old(self)@, final(self)@);
                let start = Some(expected_command);
                &&& transport::reads_for(reads, start, want as nat)
                &&& transport::reads_end(reads, start, want as nat) == Some(
                    session::outcome_view(result),
                )
            }),
    {
        self.read_counted(want, Some(expected_command))
    }

    /// Reads the next `want` bytes.
    pub fn read_exact_bytes(&mut self, want: usize) -> (result: Result<Vec<u8>, DebugProbeError>)
        ensures
            session::only_events(old(self)@, final(self)@),
            ({
                let reads = session::events_since(old(self)@, final(self)@);
                &&& transport::reads_for(reads, None, want as nat)
                &&& transport::reads_end(reads, None, want as nat) == Some(
                    session::outcome_view(result),
                )
            }),
    {
        self.read_counted(want, None)
    }

    /// Sends `request` in a frame.
    fn send(&mut self, request: &[u8]) -> (result: Result<(), DebugProbeError>)
        ensures
            session::only_events(old(self)@, final(self)@),
            transport::sent(request@, session::events_since(old(self)@, final(self)@)) == Some(
                result,
            ),
            1 <= session::events_since(old(self)@, final(self)@).len() <= 2,
            result is Ok ==> session::events_since(old(self)@, final(self)@).len() == 2,
    {
        let ghost first = self@;
        let packet = crc_block(request);
        let written = self.link.write_all(packet.as_slice());
        let ghost middle = self@;
        proof {
            session::lemma_one_event(first, middle);
        }
        match written {
            Ok(()) => {},
            Err(error) => return Err(DebugProbeError::Usb(error)),
        }
        let flushed = self.link.flush();
        proof {
            session::lemma_one_event(middle, self@);
            session::lemma_only_events(first, middle, self@);
        }
        match flushed {
            Ok(()) => Ok(()),
            Err(error) => Err(DebugProbeError::Usb(error)),
        }
    }

    /// Sends `request` once and judges the reply of `expected_len` bytes.
    pub fn command_once(&mut self, request: &[u8], expected_len: usize) -> (result: Result<
        Vec<u8>,
        DebugProbeError,
    >)
        requires
            request@.len() > 0,
        ensures
            session::only_events(old(self)@, final(self)@),
            ({
                let events = session::events_since(old(self)@, final(self)@);
                let sending = events.take(session::sending_len(events));
                let reply = events.skip(session::sending_len(events));
                transport::command_answer(request@, expected_len as nat, sending, reply) == Some(
                    session::outcome_view(result),
                )
            }),
            result matches Ok(reply) ==> session::accepted(request@, expected_len as nat, reply@),
    {
        let ghost first = self@;
        let sent = self.send(request);
        let ghost middle = self@;
        let ghost sending = session::events_since(first, middle);
        match sent {
            Ok(()) => {},
            Err(error) => {
                assert(sending.take(session::sending_len(sending)) =~= sending);
                assert(sending.skip(session::sending_len(sending)) =~= Seq::empty());
                return Err(error);
            },
        }
        let response = self.read_exact_response(expected_len, request[0]);
        proof {
            let reply = session::events_since(middle, self@);
            let events = session::events_since(first, self@);
            session::lemma_only_events(first, middle, self@);
            assert(events.take(session::sending_len(events)) =~= sending);
            assert(events.skip(session::sending_len(events)) =~= reply);
        }
        let response = match response {
            Ok(response) => response,
            Err(error) => return Err(error),
        };
        if !crc_valid(response.as_slice()) {
            return Err(DebugProbeError::InvalidCrc);
        }
        if response[0] != request[0] {
            return Err(DebugProbeError::UnexpectedCommand);
        }
        if response[1] != ERR_NONE {
            return Err(DebugProbeError::Programmer(response[1]));
        }
        Ok(response)
    }

    /// Drops pending input.
    fn discard(&mut self) -> (outcome: Result<usize, IoError>)
        ensures
            session::only_events(old(self)@, final(self)@),
            session::events_since(old(self)@, final(self)@) == seq![IoEvent::Discard { outcome }],
    {
        let ghost first = self@;
        let outcome = self.link.discard();
        proof {
            session::lemma_one_event(first, self@);
        }
        outcome
    }

    /// Waits for `millis` milliseconds.
    fn pause(&mut self, millis: u64)
        ensures
            session::only_session(old(self)@, final(self)@),
            session::since(old(self)@, final(self)@) == seq![Entry::Delayed { millis }],
    {
        let ghost first = self@;
        self.link.delay(millis);
        proof {
            let entry = Entry::Delayed { millis };
            session::lemma_one_event(first, self@);
            assert(transport::entry_events(entry) =~= session::events_since(first, self@));
            self.log@ = first.log.push(entry);
            session::lemma_one_step(first, self@, entry);
        }
    }

    /// Has `request` answered by `expected_len` bytes, trying again as often as
    /// the probe's retries allow.
    pub fn command(&mut self, request: &[u8], expected_len: usize) -> (result: Result<
        Vec<u8>,
        DebugProbeError,
    >)
        requires
            request@.len() > 0,
        ensures
            session::only_session(old(self)@, final(self)@),
            ({
                let steps = session::since(old(self)@, final(self)@);
                &&& steps.len() == 1
                &&& transport::is_command(steps[0], request@, expected_len as nat)
                &&& transport::reply_of(steps[0]) == session::outcome_view(result)
            }),
            result matches Ok(reply) ==> session::accepted(request@, expected_len as nat, reply@),
    {
        let ghost first = self@;
        let ghost mut attempts: Seq<Attempt> = Seq::empty();
        let mut left: usize = self.io_retries;
        proof {
            session::lemma_no_event(first);
        }
        loop
            invariant
                first == old(self)@,
                session::only_events(first, self@),
                session::events_since(first, self@) == transport::attempts_events(attempts),
                attempts.len() + left == first.io_retries,
                request@.len() > 0,
                forall|i: int|
                    0 <= i < attempts.len() ==> transport::command_attempt(
                        request@,
                        expected_len as nat,
                        #[trigger] attempts[i],
                    ) && attempts[i].outcome is Err,
            decreases left,
        {
            let ghost middle = self@;
            let result = self.command_once(request, expected_len);
            let ghost events = session::events_since(middle, self@);
            let ghost done = attempts;
            match result {
                Ok(response) => {
                    proof {
                        session::lemma_only_events(first, middle, self@);
                        let attempt = session::attempt_of(events, Seq::empty(), Ok(response@));
                        attempts = done.push(attempt);
                        session::lemma_attempt(done, events, Seq::empty(), Ok(response@));
                        let exchange = Exchange {
                            request: request@,
                            expects: Expects::Bytes(expected_len as nat),
                            attempts,
                        };
                        self.log@ = first.log.push(Entry::Exchanged(exchange));
                        session::lemma_one_step(first, self@, Entry::Exchanged(exchange));
                    }
                    return Ok(response);
                },
                Err(error) => {
                    let ghost failed = self@;
                    let discarded = self.discard();
                    proof {
                        session::lemma_only_events(first, middle, failed);
                        session::lemma_only_events(first, failed, self@);
                        let cleanup = seq![IoEvent::Discard { outcome: discarded }];
                        let attempt = session::attempt_of(events, cleanup, Err(error));
                        attempts = done.push(attempt);
                        session::lemma_attempt(done, events, cleanup, Err(error));
                    }
                    if left == 0 {
                        proof {
                            let exchange = Exchange {
                                request: request@,
                                expects: Expects::Bytes(expected_len as nat),
                                attempts,
                            };
                            self.log@ = first.log.push(Entry::Exchanged(exchange));
                            session::lemma_one_step(first, self@, Entry::Exchanged(exchange));
                        }
                        return Err(error);
                    }
                    left = left - 1;
                },
            }
        }
    }

    /// Asks the programmer for its version.
    pub fn get_version(&mut self) -> (result: Result<Vec<u8>, DebugProbeError>)
        ensures
            session::only_session(old(self)@, final(self)@),
            ({
                let steps = session::since(old(self)@, final(self)@);
                &&& steps.len() == 1
                &&& transport::is_command(steps[0], protocol::version_request(), 19)
                &&& transport::reply_of(steps[0]) == session::outcome_view(result)
            }),
            result matches Ok(reply) ==> session::accepted(protocol::version_request(), 19, reply@),
    {
        let request = [CMD_FUNCS, CMDF_GET_VERSION, 0, 0];
        assert(request@ =~= protocol::version_request());
        self.command(request.as_slice(), 19)
    }

    /// The count that a reply reports.
    pub fn response_count(response: &[u8]) -> (count: u16)
        requires
            response@.len() >= 4,
        ensures
            count == transport::count_of(response@),
            count == response@[2] + 256 * response@[3],
    {
        proof {
            bytes::lemma_le_value_two(response@.subrange(2, 4));
        }
        response[2] as u16 + 256 * response[3] as u16
    }

    /// Reads the flash status byte.
    pub fn read_flash_status(&mut self) -> (result: Result<u8, DebugProbeError>)
        ensures
            session::only_session(old(self)@, final(self)@),
            ({
                let steps = session::since(old(self)@, final(self)@);
                &&& steps.len() == 1
                &&& transport::is_command(
                    steps[0],
                    protocol::plain_request(CMD_FLASH_GET_STATUS),
                    7,
                )
                &&& protocol::status_of(steps[0]) == result
            }),
    {
        let request = [CMD_FLASH_GET_STATUS, 0, 0, 0];
        assert(request@ =~= protocol::plain_request(CMD_FLASH_GET_STATUS));
        let response = match self.command(request.as_slice(), 7) {
            Ok(response) => response,
            Err(error) => return Err(error),
        };
        if Self::response_count(response.as_slice()) != 1 {
            return Err(DebugProbeError::FlashStatusLength);
        }
        Ok(response[4])
    }

    /// Waits until the flash is ready, with the usual number of polls.
    pub fn wait_flash_ready(&mut self) -> (result: Result<(), DebugProbeError>)
        ensures
            session::only_session(old(self)@, final(self)@),
            protocol::waits(READY_POLLS as nat, session::since(old(self)@, final(self)@), result),
    {
        self.wait_flash_ready_with_limit(READY_POLLS)
    }

    /// Polls the flash status up to `polls` times until the flash is ready.
    pub fn wait_flash_ready_with_limit(&mut self, polls: usize) -> (result: Result<
        (),
        DebugProbeError,
    >)
        ensures
            session::only_session(old(self)@, final(self)@),
            protocol::waits(polls as nat, session::since(old(self)@, final(self)@), result),
    {
        proof {
            reveal(protocol::waits);
        }
        let ghost first = self@;
        let mut polled: usize = 0;
        proof {
            session::lemma_stayed(first, self@);
        }
        while polled < polls
            invariant
                first == old(self)@,
                session::only_session(first, self@),
                polled <= polls,
                ({
                    let t = session::since(first, self@);
                    &&& t.len() == polled
                    &&& forall|i: int|
                        0 <= i < t.len() ==> transport::is_command(
                            #[trigger] t[i],
                            protocol::plain_request(CMD_FLASH_GET_STATUS),
                            7,
                        )
                    &&& forall|i: int|
                        0 <= i < t.len() ==> (protocol::status_of(#[trigger] t[i]) matches Ok(
                            status,
                        ) && protocol::is_busy(status))
                }),
            decreases polls - polled,
        {
            let ghost middle = self@;
            let ghost t = session::since(first, middle);
            let status = self.read_flash_status();
            proof {
                let step = session::since(middle, self@)[0];
                reveal(protocol::waits);
                session::lemma_went_on(first, middle, self@);
                assert(session::since(first, self@) =~= t.push(step));
                assert(forall|i: int| 0 <= i < t.len() ==> t.push(step)[i] == t[i]);
            }
            match status {
                Ok(status) => {
                    if status % 2 == 0 {
                        return Ok(());
                    }
                },
                Err(error) => return Err(error),
            }
            polled = polled + 1;
        }
        Err(DebugProbeError::Timeout)
    }

    /// The request `command` for `address`, which takes data behind it.
    fn addressed(command: u8, address: u32) -> (request: Vec<u8>)
        ensures
            request@ == protocol::write_request(command, address as nat, Seq::empty()),
            request@.len() == 4,
    {
        let mut request: Vec<u8> = Vec::new();
        request.push(command);
        request.push((address % 256) as u8);
        request.push((address / 256 % 256) as u8);
        request.push((address / 65536 % 256) as u8);
        proof {
            bytes::lemma_le_three(address as nat);
            assert(request@ =~= protocol::write_request(command, address as nat, Seq::empty()));
        }
        request
    }

    /// Erases the flash sector at `address`. From then on nothing is assumed of
    /// the rest of the flash.
    pub fn erase_sws_flash_sector(&mut self, address: u32) -> (result: Result<(), DebugProbeError>)
        ensures
            session::went_on(old(self)@, final(self)@),
            ({
                let t = session::since(old(self)@, final(self)@);
                let flash = if transport::reply_of(t[0]) is Ok {
                    protocol::after_sector_erase()
                } else {
                    old(self)@.flash
                };
                &&& protocol::erases_sector(address as nat, t, result)
                &&& session::only_flash(old(self)@, final(self)@, flash)
            }),
    {
        proof {
            reveal(protocol::erases_sector);
        }
        let ghost first = self@;
        let request = Self::addressed(CMD_FLASH_SECT_ERASE, address);
        let response = self.command(request.as_slice(), 6);
        match response {
            Ok(_) => {},
            Err(error) => return Err(error),
        }
        let ghost answered = self@;
        self.flash_erased = false;
        self.programmed_flash_ranges.clear();
        let ghost middle = self@;
        proof {
            session::lemma_same_session(first, answered, middle);
        }
        let result = self.wait_flash_ready();
        proof {
            session::lemma_went_on(first, middle, self@);
            assert(session::since(first, self@).skip(1) =~= session::since(middle, self@));
        }
        result
    }

    /// Erases all flash.
    pub fn erase_sws_flash_all_inner(&mut self) -> (result: Result<(), DebugProbeError>)
        ensures
            session::went_on(old(self)@, final(self)@),
            protocol::erases_all(session::since(old(self)@, final(self)@), result),
            session::only_flash(
                old(self)@,
                final(self)@,
                if result is Ok {
                    protocol::after_erase_all()
                } else {
                    old(self)@.flash
                },
            ),
    {
        proof {
            reveal(protocol::erases_all);
        }
        let ghost first = self@;
        let request = [CMD_FLASH_ALL_ERASE, 0, 0, 0];
        assert(request@ =~= protocol::plain_request(CMD_FLASH_ALL_ERASE));
        match self.command(request.as_slice(), 6) {
            Ok(_) => {},
            Err(error) => return Err(error),
        }
        let ghost middle = self@;
        let ready = self.wait_flash_ready_with_limit(ERASE_ALL_POLLS);
        proof {
            session::lemma_went_on(first, middle, self@);
            assert(session::since(first, self@).skip(1) =~= session::since(middle, self@));
        }
        match ready {
            Ok(()) => {},
            Err(error) => return Err(error),
        }
        let ghost last = self@;
        self.flash_erased = true;
        self.programmed_flash_ranges.clear();
        proof {
            session::lemma_same_session(first, last, self@);
        }
        ready
    }

    /// Programs `data`, at most a page of it, at `address`.
    pub fn program_sws_flash_page(&mut self, address: u32, data: &[u8]) -> (result: Result<
        (),
        DebugProbeError,
    >)
        ensures
            session::only_session(old(self)@, final(self)@),
            protocol::programs_page(
                address as nat,
                data@,
                session::since(old(self)@, final(self)@),
                result,
            ),
    {
        proof {
            reveal(protocol::programs_page);
        }
        let ghost first = self@;
        if data.len() > FLASH_PAGE_SIZE {
            proof {
                session::lemma_stayed(first, self@);
            }
            return Err(DebugProbeError::FlashBlockTooLarge(data.len()));
        }
        let mut request = Self::addressed(CMD_FLASH_WRITE, address);
        request.extend_from_slice(data);
        assert(request@ =~= protocol::write_request(CMD_FLASH_WRITE, address as nat, data@));
        let response = match self.command(request.as_slice(), 6) {
            Ok(response) => response,
            Err(error) => return Err(error),
        };
        let written: u16 = Self::response_count(response.as_slice());
        if written as usize != data.len() {
            return Err(DebugProbeError::FlashWriteLength { written, expected: data.len() });
        }
        let ghost middle = self@;
        let result = self.wait_flash_ready();
        proof {
            session::lemma_went_on(first, middle, self@);
            assert(session::since(first, self@).skip(1) =~= session::since(middle, self@));
        }
        result
    }

    /// Programs `data` at `address`, page by page.
    pub fn program_sws_flash_range(&mut self, address: u32, data: &[u8]) -> (result: Result<
        (),
        DebugProbeError,
    >)
        requires
            address + data@.len() <= 0x1_0000_0000,
        ensures
            session::only_session(old(self)@, final(self)@),
            protocol::programs(
                address as nat,
                data@,
                session::since(old(self)@, final(self)@),
                result,
            ),
    {
        let ghost first = self@;
        let mut done: usize = 0;
        proof {
            session::lemma_stayed(first, self@);
            protocol::lemma_programs_begin(address as nat, data@);
            assert(data@.skip(0) =~= data@);
        }
        while done < data.len()
            invariant
                first == old(self)@,
                session::only_session(first, self@),
                done <= data@.len(),
                address + data@.len() <= 0x1_0000_0000,
                protocol::programs_on(
                    address as nat,
                    data@,
                    session::since(first, self@),
                    (address + done) as nat,
                    data@.skip(done as int),
                ),
            decreases data@.len() - done,
        {
            let at: u32 = address + done as u32;
            let left: usize = data.len() - done;
            let room: usize = FLASH_PAGE_SIZE - (at as usize) % FLASH_PAGE_SIZE;
            let n: usize = if left < room { left } else { room };
            let chunk = slice_subrange(data, done, done + n);
            let ghost todo = data@.skip(done as int);
            let ghost middle = self@;
            let ghost t = session::since(first, middle);
            proof {
                assert(chunk@ =~= todo.take(n as int));
                assert(todo.skip(n as int) =~= data@.skip(done + n));
                assert(n == protocol::fits(at as nat, todo.len(), FLASH_PAGE_SIZE as nat));
            }
            if any_programmed(chunk) {
                let page = self.program_sws_flash_page(at, chunk);
                let ghost steps = session::since(middle, self@);
                proof {
                    session::lemma_went_on(first, middle, self@);
                }
                match page {
                    Ok(()) => {
                        proof {
                            protocol::lemma_programs_page(
                                address as nat,
                                data@,
                                t,
                                at as nat,
                                todo,
                                steps,
                                page,
                            );
                        }
                    },
                    Err(error) => {
                        proof {
                            protocol::lemma_programs_failed(
                                address as nat,
                                data@,
                                t,
                                at as nat,
                                todo,
                                steps,
                                error,
                            );
                        }
                        return Err(error);
                    },
                }
            } else {
                proof {
                    protocol::lemma_programs_blank(address as nat, data@, t, at as nat, todo);
                }
            }
            done = done + n;
        }
        proof {
            protocol::lemma_programs_end(
                address as nat,
                data@,
                session::since(first, self@),
                (address + done) as nat,
                data@.skip(done as int),
            );
        }
        Ok(())
    }

    /// Has `data` filled by the reply to a read `command` at `address`.
    fn read_with(&mut self, command: u8, address: u32, data: &mut [u8]) -> (result: Result<
        (),
        DebugProbeError,
    >)
        requires
            old(data)@.len() <= isize::MAX,
        ensures
            session::only_session(old(self)@, final(self)@),
            session::fills(
                command,
                address,
                session::since(old(self)@, final(self)@),
                old(data)@,
                result,
                final(data)@,
            ),
    {
        let len: usize = data.len();
        let mut request = Self::addressed(command, address);
        request.push((len % 256) as u8);
        request.push((len / 256 % 256) as u8);
        proof {
            bytes::lemma_le_two(len as nat);
            assert(request@ =~= protocol::read_request(command, address as nat, len as nat));
        }
        let response = match self.command(request.as_slice(), len + 6) {
            Ok(response) => response,
            Err(error) => return Err(error),
        };
        copy_from(data, response.as_slice(), 4);
        Ok(())
    }

    /// Fills `data` from the flash at `address`, in pieces that one read can
    /// bring. If one fails, the bytes from it on stay as they are.
    pub fn read_sws_flash_range(&mut self, address: u32, data: &mut [u8]) -> (result: Result<
        (),
        DebugProbeError,
    >)
        requires
            protocol::reads_fit(address as nat, old(data)@.len()),
        ensures
            session::only_session(old(self)@, final(self)@),
            protocol::reads_flash(
                address as nat,
                old(data)@.len(),
                session::since(old(self)@, final(self)@),
                result,
            ),
            final(data)@ == session::filled(
                old(data)@,
                session::since(old(self)@, final(self)@),
                result,
            ),
    {
        proof {
            reveal(protocol::reads_flash);
        }
        let ghost first = self@;
        let len: usize = data.len();
        let mut done: usize = 0;
        proof {
            session::lemma_stayed(first, self@);
        }
        while done < len
            invariant
                first == old(self)@,
                session::only_session(first, self@),
                data@.len() == len == old(data)@.len(),
                done <= len,
                protocol::reads_fit(address as nat, len as nat),
                ({
                    let t = session::since(first, self@);
                    &&& done == len || done == 1024 * t.len()
                    &&& t.len() == protocol::read_count(done as nat)
                    &&& forall|i: int|
                        0 <= i < t.len() ==> transport::is_command(
                            #[trigger] t[i],
                            protocol::read_request(
                                CMD_FLASH_READ,
                                protocol::read_address(address as nat, i),
                                protocol::read_len(len as nat, i),
                            ),
                            protocol::read_len(len as nat, i) + 6,
                        )
                    &&& forall|i: int|
                        0 <= i < t.len() ==> transport::reply_of(#[trigger] t[i]) is Ok
                    &&& forall|j: int|
                        0 <= j < len ==> #[trigger] data@[j] == if j < done {
                            protocol::byte_read(t, j)
                        } else {
                            old(data)@[j]
                        }
                }),
            decreases len - done,
        {
            proof {
                let i = session::since(first, self@).len() as int;
                assert(protocol::read_address(address as nat, i) < 0x1_0000_0000);
            }
            let at: u32 = address + (done as u64 % 0x1_0000_0000) as u32;
            let left: usize = len - done;
            let n: usize = if left < MAX_FLASH_READ_SIZE { left } else { MAX_FLASH_READ_SIZE };
            let ghost middle = self@;
            let ghost t = session::since(first, middle);
            let ghost before = data@;
            let (_, tail) = data.split_at_mut(done);
            let (chunk, _) = tail.split_at_mut(n);
            let result = self.read_sws_flash(at, chunk);
            let ghost step = session::since(middle, self@)[0];
            proof {
                session::lemma_went_on(first, middle, self@);
                assert(session::since(first, self@) =~= t.push(step));
                assert(forall|i: int| 0 <= i < t.len() ==> t.push(step)[i] == t[i]);
                assert(n == protocol::read_len(len as nat, t.len() as int));
                assert(before.subrange(done as int, len as int).subrange(0, n as int)
                    =~= before.subrange(done as int, done + n));
            }
            match result {
                Ok(()) => {},
                Err(error) => {
                    proof {
                        reveal(protocol::reads_flash);
                        assert(data@ =~= before);
                        let t = session::since(first, self@);
                        assert(data@ =~= session::filled(old(data)@, t, result));
                    }
                    return Err(error);
                },
            }
            proof {
                assert forall|j: int| 0 <= j < len implies #[trigger] data@[j] == if j < done + n {
                    protocol::byte_read(t.push(step), j)
                } else {
                    old(data)@[j]
                } by {
                    if j < done {
                        assert(data@[j] == before[j]);
                    } else if j < done + n {
                        let reply = transport::reply_of(step)->Ok_0;
                        assert(data@[j] == reply.subrange(4, 4 + n)[j - done]);
                        assert(j / 1024 == t.len());
                    } else {
                        assert(data@[j] == before[j]);
                    }
                }
            }
            done = done + n;
        }
        assert(data@ =~= session::filled(old(data)@, session::since(first, self@), Ok(())));
        Ok(())
    }

    /// Fills `data` from the flash sector at `address`.
    pub fn read_sws_flash_sector(&mut self, address: u32, data: &mut [u8]) -> (result: Result<
        (),
        DebugProbeError,
    >)
        requires
            protocol::reads_fit(address as nat, old(data)@.len()),
        ensures
            session::only_session(old(self)@, final(self)@),
            protocol::reads_flash(
                address as nat,
                old(data)@.len(),
                session::since(old(self)@, final(self)@),
                result,
            ),
            final(data)@ == session::filled(
                old(data)@,
                session::since(old(self)@, final(self)@),
                result,
            ),
    {
        self.read_sws_flash_range(address, data)
    }

    /// Whether `desired` can be programmed over `current` without an erase.
    pub fn bytes_can_be_programmed_without_erase(current: &[u8], desired: &[u8]) -> (can: bool)
        ensures
            can == protocol::can_program(current@, desired@),
    {
        let mut i: usize = 0;
        while i < current.len() && i < desired.len()
            invariant
                i <= current@.len(),
                i <= desired@.len(),
                forall|j: int|
                    #![trigger current@[j]]
                    #![trigger desired@[j]]
                    0 <= j < i ==> current@[j] & desired@[j] == desired@[j],
            decreases current@.len() - i,
        {
            if current[i] & desired[i] != desired[i] {
                return false;
            }
            i = i + 1;
        }
        true
    }

    /// Whether the flash from `address` on is known to be erased.
    pub fn can_assume_flash_range_erased(&self, address: u32, len: usize) -> (can: bool)
        ensures
            can == protocol::assumes_erased(self@.flash, address, len as nat),
    {
        let kept: u32 = (len as u64 % 0x1_0000_0000) as u32;
        let end: u32 = match address.checked_add(kept) {
            Some(end) => end,
            None => return false,
        };
        if !self.flash_erased {
            return false;
        }
        let mut i: usize = 0;
        while i < self.programmed_flash_ranges.len()
            invariant
                self.flash_erased,
                end == address + protocol::kept_len(len as nat),
                i <= self.programmed_flash_ranges@.len(),
                forall|j: int|
                    0 <= j < i ==> {
                        let range = #[trigger] self@.flash.ranges[j];
                        range.end <= address || end <= range.start
                    },
            decreases self.programmed_flash_ranges@.len() - i,
        {
            let range = self.programmed_flash_ranges[i];
            assert(range == self@.flash.ranges[i as int]);
            if !(range.end <= address || end <= range.start) {
                return false;
            }
            i = i + 1;
        }
        true
    }

    /// Keeps in mind that the flash from `address` on has been programmed.
    pub fn mark_programmed_flash_range(&mut self, address: u32, len: usize)
        ensures
            final(self)@ == (ProbeView {
                flash: protocol::marked(old(self)@.flash, address, len as nat),
                ..old(self)@
            }),
    {
        let kept: u32 = (len as u64 % 0x1_0000_0000) as u32;
        if let Some(end) = address.checked_add(kept) {
            if end > address {
                self.programmed_flash_ranges.push(FlashRange { start: address, end });
            }
        }
    }

    /// Erases the sector at `start` and programs `content` there.
    fn replace_sector(&mut self, start: u32, content: &[u8]) -> (result: Result<
        (),
        DebugProbeError,
    >)
        requires
            start + content@.len() <= 0x1_0000_0000,
        ensures
            session::went_on(old(self)@, final(self)@),
            session::only_flash(old(self)@, final(self)@, final(self)@.flash),
            protocol::replaces_sector(
                old(self)@.flash,
                start as nat,
                content@,
                session::since(old(self)@, final(self)@),
                result,
                final(self)@.flash,
            ),
    {
        proof {
            reveal(protocol::replaces_sector);
            reveal(protocol::erases_sector);
        }
        let ghost first = self@;
        let erased = self.erase_sws_flash_sector(start);
        let ghost middle = self@;
        let ghost erasing = session::since(first, middle);
        match erased {
            Ok(()) => {},
            Err(error) => {
                proof {
                    assert(erasing.take(erasing.len() as int) =~= erasing);
                    assert(protocol::erases_sector(
                        start as nat,
                        erasing.take(erasing.len() as int),
                        erased,
                    ));
                }
                return Err(error);
            },
        }
        let programmed = self.program_sws_flash_range(start, content);
        let ghost last = self@;
        proof {
            let t = session::since(first, last);
            session::lemma_went_on(first, middle, last);
            assert(t.take(erasing.len() as int) =~= erasing);
            assert(t.skip(erasing.len() as int) =~= session::since(middle, last));
            assert(protocol::erases_sector(start as nat, t.take(erasing.len() as int), erased));
        }
        match programmed {
            Ok(()) => {},
            Err(error) => return Err(error),
        }
        self.mark_programmed_flash_range(start, content.len());
        proof {
            session::lemma_same_session(first, last, self@);
        }
        programmed
    }

    /// Writes `chunk`, which lies in one sector, at `address`.
    fn write_in_sector(&mut self, address: u32, chunk: &[u8]) -> (result: Result<
        (),
        DebugProbeError,
    >)
        requires
            0 < chunk@.len(),
            address % 4096 + chunk@.len() <= 4096,
        ensures
            session::went_on(old(self)@, final(self)@),
            session::only_flash(old(self)@, final(self)@, final(self)@.flash),
            protocol::writes_in_sector(
                old(self)@.flash,
                address as nat,
                chunk@,
                session::since(old(self)@, final(self)@),
                result,
                final(self)@.flash,
            ),
    {
        proof {
            reveal(protocol::writes_in_sector);
            protocol::lemma_reads_fit(address as nat, chunk@.len());
        }
        let ghost first = self@;
        let offset: u32 = address % (FLASH_SECTOR_SIZE as u32);
        let start: u32 = address - offset;
        if offset == 0 && chunk.len() == FLASH_SECTOR_SIZE {
            return self.replace_sector(start, chunk);
        }
        let mut current: Vec<u8> = vec![0u8; chunk.len()];
        let read = self.read_sws_flash_range(address, current.as_mut_slice());
        let ghost middle = self@;
        let ghost reading = session::since(first, middle);
        match read {
            Ok(()) => {},
            Err(error) => return Err(error),
        }
        let ghost len = chunk@.len();
        proof {
            let none = Seq::<Entry>::empty();
            protocol::lemma_read_done(address as nat, len, reading, read, none, Ok(()));
            assert(reading + none =~= reading);
            assert(current@ =~= protocol::bytes_read(reading, len));
        }
        if same_bytes(current.as_slice(), chunk) {
            return Ok(());
        }
        if Self::bytes_can_be_programmed_without_erase(current.as_slice(), chunk) {
            let programmed = self.program_sws_flash_range(address, chunk);
            let ghost last = self@;
            proof {
                let rest = session::since(middle, last);
                session::lemma_went_on(first, middle, last);
                protocol::lemma_read_done(address as nat, len, reading, read, rest, programmed);
            }
            match programmed {
                Ok(()) => {},
                Err(error) => return Err(error),
            }
            self.mark_programmed_flash_range(address, chunk.len());
            proof {
                session::lemma_same_session(first, last, self@);
            }
            return programmed;
        }
        let result = self.rewrite_sector(start, offset as usize, chunk);
        proof {
            let rest = session::since(middle, self@);
            session::lemma_went_on(first, middle, self@);
            protocol::lemma_read_done(address as nat, len, reading, read, rest, result);
        }
        result
    }

    /// Replaces the bytes from `offset` on in the sector at `start` by `part`
    /// and keeps the others.
    fn rewrite_sector(&mut self, start: u32, offset: usize, part: &[u8]) -> (result: Result<
        (),
        DebugProbeError,
    >)
        requires
            start % 4096 == 0,
            offset + part@.len() <= 4096,
        ensures
            session::went_on(old(self)@, final(self)@),
            session::only_flash(old(self)@, final(self)@, final(self)@.flash),
            protocol::rewrites_sector(
                old(self)@.flash,
                start as nat,
                offset as int,
                part@,
                session::since(old(self)@, final(self)@),
                result,
                final(self)@.flash,
            ),
    {
        proof {
            reveal(protocol::rewrites_sector);
            protocol::lemma_reads_fit(start as nat, FLASH_SECTOR_SIZE as nat);
        }
        let ghost first = self@;
        let mut sector: Vec<u8> = vec![0xffu8; FLASH_SECTOR_SIZE];
        let read = self.read_sws_flash_sector(start, sector.as_mut_slice());
        let ghost middle = self@;
        let ghost reading = session::since(first, middle);
        match read {
            Ok(()) => {},
            Err(error) => return Err(error),
        }
        let ghost content = sector@;
        proof {
            assert(content =~= protocol::bytes_read(reading, 4096));
        }
        let mut i: usize = 0;
        while i < part.len()
            invariant
                i <= part@.len(),
                offset + part@.len() <= 4096,
                sector@.len() == content.len() == 4096,
                sector@ == protocol::with_part(content, offset as int, part@.take(i as int)),
            decreases part@.len() - i,
        {
            sector.set(offset + i, part[i]);
            i = i + 1;
            assert(sector@ =~= protocol::with_part(content, offset as int, part@.take(i as int)));
        }
        assert(part@.take(i as int) =~= part@);
        let result = self.replace_sector(start, sector.as_slice());
        proof {
            let rest = session::since(middle, self@);
            session::lemma_went_on(first, middle, self@);
            protocol::lemma_read_done(start as nat, 4096, reading, read, rest, result);
        }
        result
    }

    /// Sends the configuration of the single wire: the bit divider and the
    /// number of address bytes.
    pub fn send_swire_config(&mut self, swdiv: u8, swaddrlen: u8) -> (result: Result<
        (),
        DebugProbeError,
    >)
        ensures
            session::only_session(old(self)@, final(self)@),
            protocol::configures(
                swdiv,
                swaddrlen,
                session::since(old(self)@, final(self)@),
                result,
            ),
    {
        let request = [
            CMD_FUNCS,
            CMDF_SWIRE_CFG,
            0,
            0,
            swdiv,
            swaddrlen,
            0x5a,
            0x00,
            0x06,
            0x02,
            0x00,
            0x05,
        ];
        assert(request@ =~= protocol::swire_config_request(swdiv, swaddrlen));
        match self.command(request.as_slice(), 14) {
            Ok(_) => Ok(()),
            Err(error) => Err(error),
        }
    }

    /// Configures the single wire, and with it the speed.
    pub fn set_swire_config(&mut self, swdiv: u8, swaddrlen: u8) -> (result: Result<
        (),
        DebugProbeError,
    >)
        requires
            swdiv != 0,
        ensures
            session::went_on(old(self)@, final(self)@),
            protocol::configures(
                swdiv,
                swaddrlen,
                session::since(old(self)@, final(self)@),
                result,
            ),
            session::only_speed(
                old(self)@,
                final(self)@,
                if result is Ok {
                    protocol::speed_of(swdiv)
                } else {
                    old(self)@.speed_khz as int
                },
            ),
    {
        let ghost first = self@;
        match self.send_swire_config(swdiv, swaddrlen) {
            Ok(()) => {},
            Err(error) => return Err(error),
        }
        let ghost last = self@;
        let speed: u32 = 4_800 / swdiv as u32;
        self.speed_khz = if speed < 1 { 1 } else { speed };
        proof {
            session::lemma_same_session(first, last, self@);
        }
        Ok(())
    }

    /// Sets the level of the reset pin.
    pub fn set_reset_pin(&mut self, enabled: bool) -> (result: Result<(), DebugProbeError>)
        ensures
            session::only_session(old(self)@, final(self)@),
            protocol::sets_reset_pin(enabled, session::since(old(self)@, final(self)@), result),
    {
        let request = [CMD_FUNCS, CMDF_EXT_POWER, if enabled { 1 } else { 0 }, 0];
        assert(request@ =~= protocol::reset_pin_request(enabled));
        match self.command(request.as_slice(), 7) {
            Ok(_) => Ok(()),
            Err(error) => Err(error),
        }
    }

    /// Has the target activated with `count` frames. The header of the reply
    /// announces how many bytes follow it.
    pub fn activate(&mut self, count: u16) -> (result: Result<(), DebugProbeError>)
        ensures
            session::only_session(old(self)@, final(self)@),
            protocol::activates(count, session::since(old(self)@, final(self)@), result),
    {
        let request = [CMD_FUNCS, CMDF_SWIRE_ACTIVATE, (count % 256) as u8, (count / 256) as u8];
        proof {
            bytes::lemma_le_two(count as nat);
            assert(request@ =~= protocol::activate_request(count));
        }
        let answer = self.activation_reply(request.as_slice());
        match answer {
            Ok(_) => Ok(()),
            Err(error) => Err(error),
        }
    }

    /// Sends the activation `request` and reads the reply to it.
    fn activation_reply(&mut self, request: &[u8]) -> (result: Result<Vec<u8>, DebugProbeError>)
        requires
            request@.len() > 0,
        ensures
            session::only_session(old(self)@, final(self)@),
            ({
                let steps = session::since(old(self)@, final(self)@);
                &&& steps.len() == 1
                &&& transport::is_activation(steps[0], request@)
                &&& transport::reply_of(steps[0]) == session::outcome_view(result)
            }),
    {
        let ghost first = self@;
        let ghost none: Seq<IoEvent> = Seq::empty();
        let sent = self.send(request);
        let ghost written = self@;
        let ghost sending = session::events_since(first, written);
        match sent {
            Ok(()) => {},
            Err(error) => {
                proof {
                    self.log@ = session::lemma_activation(
                        first,
                        self@,
                        request@,
                        sending,
                        none,
                        none,
                        Err(error),
                    );
                }
                return Err(error);
            },
        }
        let head = self.read_exact_response(HEADER_LEN, request[0]);
        let ghost announced = self@;
        let ghost reply = session::events_since(written, announced);
        proof {
            session::lemma_only_events(first, written, announced);
        }
        let header = match head {
            Ok(header) => header,
            Err(error) => {
                proof {
                    self.log@ = session::lemma_activation(
                        first,
                        self@,
                        request@,
                        sending,
                        reply,
                        none,
                        Err(error),
                    );
                }
                return Err(error);
            },
        };
        let payload_len: usize = Self::response_count(header.as_slice()) as usize;
        let payload = self.read_exact_bytes(payload_len);
        let ghost rest = session::events_since(announced, self@);
        proof {
            session::lemma_only_events(first, announced, self@);
        }
        let mut response = header;
        let result = match payload {
            Ok(payload) => {
                response.extend_from_slice(payload.as_slice());
                assert(response@ =~= header@ + payload@);
                if !crc_valid(response.as_slice()) {
                    Err(DebugProbeError::InvalidActivateCrc)
                } else if response[1] != ERR_NONE {
                    Err(DebugProbeError::ActivateFailed(response[1]))
                } else {
                    Ok(response)
                }
            },
            Err(error) => Err(error),
        };
        proof {
            self.log@ = session::lemma_activation(
                first,
                self@,
                request@,
                sending,
                reply,
                rest,
                session::outcome_view(result),
            );
        }
        result
    }

    /// Has the target activated with `initial` frames and, should that fail,
    /// with `recovery` frames after a reset.
    pub fn attach_with_recovery(&mut self, initial: u16, recovery: u16) -> (result: Result<
        (),
        DebugProbeError,
    >)
        ensures
            session::only_session(old(self)@, final(self)@),
            protocol::activates_or_recovers(
                initial,
                recovery,
                session::since(old(self)@, final(self)@),
                result,
            ),
    {
        let ghost first = self@;
        if self.activate(initial).is_ok() {
            return Ok(());
        }
        let ghost second = self@;
        let held = self.set_reset_pin(true);
        let ghost third = self@;
        proof {
            session::lemma_went_on(first, second, third);
            assert(session::since(first, third).skip(1) =~= session::since(second, third));
        }
        match held {
            Ok(()) => {},
            Err(error) => return Err(error),
        }
        self.pause(RECOVERY_RESET_MS);
        let ghost fourth = self@;
        let released = self.set_reset_pin(false);
        let ghost fifth = self@;
        proof {
            session::lemma_went_on(first, third, fourth);
            session::lemma_went_on(first, fourth, fifth);
            let t = session::since(first, fifth);
            assert(t.subrange(1, 2) =~= session::since(second, third));
            assert(t.skip(3) =~= session::since(fourth, fifth));
        }
        match released {
            Ok(()) => {},
            Err(error) => return Err(error),
        }
        let result = self.activate(recovery);
        proof {
            session::lemma_went_on(first, fifth, self@);
            let t = session::since(first, self@);
            assert(t.subrange(1, 2) =~= session::since(second, third));
            assert(t.subrange(3, 4) =~= session::since(fourth, fifth));
            assert(t.skip(4) =~= session::since(fifth, self@));
        }
        result
    }

    /// The transport.
    pub fn io(&self) -> (io: &T)
        ensures
            *io == self@.transport,
    {
        self.link.io()
    }

    /// The endpoint that the probe was opened at.
    pub fn endpoint(&self) -> (endpoint: &str)
        ensures
            endpoint@ == self@.endpoint,
    {
        self.endpoint.as_str()
    }

    /// Whether the probe is attached.
    pub fn is_attached(&self) -> (attached: bool)
        ensures
            attached == self@.attached,
    {
        self.attached
    }

    /// The name of this kind of probe.
    pub fn get_name(&self) -> (name: &str)
        ensures
            name@ == "Telink SWS Programmer"@,
    {
        "Telink SWS Programmer"
    }

    /// The speed of the single wire, in kHz.
    pub fn speed_khz(&self) -> (speed_khz: u32)
        ensures
            speed_khz == self@.speed_khz,
    {
        self.speed_khz
    }

    /// Sets the speed as close to `speed_khz` as the divider allows, and tells
    /// what it is then.
    pub fn set_speed(&mut self, speed_khz: u32) -> (result: Result<u32, DebugProbeError>)
        ensures
            session::went_on(old(self)@, final(self)@),
            ({
                let swdiv = protocol::divider_of(speed_khz) as u8;
                let t = session::since(old(self)@, final(self)@);
                match result {
                    Ok(speed) => {
                        &&& protocol::configures(swdiv, SWIRE_ADDRESS_LEN, t, Ok(()))
                        &&& speed == protocol::speed_of(swdiv)
                        &&& session::only_speed(old(self)@, final(self)@, speed as int)
                    },
                    Err(error) => {
                        &&& protocol::configures(swdiv, SWIRE_ADDRESS_LEN, t, Err(error))
                        &&& session::only_session(old(self)@, final(self)@)
                    },
                }
            }),
    {
        let wanted: u32 = if speed_khz < 1 { 1 } else { speed_khz };
        let divider: u32 = 4_800 / wanted;
        let swdiv: u8 = if divider < 1 {
            1
        } else if divider > 255 {
            255
        } else {
            divider as u8
        };
        match self.set_swire_config(swdiv, SWIRE_ADDRESS_LEN) {
            Ok(()) => Ok(self.speed_khz),
            Err(error) => Err(error),
        }
    }

    /// Attaches to the target.
    pub fn attach(&mut self) -> (result: Result<(), DebugProbeError>)
        ensures
            session::went_on(old(self)@, final(self)@),
            protocol::attaches(session::since(old(self)@, final(self)@), result),
            final(self)@ == (ProbeView {
                log: final(self)@.log,
                transport: final(self)@.transport,
                events: final(self)@.events,
                speed_khz: if session::since(old(self)@, final(self)@).len() > 2 {
                    protocol::speed_of(ATTACH_SWDIV) as u32
                } else {
                    old(self)@.speed_khz
                },
                attached: result is Ok || old(self)@.attached,
                ..old(self)@
            }),
    {
        let ghost first = self@;
        match self.get_version() {
            Ok(_) => {},
            Err(error) => return Err(error),
        }
        let ghost second = self@;
        let configured = self.set_swire_config(ATTACH_SWDIV, SWIRE_ADDRESS_LEN);
        let ghost third = self@;
        proof {
            session::lemma_went_on(first, second, third);
            assert(session::since(first, third).take(1) =~= session::since(first, second));
            assert(session::since(first, third).skip(1) =~= session::since(second, third));
        }
        match configured {
            Ok(()) => {},
            Err(error) => return Err(error),
        }
        let released = self.set_reset_pin(false);
        let ghost fourth = self@;
        proof {
            session::lemma_went_on(first, third, fourth);
            let t = session::since(first, fourth);
            assert(t.take(1) =~= session::since(first, second));
            assert(t.subrange(1, 2) =~= session::since(second, third));
            assert(t.skip(2) =~= session::since(third, fourth));
        }
        match released {
            Ok(()) => {},
            Err(error) => return Err(error),
        }
        let activated = self.attach_with_recovery(ATTACH_ACTIVATIONS, RECOVERY_ACTIVATIONS);
        let ghost last = self@;
        proof {
            session::lemma_went_on(first, fourth, last);
            let t = session::since(first, last);
            assert(t.take(1) =~= session::since(first, second));
            assert(t.subrange(1, 2) =~= session::since(second, third));
            assert(t.subrange(2, 3) =~= session::since(third, fourth));
            assert(t.skip(3) =~= session::since(fourth, last));
        }
        match activated {
            Ok(()) => {},
            Err(error) => return Err(error),
        }
        self.attached = true;
        proof {
            session::lemma_same_session(first, last, self@);
        }
        Ok(())
    }

    /// Detaches from the target.
    pub fn detach(&mut self) -> (result: Result<(), Error>)
        ensures
            result is Ok,
            final(self)@ == (ProbeView { attached: false, ..old(self)@ }),
    {
        self.attached = false;
        Ok(())
    }

    /// Resets the target with the reset pin.
    pub fn target_reset(&mut self) -> (result: Result<(), DebugProbeError>)
        ensures
            session::only_session(old(self)@, final(self)@),
            protocol::resets(session::since(old(self)@, final(self)@), result),
    {
        let ghost first = self@;
        match self.set_reset_pin(true) {
            Ok(()) => {},
            Err(error) => return Err(error),
        }
        let ghost middle = self@;
        let result = self.set_reset_pin(false);
        proof {
            session::lemma_went_on(first, middle, self@);
            assert(session::since(first, self@).take(1) =~= session::since(first, middle));
            assert(session::since(first, self@).skip(1) =~= session::since(middle, self@));
        }
        result
    }

    /// Holds the target in reset.
    pub fn target_reset_assert(&mut self) -> (result: Result<(), DebugProbeError>)
        ensures
            session::only_session(old(self)@, final(self)@),
            protocol::sets_reset_pin(true, session::since(old(self)@, final(self)@), result),
    {
        self.set_reset_pin(true)
    }

    /// Lets the target out of reset.
    pub fn target_reset_deassert(&mut self) -> (result: Result<(), DebugProbeError>)
        ensures
            session::only_session(old(self)@, final(self)@),
            protocol::sets_reset_pin(false, session::since(old(self)@, final(self)@), result),
    {
        self.set_reset_pin(false)
    }

    /// Selects the protocol on the wire. There is only one.
    pub fn select_protocol(&mut self, protocol: WireProtocol) -> (result: Result<
        (),
        DebugProbeError,
    >)
        ensures
            *final(self) == *old(self),
            match protocol {
                WireProtocol::Swd => result is Ok,
                WireProtocol::Jtag => result == Err::<(), _>(
                    DebugProbeError::UnsupportedProtocol(protocol),
                ),
            },
    {
        match protocol {
            WireProtocol::Swd => Ok(()),
            WireProtocol::Jtag => Err(DebugProbeError::UnsupportedProtocol(protocol)),
        }
    }

    /// The protocol on the wire.
    pub fn active_protocol(&self) -> (protocol: Option<WireProtocol>)
        ensures
            protocol == Some(WireProtocol::Swd),
    {
        Some(WireProtocol::Swd)
    }

    /// Whether a TC32 core can be reached.
    pub fn has_tc32_interface(&self) -> (has: bool)
        ensures
            has,
    {
        true
    }

    /// The interface to the TC32 core.
    pub fn try_get_tc32_interface<'probe>(&'probe mut self) -> (result: Result<
        Tc32CommunicationInterface<'probe, Self>,
        DebugProbeError,
    >)
        ensures
            ({
                &&& result matches Ok(interface)
                &&& interface@.sws == *old(self)
                &&& interface@.calls.len() == 0
                &&& *final(interface.sws) == *final(self)
            }),
    {
        Ok(Tc32CommunicationInterface::new(self))
    }
}

/// Finds Telink SWS programmers.
#[derive(Debug)]
pub struct TelinkSwsFactory;

impl TelinkSwsFactory {
    /// The name of the factory.
    pub fn name(&self) -> (name: &str)
        ensures
            name@ == "TelinkSWS"@,
    {
        "TelinkSWS"
    }

    /// Where to open the probe that was selected, if it was selected by an SWS
    /// endpoint.
    pub fn open(&self, sws_endpoint: Option<&str>) -> (result: Result<Endpoint, DebugProbeError>)
        ensures
            match sws_endpoint {
                Some(name) => result matches Ok(endpoint) && transport::names(endpoint, name@),
                None => result == Err::<Endpoint, _>(
                    DebugProbeError::ProbeCouldNotBeCreated(ProbeCreationError::NotFound),
                ),
            },
    {
        match sws_endpoint {
            Some(name) => Ok(parse_endpoint(name)),
            None => Err(DebugProbeError::ProbeCouldNotBeCreated(ProbeCreationError::NotFound)),
        }
    }

    /// The probes that can be found without being told where: none.
    pub fn list_probes(&self) -> (probes: Vec<Endpoint>)
        ensures
            probes@.len() == 0,
    {
        Vec::new()
    }
}

impl<T: Io> TlsrSwsDebug for TelinkSws<T> {
    open spec fn takes(before: Self, call: SwsCall, after: Self) -> bool {
        let t = session::since(before@, after@);
        match call {
            SwsCall::ReadMemory { address, held, data, outcome } => {
                &&& session::only_session(before@, after@)
                &&& session::fills(CMD_SWIRE_READ, address, t, held, outcome, data)
            },
            SwsCall::ReadFlash { address, held, data, outcome } => {
                &&& session::only_session(before@, after@)
                &&& session::fills(CMD_FLASH_READ, address, t, held, outcome, data)
            },
            SwsCall::WriteMemory { address, data, outcome } => {
                let request = protocol::write_request(CMD_SWIRE_WRITE, address as nat, data);
                &&& session::only_session(before@, after@)
                &&& protocol::performs(request, 6, t, outcome)
            },
            SwsCall::WriteFlash { address, data, outcome } => {
                let flash = after@.flash;
                &&& session::went_on(before@, after@)
                &&& session::only_flash(before@, after@, flash)
                &&& protocol::writes_flash(before@.flash, address, data, t, outcome, flash)
            },
            SwsCall::EraseFlash { outcome } => {
                let flash = if outcome is Ok {
                    protocol::after_erase_all()
                } else {
                    before@.flash
                };
                &&& session::went_on(before@, after@)
                &&& session::only_flash(before@, after@, flash)
                &&& protocol::erases_all(t, outcome)
            },
            SwsCall::Delay { millis } => {
                &&& session::only_session(before@, after@)
                &&& t == seq![Entry::Delayed { millis }]
            },
        }
    }

    fn read_sws_memory(&mut self, address: u32, data: &mut [u8]) -> (result: Result<
        (),
        DebugProbeError,
    >)
        ensures
            session::only_session(old(self)@, final(self)@),
            session::fills(
                CMD_SWIRE_READ,
                address,
                session::since(old(self)@, final(self)@),
                old(data)@,
                result,
                final(data)@,
            ),
    {
        self.read_with(CMD_SWIRE_READ, address, data)
    }

    fn read_sws_flash(&mut self, address: u32, data: &mut [u8]) -> (result: Result<
        (),
        DebugProbeError,
    >)
        ensures
            session::only_session(old(self)@, final(self)@),
            session::fills(
                CMD_FLASH_READ,
                address,
                session::since(old(self)@, final(self)@),
                old(data)@,
                result,
                final(data)@,
            ),
    {
        self.read_with(CMD_FLASH_READ, address, data)
    }

    fn write_sws_memory(&mut self, address: u32, data: &[u8]) -> (result: Result<
        (),
        DebugProbeError,
    >)
        ensures
            session::only_session(old(self)@, final(self)@),
            ({
                let t = session::since(old(self)@, final(self)@);
                &&& t.len() == 1
                &&& transport::is_command(
                    t[0],
                    protocol::write_request(CMD_SWIRE_WRITE, address as nat, data@),
                    6,
                )
                &&& match transport::reply_of(t[0]) {
                    Err(error) => result == Err::<(), _>(error),
                    Ok(_) => result is Ok,
                }
            }),
    {
        let mut request = Self::addressed(CMD_SWIRE_WRITE, address);
        request.extend_from_slice(data);
        assert(request@ =~= protocol::write_request(CMD_SWIRE_WRITE, address as nat, data@));
        match self.command(request.as_slice(), 6) {
            Ok(_) => Ok(()),
            Err(error) => Err(error),
        }
    }

    fn write_sws_flash(&mut self, address: u32, data: &[u8]) -> (result: Result<
        (),
        DebugProbeError,
    >)
        ensures
            session::went_on(old(self)@, final(self)@),
            session::only_flash(old(self)@, final(self)@, final(self)@.flash),
            protocol::writes_flash(
                old(self)@.flash,
                address,
                data@,
                session::since(old(self)@, final(self)@),
                result,
                final(self)@.flash,
            ),
    {
        let ghost first = self@;
        if self.can_assume_flash_range_erased(address, data.len()) {
            let programmed = self.program_sws_flash_range(address, data);
            match programmed {
                Ok(()) => {},
                Err(error) => return Err(error),
            }
            let ghost last = self@;
            self.mark_programmed_flash_range(address, data.len());
            proof {
                session::lemma_same_session(first, last, self@);
            }
            return programmed;
        }
        let mut done: usize = 0;
        proof {
            session::lemma_stayed(first, self@);
            protocol::lemma_writes_begin(first.flash, address as nat, data@);
            assert(data@.skip(0) =~= data@);
        }
        while done < data.len()
            invariant
                first == old(self)@,
                session::went_on(first, self@),
                session::only_flash(first, self@, self@.flash),
                !protocol::assumes_erased(first.flash, address, data@.len()),
                done <= data@.len(),
                address + data@.len() <= 0x1_0000_0000,
                protocol::writes_on(
                    first.flash,
                    address as nat,
                    data@,
                    session::since(first, self@),
                    self@.flash,
                    (address + done) as nat,
                    data@.skip(done as int),
                ),
            decreases data@.len() - done,
        {
            let at: u32 = address + done as u32;
            let left: usize = data.len() - done;
            let room: usize = FLASH_SECTOR_SIZE - (at as usize) % FLASH_SECTOR_SIZE;
            let n: usize = if left < room { left } else { room };
            let chunk = slice_subrange(data, done, done + n);
            let ghost todo = data@.skip(done as int);
            let ghost middle = self@;
            proof {
                assert(chunk@ =~= todo.take(n as int));
                assert(todo.skip(n as int) =~= data@.skip(done + n));
                assert(n == protocol::fits(at as nat, todo.len(), FLASH_SECTOR_SIZE as nat));
            }
            let written = self.write_in_sector(at, chunk);
            proof {
                session::lemma_went_on(first, middle, self@);
            }
            match written {
                Ok(()) => {
                    proof {
                        protocol::lemma_writes_sector(
                            first.flash,
                            address as nat,
                            data@,
                            session::since(first, middle),
                            middle.flash,
                            at as nat,
                            todo,
                            session::since(middle, self@),
                            self@.flash,
                            written,
                        );
                    }
                },
                Err(error) => {
                    proof {
                        protocol::lemma_writes_failed(
                            first.flash,
                            address as nat,
                            data@,
                            session::since(first, middle),
                            middle.flash,
                            at as nat,
                            todo,
                            session::since(middle, self@),
                            self@.flash,
                            error,
                        );
                    }
                    return Err(error);
                },
            }
            done = done + n;
        }
        proof {
            protocol::lemma_writes_end(
                first.flash,
                address as nat,
                data@,
                session::since(first, self@),
                self@.flash,
                (address + done) as nat,
                data@.skip(done as int),
            );
        }
        Ok(())
    }

    fn erase_sws_flash_all(&mut self) -> (result: Result<(), DebugProbeError>)
        ensures
            session::went_on(old(self)@, final(self)@),
            protocol::erases_all(session::since(old(self)@, final(self)@), result),
            session::only_flash(
                old(self)@,
                final(self)@,
                if result is Ok {
                    protocol::after_erase_all()
                } else {
                    old(self)@.flash
                },
            ),
    {
        self.erase_sws_flash_all_inner()
    }

    fn delay_ms(&mut self, millis: u64)
        ensures
            session::only_session(old(self)@, final(self)@),
            session::since(old(self)@, final(self)@) == seq![Entry::Delayed { millis }],
    {
        self.pause(millis)
    }
}

} // verus!
