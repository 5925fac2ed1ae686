//! Telink TC32 cores.

use core::time::Duration;

use vstd::prelude::*;

use crate::bytes::decode_le;
use crate::bytes::decode_word;
use crate::bytes::encode_le;
use crate::error::DebugProbeError;
use crate::error::Error;
use crate::error::Missing;

pub mod calls;
pub mod interface;
pub mod laws;
pub mod registers;
pub mod types;

use self::calls::SwsCall;
use self::calls::BREAKPOINT_LOGICAL_LIMIT;
use self::calls::BREAKPOINT_PHYSICAL_SLOTS;
use self::calls::BREAKPOINT_PROGRAM_SETTLE_MS;
use self::calls::FLASH_ADDRESS_MAX;
use self::calls::MAX_READ_SIZE;
use self::calls::REG_BREAKPOINTS;
use self::calls::REG_DEBUG_CONTROL;
use self::calls::REG_DEBUG_STEP;
use self::calls::REG_PC;
use self::calls::REG_SNAPSHOT;
pub use self::interface::Tc32CommunicationInterface;
use self::registers::core_registers;
use self::registers::register;
use self::registers::CoreRegister;
use self::registers::LR;
use self::registers::PC;
use self::registers::R7;
use self::registers::REGISTER_COUNT;
use self::registers::SP;
use self::types::Architecture;
use self::types::BreakpointCause;
use self::types::CoreInformation;
use self::types::CoreStatus;
use self::types::CoreType;
use self::types::HaltReason;
use self::types::InstructionSet;
use self::types::RegisterId;
use self::types::RegisterValue;

verus! {

/// SWS operations required by the TC32 core implementation.
///
/// No slice is longer than `isize::MAX` bytes, and none changes its length.
pub trait TlsrSwsDebug: Sized {
    /// Whether `call` may take the implementation from `before` to `after`.
    /// What that means is up to the implementation; one that does not say
    /// promises nothing.
    open spec fn takes(before: Self, call: SwsCall, after: Self) -> bool {
        true
    }

    /// Reads SRAM or register-mapped memory over SWS.
    fn read_sws_memory(&mut self, address: u32, data: &mut [u8]) -> (outcome: Result<
        (),
        DebugProbeError,
    >)
        requires
            old(data)@.len() <= isize::MAX,
        ensures
            final(data)@.len() == old(data)@.len(),
            Self::takes(
                *old(self),
                SwsCall::ReadMemory { address, held: old(data)@, data: final(data)@, outcome },
                *final(self),
            ),
    ;

    /// Reads flash with the programmer's flash read command.
    fn read_sws_flash(&mut self, address: u32, data: &mut [u8]) -> (outcome: Result<
        (),
        DebugProbeError,
    >)
        requires
            old(data)@.len() <= isize::MAX,
        ensures
            final(data)@.len() == old(data)@.len(),
            Self::takes(
                *old(self),
                SwsCall::ReadFlash { address, held: old(data)@, data: final(data)@, outcome },
                *final(self),
            ),
    ;

    /// Writes SRAM or register-mapped memory over SWS.
    fn write_sws_memory(&mut self, address: u32, data: &[u8]) -> (outcome: Result<
        (),
        DebugProbeError,
    >)
        ensures
            Self::takes(
                *old(self),
                SwsCall::WriteMemory { address, data: data@, outcome },
                *final(self),
            ),
    ;

    /// Writes `data`, which has to lie in the 32-bit address space, to flash.
    fn write_sws_flash(&mut self, address: u32, data: &[u8]) -> (outcome: Result<
        (),
        DebugProbeError,
    >)
        requires
            address + data@.len() <= 0x1_0000_0000,
        ensures
            Self::takes(
                *old(self),
                SwsCall::WriteFlash { address, data: data@, outcome },
                *final(self),
            ),
    ;

    /// Erases all flash.
    fn erase_sws_flash_all(&mut self) -> (outcome: Result<(), DebugProbeError>)
        ensures
            Self::takes(*old(self), SwsCall::EraseFlash { outcome }, *final(self)),
    ;

    /// Waits for `millis` milliseconds.
    fn delay_ms(&mut self, millis: u64)
        ensures
            Self::takes(*old(self), SwsCall::Delay { millis }, *final(self)),
    ;
}

impl<'probe, S: TlsrSwsDebug> Tc32CommunicationInterface<'probe, S> {
    /// Fills `data` from the memory at `address`.
    pub fn read_memory(&mut self, address: u64, data: &mut [u8]) -> (result: Result<(), Error>)
        ensures
            *final(final(self).sws) == *final(old(self).sws),
            calls::called_on(old(self)@, final(self)@),
            ({
                let t = calls::calls_since(old(self)@, final(self)@);
                &&& calls::reads_memory(address, old(data)@, t, result)
                &&& final(data)@ == calls::filled(old(data)@, t)
            }),
    {
        let ghost first = self@;
        let len: usize = data.len();
        let mut offset: usize = 0;
        proof {
            calls::lemma_no_calls(first);
        }
        while offset < len
            invariant
                first == old(self)@,
                *final(self.sws) == *final(old(self).sws),
                calls::called_on(first, self@),
                data@.len() == len == old(data)@.len(),
                offset <= len,
                ({
                    let t = calls::calls_since(first, self@);
                    &&& offset == len || offset == 1024 * t.len()
                    &&& t.len() == calls::read_count(offset as nat)
                    &&& forall|i: int|
                        0 <= i < t.len() ==> calls::is_read(
                            #[trigger] t[i],
                            address + 1024 * i,
                            calls::read_part(old(data)@, i),
                        )
                    &&& forall|i: int|
                        0 <= i < t.len() ==> calls::outcome_of(#[trigger] t[i]) is Ok
                    &&& data@ == calls::filled(old(data)@, t)
                }),
            decreases len - offset,
        {
            let left: usize = len - offset;
            let n: usize = if left < MAX_READ_SIZE { left } else { MAX_READ_SIZE };
            let ghost middle = self@;
            let ghost t = calls::calls_since(first, middle);
            let ghost before = data@;
            proof {
                reveal(calls::reads_memory);
            }
            let at: u64 = match address.checked_add(offset as u64) {
                Some(at) => at,
                None => return Err(Error::AddressOverflow),
            };
            if at > 0xffff_ffff {
                return Err(Error::AddressOutOfRange(at));
            }
            let (_, tail) = data.split_at_mut(offset);
            let (chunk, _) = tail.split_at_mut(n);
            let outcome = if at < FLASH_ADDRESS_MAX {
                self.read_flash(at as u32, chunk)
            } else {
                self.read_direct(at as u32, chunk)
            };
            let ghost call = calls::calls_since(middle, self@)[0];
            proof {
                calls::lemma_called_on(first, middle, self@);
                assert(calls::calls_since(first, self@) =~= t.push(call));
                assert(calls::held_by(call) =~= calls::read_part(old(data)@, t.len() as int));
                assert(forall|i: int| 0 <= i < t.len() ==> t.push(call)[i] == t[i]);
                assert(n == calls::read_len(len as nat, t.len() as int));
                assert forall|j: int| 0 <= j < len implies data@[j] == calls::filled(
                    old(data)@,
                    t.push(call),
                )[j] by {
                    if offset <= j < offset + n {
                        assert(data@[j] == calls::data_of(call)[j - offset]);
                        assert(j / 1024 == t.len());
                    } else {
                        assert(data@[j] == before[j]);
                    }
                }
                assert(data@ =~= calls::filled(old(data)@, t.push(call)));
            }
            match outcome {
                Ok(()) => {},
                Err(error) => return Err(Error::Probe(error)),
            }
            offset = offset + n;
        }
        proof {
            reveal(calls::reads_memory);
        }
        Ok(())
    }

    /// Writes `data` to the memory at `address`.
    pub fn write_memory(&mut self, address: u64, data: &[u8]) -> (result: Result<(), Error>)
        ensures
            *final(final(self).sws) == *final(old(self).sws),
            calls::called_on(old(self)@, final(self)@),
            calls::writes_memory(
                address,
                data@,
                calls::calls_since(old(self)@, final(self)@),
                result,
            ),
    {
        let ghost first = self@;
        if address > 0xffff_ffff {
            proof {
                calls::lemma_no_calls(first);
            }
            return Err(Error::AddressOutOfRange(address));
        }
        let outcome = self.write_direct(address as u32, data);
        match outcome {
            Ok(()) => Ok(()),
            Err(error) => Err(Error::Probe(error)),
        }
    }

    /// Reads the program counter.
    pub fn read_pc(&mut self) -> (result: Result<u32, Error>)
        ensures
            *final(final(self).sws) == *final(old(self).sws),
            calls::called_on(old(self)@, final(self)@),
            calls::reads_pc(calls::calls_since(old(self)@, final(self)@), result),
    {
        let mut bytes: Vec<u8> = vec![0u8; 4];
        assert(bytes@ =~= calls::zeros(4));
        let outcome = self.read_direct(REG_PC, bytes.as_mut_slice());
        proof {
            crate::bytes::law_le_encode_decode(bytes@);
            crate::bytes::lemma_bound_four();
        }
        match outcome {
            Ok(()) => Ok(decode_le(bytes.as_slice()) as u32),
            Err(error) => Err(Error::Probe(error)),
        }
    }
}

/// What is remembered of a core between two uses of it.
#[derive(Debug)]
pub struct Tc32CoreState {
    pub hardware_breakpoints: [Option<u64>; 3],
    pub breakpoints_enabled: bool,
    pub status: CoreStatus,
}

impl Tc32CoreState {
    /// A core of which nothing is known: no breakpoint is set, and breakpoints
    /// are enabled.
    pub fn new() -> (state: Self)
        ensures
            state.hardware_breakpoints@ == seq![None::<u64>, None, None],
            state.breakpoints_enabled,
            state.status is Unknown,
    {
        let state = Tc32CoreState {
            hardware_breakpoints: [None, None, None],
            breakpoints_enabled: true,
            status: CoreStatus::Unknown,
        };
        assert(state.hardware_breakpoints@ =~= seq![None::<u64>, None, None]);
        state
    }
}

/// A TC32 core reached through its debug registers.
pub struct Tc32<'probe, S: TlsrSwsDebug> {
    pub interface: Tc32CommunicationInterface<'probe, S>,
    pub state: &'probe mut Tc32CoreState,
}

impl<'probe, S: TlsrSwsDebug> Tc32<'probe, S> {
    /// The core that `interface` reaches.
    pub fn new(
        interface: Tc32CommunicationInterface<'probe, S>,
        state: &'probe mut Tc32CoreState,
    ) -> (core: Self)
        ensures
            core.interface == interface,
            *core.state == *old(state),
            *final(core.state) == *final(state),
    {
        Tc32 { interface, state }
    }

    /// Sets the debug control register.
    pub fn write_debug_control(&mut self, value: u8) -> (result: Result<(), Error>)
        ensures
            *final(final(self).interface.sws) == *final(old(self).interface.sws),
            *final(final(self).state) == *final(old(self).state),
            *final(self).state == *old(self).state,
            calls::called_on(old(self).interface@, final(self).interface@),
            calls::controls(
                value,
                calls::calls_since(old(self).interface@, final(self).interface@),
                result,
            ),
    {
        let data = [value];
        assert(data@ =~= seq![value]);
        self.interface.write_memory(REG_DEBUG_CONTROL as u64, data.as_slice())
    }

    /// Sets the breakpoint registers to what the state says.
    pub fn write_breakpoint_payload(&mut self) -> (result: Result<(), Error>)
        ensures
            *final(final(self).interface.sws) == *final(old(self).interface.sws),
            *final(final(self).state) == *final(old(self).state),
            *final(self).state == *old(self).state,
            calls::called_on(old(self).interface@, final(self).interface@),
            calls::writes_breakpoints(
                old(self).state.hardware_breakpoints@,
                old(self).state.breakpoints_enabled,
                calls::calls_since(old(self).interface@, final(self).interface@),
                result,
            ),
    {
        let ghost first = self.interface@;
        let ghost breakpoints = self.state.hardware_breakpoints@;
        let enabled: bool = self.state.breakpoints_enabled;
        let ghost values: Seq<nat> = Seq::new(
            BREAKPOINT_PHYSICAL_SLOTS as nat,
            |slot: int| calls::slot_value(breakpoints, enabled, slot) as nat,
        );
        let mut payload: Vec<u8> = Vec::new();
        let mut slot: usize = 0;
        while slot < BREAKPOINT_PHYSICAL_SLOTS
            invariant
                slot <= 4,
                breakpoints == self.state.hardware_breakpoints@,
                values.len() == 4,
                forall|i: int|
                    0 <= i < 4 ==> #[trigger] values[i] == calls::slot_value(
                        breakpoints,
                        enabled,
                        i,
                    ),
                payload@ == crate::bytes::le_words(values.take(slot as int), 4),
                *final(self.interface.sws) == *final(old(self).interface.sws),
                *final(self.state) == *final(old(self).state),
                *self.state == *old(self).state,
                self.interface@ == first,
            decreases 4 - slot,
        {
            let mut value: u32 = 0;
            if enabled && slot >= 1 {
                if let Some(address) = self.state.hardware_breakpoints[slot - 1] {
                    value = (address % 0x1_0000_0000) as u32 | 0x0100_0000;
                }
            }
            let encoded = encode_le(value as u64, 4);
            payload.extend_from_slice(encoded.as_slice());
            proof {
                let longer = values.take(slot + 1);
                assert(longer.drop_last() =~= values.take(slot as int));
                assert(longer.last() == values[slot as int]);
            }
            slot = slot + 1;
        }
        assert(values.take(4) =~= values);
        let result = self.interface.write_memory(REG_BREAKPOINTS as u64, payload.as_slice());
        let ghost written = self.interface@;
        proof {
            assert(calls::calls_since(first, written).take(1) =~= calls::calls_since(
                first,
                written,
            ));
        }
        match result {
            Ok(()) => {},
            Err(error) => return Err(error),
        }
        self.interface.delay(BREAKPOINT_PROGRAM_SETTLE_MS);
        proof {
            calls::lemma_called_on(first, written, self.interface@);
        }
        result
    }

    /// What is remembered of the core.
    pub open spec fn remembered(&self) -> Tc32CoreState {
        *self.state
    }

    /// The addresses of the breakpoints that the core can stop at.
    pub fn active_breakpoints(&self) -> (addresses: Vec<u64>)
        ensures
            addresses@ == calls::active(
                self.remembered().hardware_breakpoints@,
                self.remembered().breakpoints_enabled,
            ),
    {
        let mut addresses: Vec<u64> = Vec::new();
        if !self.state.breakpoints_enabled {
            return addresses;
        }
        let ghost breakpoints = self.state.hardware_breakpoints@;
        let mut i: usize = 0;
        while i < BREAKPOINT_LOGICAL_LIMIT
            invariant
                i <= 3,
                breakpoints == self.state.hardware_breakpoints@,
                breakpoints.len() == 3,
                addresses@ == calls::addresses(breakpoints.take(i as int)),
            decreases 3 - i,
        {
            proof {
                let longer = breakpoints.take(i + 1);
                assert(longer.drop_last() =~= breakpoints.take(i as int));
                assert(longer.last() == breakpoints[i as int]);
            }
            if let Some(address) = self.state.hardware_breakpoints[i] {
                addresses.push(address);
            }
            i = i + 1;
        }
        assert(breakpoints.take(3) =~= breakpoints);
        addresses
    }

    /// Whether there is a breakpoint that the core can stop at.
    pub fn has_active_breakpoints(&self) -> (has: bool)
        ensures
            has == (calls::active(
                self.remembered().hardware_breakpoints@,
                self.remembered().breakpoints_enabled,
            ).len() > 0),
    {
        self.active_breakpoints().len() > 0
    }

    /// Reads all registers.
    pub fn read_register_snapshot(&mut self) -> (result: Result<[u32; 32], Error>)
        ensures
            *final(final(self).interface.sws) == *final(old(self).interface.sws),
            *final(final(self).state) == *final(old(self).state),
            *final(self).state == *old(self).state,
            calls::called_on(old(self).interface@, final(self).interface@),
            calls::reads_registers(
                calls::calls_since(old(self).interface@, final(self).interface@),
                values_view(result),
            ),
    {
        let ghost first = self.interface@;
        let mut payload: Vec<u8> = vec![0u8; 128];
        assert(payload@ =~= calls::zeros(128));
        let outcome = self.interface.read_direct(REG_SNAPSHOT, payload.as_mut_slice());
        let ghost middle = self.interface@;
        match outcome {
            Ok(()) => {},
            Err(error) => return Err(Error::Probe(error)),
        }
        let mut snapshot = [0u32; 32];
        let mut i: usize = 0;
        while i < 32
            invariant
                i <= 32,
                payload@.len() == 128,
                forall|j: int|
                    0 <= j < i ==> #[trigger] snapshot@[j] == crate::bytes::word_at(
                        payload@,
                        j,
                        4,
                    ),
            decreases 32 - i,
        {
            proof {
                crate::bytes::lemma_bound_four();
            }
            snapshot[i] = decode_word(payload.as_slice(), i, 4) as u32;
            i = i + 1;
        }
        let pc = self.interface.read_pc();
        proof {
            calls::lemma_called_on(first, middle, self.interface@);
        }
        match pc {
            Ok(pc) => {
                snapshot[15] = pc;
                Ok(snapshot)
            },
            Err(error) => Err(error),
        }
    }

    /// Sets the breakpoint registers, then the debug control register.
    fn let_go(&mut self, control: u8) -> (result: Result<(), Error>)
        ensures
            *final(final(self).interface.sws) == *final(old(self).interface.sws),
            *final(final(self).state) == *final(old(self).state),
            *final(self).state == *old(self).state,
            calls::called_on(old(self).interface@, final(self).interface@),
            calls::lets_go(
                old(self).state.hardware_breakpoints@,
                old(self).state.breakpoints_enabled,
                control,
                calls::calls_since(old(self).interface@, final(self).interface@),
                result,
            ),
    {
        let ghost first = self.interface@;
        match self.write_breakpoint_payload() {
            Ok(()) => {},
            Err(error) => return Err(error),
        }
        let ghost middle = self.interface@;
        let result = self.write_debug_control(control);
        proof {
            calls::lemma_called_on(first, middle, self.interface@);
        }
        result
    }

    /// What the core is doing. A running core whose program counter stands at
    /// an active breakpoint has stopped there.
    pub fn status(&mut self) -> (result: Result<CoreStatus, Error>)
        ensures
            *final(final(self).interface.sws) == *final(old(self).interface.sws),
            *final(final(self).state) == *final(old(self).state),
            calls::called_on(old(self).interface@, final(self).interface@),
            ({
                let t = calls::calls_since(old(self).interface@, final(self).interface@);
                calls::observes(*old(self).state, t, result, *final(self).state)
            }),
    {
        let ghost first = self.interface@;
        if let CoreStatus::Running = self.state.status {
            let pc: u64 = match self.interface.read_pc() {
                Ok(pc) => pc as u64,
                Err(error) => return Err(error),
            };
            proof {
                let t = calls::calls_since(first, self.interface@);
                crate::bytes::law_le_encode_decode(calls::data_of(t[0]));
                crate::bytes::lemma_bound_four();
            }
            let addresses = self.active_breakpoints();
            if contains(addresses.as_slice(), pc) {
                self.state.status = CoreStatus::Halted(
                    HaltReason::Breakpoint(BreakpointCause::Hardware),
                );
            }
        } else {
            proof {
                calls::lemma_no_calls(first);
            }
        }
        Ok(self.state.status)
    }

    /// Halts the core.
    pub fn halt(&mut self, _timeout: Duration) -> (result: Result<CoreInformation, Error>)
        ensures
            *final(final(self).interface.sws) == *final(old(self).interface.sws),
            *final(final(self).state) == *final(old(self).state),
            *final(self).state == (Tc32CoreState {
                status: if result is Ok {
                    CoreStatus::Halted(HaltReason::Request)
                } else {
                    old(self).state.status
                },
                ..*old(self).state
            }),
            calls::called_on(old(self).interface@, final(self).interface@),
            calls::halts(
                calls::calls_since(old(self).interface@, final(self).interface@),
                result,
            ),
    {
        let ghost first = self.interface@;
        match self.write_debug_control(0x05) {
            Ok(()) => {},
            Err(error) => return Err(error),
        }
        let ghost middle = self.interface@;
        let pc = self.interface.read_pc();
        proof {
            calls::lemma_called_on(first, middle, self.interface@);
        }
        match pc {
            Ok(pc) => {
                self.state.status = CoreStatus::Halted(HaltReason::Request);
                Ok(CoreInformation { pc: pc as u64 })
            },
            Err(error) => Err(error),
        }
    }

    /// Lets the core run, up to a breakpoint if any is active.
    pub fn run(&mut self) -> (result: Result<(), Error>)
        ensures
            *final(final(self).interface.sws) == *final(old(self).interface.sws),
            *final(final(self).state) == *final(old(self).state),
            *final(self).state == (Tc32CoreState {
                status: if result is Ok {
                    CoreStatus::Running
                } else {
                    old(self).state.status
                },
                ..*old(self).state
            }),
            calls::called_on(old(self).interface@, final(self).interface@),
            calls::lets_go(
                old(self).state.hardware_breakpoints@,
                old(self).state.breakpoints_enabled,
                calls::run_control(
                    old(self).state.hardware_breakpoints@,
                    old(self).state.breakpoints_enabled,
                ),
                calls::calls_since(old(self).interface@, final(self).interface@),
                result,
            ),
    {
        let control: u8 = if self.has_active_breakpoints() { 0x84 } else { 0x08 };
        let result = self.let_go(control);
        if result.is_ok() {
            self.state.status = CoreStatus::Running;
        }
        result
    }

    /// Resets the core and lets it run.
    pub fn reset(&mut self) -> (result: Result<(), Error>)
        ensures
            *final(final(self).interface.sws) == *final(old(self).interface.sws),
            *final(final(self).state) == *final(old(self).state),
            *final(self).state == (Tc32CoreState {
                status: if result is Ok {
                    CoreStatus::Running
                } else {
                    old(self).state.status
                },
                ..*old(self).state
            }),
            calls::called_on(old(self).interface@, final(self).interface@),
            calls::lets_go(
                old(self).state.hardware_breakpoints@,
                old(self).state.breakpoints_enabled,
                0x88,
                calls::calls_since(old(self).interface@, final(self).interface@),
                result,
            ),
    {
        let result = self.let_go(0x88);
        if result.is_ok() {
            self.state.status = CoreStatus::Running;
        }
        result
    }

    /// Resets the core and halts it.
    pub fn reset_and_halt(&mut self, timeout: Duration) -> (result: Result<CoreInformation, Error>)
        ensures
            *final(final(self).interface.sws) == *final(old(self).interface.sws),
            *final(final(self).state) == *final(old(self).state),
            ({
                let t = calls::calls_since(old(self).interface@, final(self).interface@);
                &&& calls::resets_and_halts(
                    old(self).state.hardware_breakpoints@,
                    old(self).state.breakpoints_enabled,
                    t,
                    result,
                )
                &&& *final(self).state == (Tc32CoreState {
                    status: if result is Ok {
                        CoreStatus::Halted(HaltReason::Request)
                    } else if t.len() > 3 {
                        CoreStatus::Running
                    } else {
                        old(self).state.status
                    },
                    ..*old(self).state
                })
            }),
            calls::called_on(old(self).interface@, final(self).interface@),
    {
        let ghost first = self.interface@;
        match self.reset() {
            Ok(()) => {},
            Err(error) => return Err(error),
        }
        let ghost middle = self.interface@;
        let result = self.halt(timeout);
        proof {
            calls::lemma_called_on(first, middle, self.interface@);
        }
        result
    }

    /// Lets the core make a single step.
    pub fn step(&mut self) -> (result: Result<CoreInformation, Error>)
        ensures
            *final(final(self).interface.sws) == *final(old(self).interface.sws),
            *final(final(self).state) == *final(old(self).state),
            *final(self).state == (Tc32CoreState {
                status: if result is Ok {
                    CoreStatus::Halted(HaltReason::Step)
                } else {
                    old(self).state.status
                },
                ..*old(self).state
            }),
            calls::called_on(old(self).interface@, final(self).interface@),
            calls::steps(
                old(self).state.hardware_breakpoints@,
                old(self).state.breakpoints_enabled,
                calls::calls_since(old(self).interface@, final(self).interface@),
                result,
            ),
    {
        let ghost first = self.interface@;
        match self.let_go(0x06) {
            Ok(()) => {},
            Err(error) => return Err(error),
        }
        let ghost second = self.interface@;
        let data = [0x80u8];
        assert(data@ =~= seq![0x80u8]);
        let stepped = self.interface.write_memory(REG_DEBUG_STEP as u64, data.as_slice());
        let ghost third = self.interface@;
        proof {
            calls::lemma_called_on(first, second, third);
        }
        match stepped {
            Ok(()) => {},
            Err(error) => return Err(error),
        }
        let pc = self.interface.read_pc();
        proof {
            let last = self.interface@;
            calls::lemma_called_on(first, third, last);
            let t = calls::calls_since(first, last);
            assert(t.take(3) =~= calls::calls_since(first, second));
            assert(t.subrange(3, 4) =~= calls::calls_since(second, third));
        }
        match pc {
            Ok(pc) => {
                self.state.status = CoreStatus::Halted(HaltReason::Step);
                Ok(CoreInformation { pc: pc as u64 })
            },
            Err(error) => Err(error),
        }
    }

    /// Reads a register. All of them are read for that.
    pub fn read_core_reg(&mut self, address: RegisterId) -> (result: Result<RegisterValue, Error>)
        ensures
            *final(final(self).interface.sws) == *final(old(self).interface.sws),
            *final(final(self).state) == *final(old(self).state),
            *final(self).state == *old(self).state,
            calls::called_on(old(self).interface@, final(self).interface@),
            calls::reads_register(
                address,
                calls::calls_since(old(self).interface@, final(self).interface@),
                result,
            ),
    {
        match self.read_register_snapshot() {
            Ok(snapshot) => {
                let index: usize = address.0 as usize;
                if index < 32 {
                    Ok(RegisterValue::U32(snapshot[index]))
                } else {
                    Err(Error::UnknownRegister(address.0))
                }
            },
            Err(error) => Err(error),
        }
    }

    /// Registers cannot be written.
    pub fn write_core_reg(&mut self, address: RegisterId, _value: RegisterValue) -> (result: Result<
        (),
        Error,
    >)
        ensures
            *final(self) == *old(self),
            result == Err::<(), _>(
                Error::NotImplemented(
                    if address.0 == 15 {
                        Missing::WriteProgramCounter
                    } else {
                        Missing::WriteCoreRegister
                    },
                ),
            ),
    {
        Err(
            Error::NotImplemented(
                if address.0 == 15 {
                    Missing::WriteProgramCounter
                } else {
                    Missing::WriteCoreRegister
                },
            ),
        )
    }

    /// Wide accesses are made of narrow ones.
    pub fn supports_native_64bit_access(&mut self) -> (supports: bool)
        ensures
            !supports,
            *final(self) == *old(self),
    {
        false
    }

    /// Fills `data` with the 64-bit words at `address`.
    pub fn read_64(&mut self, address: u64, data: &mut [u64]) -> (result: Result<(), Error>)
        requires
            old(data)@.len() * 8 <= isize::MAX,
        ensures
            *final(final(self).interface.sws) == *final(old(self).interface.sws),
            *final(final(self).state) == *final(old(self).state),
            *final(self).state == *old(self).state,
            calls::called_on(old(self).interface@, final(self).interface@),
            final(data)@.len() == old(data)@.len(),
            ({
                let t = calls::calls_since(old(self).interface@, final(self).interface@);
                let len = old(data)@.len() * 8;
                &&& calls::reads_words(address, 8, len, t, result)
                &&& forall|i: int|
                    0 <= i < old(data)@.len() ==> #[trigger] final(data)@[i] == if result is Ok {
                        crate::bytes::word_at(calls::bytes_read(t, len), i, 8)
                    } else {
                        old(data)@[i] as nat
                    }
            }),
    {
        if address % 8 != 0 {
            proof {
                calls::lemma_no_calls(self.interface@);
            }
            return Err(Error::MemoryNotAligned { address, alignment: 8 });
        }
        let len: usize = data.len();
        let ghost first = self.interface@;
        let mut bytes: Vec<u8> = vec![0u8; len * 8];
        let ghost zeros = calls::zeros((len * 8) as nat);
        assert(bytes@ =~= zeros);
        let result = self.read_8(address, bytes.as_mut_slice());
        let ghost t = calls::calls_since(first, self.interface@);
        match result {
            Ok(()) => {},
            Err(error) => return Err(error),
        }
        proof {
            calls::lemma_all_filled(address, zeros, t, result);
            assert(bytes@ =~= calls::bytes_read(t, (len * 8) as nat));
        }
        let mut i: usize = 0;
        while i < len
            invariant
                i <= len == data@.len(),
                bytes@.len() == len * 8 <= isize::MAX,
                forall|j: int|
                    0 <= j < i ==> #[trigger] data@[j] == crate::bytes::word_at(bytes@, j, 8),
            decreases len - i,
        {
            data[i] = decode_word(bytes.as_slice(), i, 8);
            i = i + 1;
        }
        result
    }

    /// Fills `data` with the 32-bit words at `address`.
    pub fn read_32(&mut self, address: u64, data: &mut [u32]) -> (result: Result<(), Error>)
        requires
            old(data)@.len() * 4 <= isize::MAX,
        ensures
            *final(final(self).interface.sws) == *final(old(self).interface.sws),
            *final(final(self).state) == *final(old(self).state),
            *final(self).state == *old(self).state,
            calls::called_on(old(self).interface@, final(self).interface@),
            final(data)@.len() == old(data)@.len(),
            ({
                let t = calls::calls_since(old(self).interface@, final(self).interface@);
                let len = old(data)@.len() * 4;
                &&& calls::reads_words(address, 4, len, t, result)
                &&& forall|i: int|
                    0 <= i < old(data)@.len() ==> #[trigger] final(data)@[i] == if result is Ok {
                        crate::bytes::word_at(calls::bytes_read(t, len), i, 4)
                    } else {
                        old(data)@[i] as nat
                    }
            }),
    {
        if address % 4 != 0 {
            proof {
                calls::lemma_no_calls(self.interface@);
            }
            return Err(Error::MemoryNotAligned { address, alignment: 4 });
        }
        let len: usize = data.len();
        let ghost first = self.interface@;
        let mut bytes: Vec<u8> = vec![0u8; len * 4];
        let ghost zeros = calls::zeros((len * 4) as nat);
        assert(bytes@ =~= zeros);
        let result = self.read_8(address, bytes.as_mut_slice());
        let ghost t = calls::calls_since(first, self.interface@);
        match result {
            Ok(()) => {},
            Err(error) => return Err(error),
        }
        proof {
            calls::lemma_all_filled(address, zeros, t, result);
            assert(bytes@ =~= calls::bytes_read(t, (len * 4) as nat));
        }
        let mut i: usize = 0;
        while i < len
            invariant
                i <= len == data@.len(),
                bytes@.len() == len * 4 <= isize::MAX,
                forall|j: int|
                    0 <= j < i ==> #[trigger] data@[j] == crate::bytes::word_at(bytes@, j, 4),
            decreases len - i,
        {
            proof {
                crate::bytes::lemma_bound_four();
            }
            data[i] = decode_word(bytes.as_slice(), i, 4) as u32;
            i = i + 1;
        }
        result
    }

    /// Fills `data` with the 16-bit words at `address`.
    pub fn read_16(&mut self, address: u64, data: &mut [u16]) -> (result: Result<(), Error>)
        requires
            old(data)@.len() * 2 <= isize::MAX,
        ensures
            *final(final(self).interface.sws) == *final(old(self).interface.sws),
            *final(final(self).state) == *final(old(self).state),
            *final(self).state == *old(self).state,
            calls::called_on(old(self).interface@, final(self).interface@),
            final(data)@.len() == old(data)@.len(),
            ({
                let t = calls::calls_since(old(self).interface@, final(self).interface@);
                let len = old(data)@.len() * 2;
                &&& calls::reads_words(address, 2, len, t, result)
                &&& forall|i: int|
                    0 <= i < old(data)@.len() ==> #[trigger] final(data)@[i] == if result is Ok {
                        crate::bytes::word_at(calls::bytes_read(t, len), i, 2)
                    } else {
                        old(data)@[i] as nat
                    }
            }),
    {
        if address % 2 != 0 {
            proof {
                calls::lemma_no_calls(self.interface@);
            }
            return Err(Error::MemoryNotAligned { address, alignment: 2 });
        }
        let len: usize = data.len();
        let ghost first = self.interface@;
        let mut bytes: Vec<u8> = vec![0u8; len * 2];
        let ghost zeros = calls::zeros((len * 2) as nat);
        assert(bytes@ =~= zeros);
        let result = self.read_8(address, bytes.as_mut_slice());
        let ghost t = calls::calls_since(first, self.interface@);
        match result {
            Ok(()) => {},
            Err(error) => return Err(error),
        }
        proof {
            calls::lemma_all_filled(address, zeros, t, result);
            assert(bytes@ =~= calls::bytes_read(t, (len * 2) as nat));
        }
        let mut i: usize = 0;
        while i < len
            invariant
                i <= len == data@.len(),
                bytes@.len() == len * 2 <= isize::MAX,
                forall|j: int|
                    0 <= j < i ==> #[trigger] data@[j] == crate::bytes::word_at(bytes@, j, 2),
            decreases len - i,
        {
            proof {
                crate::bytes::lemma_bound_four();
            }
            data[i] = decode_word(bytes.as_slice(), i, 2) as u16;
            i = i + 1;
        }
        result
    }

    /// Fills `data` from the memory at `address`.
    pub fn read_8(&mut self, address: u64, data: &mut [u8]) -> (result: Result<(), Error>)
        ensures
            *final(final(self).interface.sws) == *final(old(self).interface.sws),
            *final(final(self).state) == *final(old(self).state),
            *final(self).state == *old(self).state,
            calls::called_on(old(self).interface@, final(self).interface@),
            ({
                let t = calls::calls_since(old(self).interface@, final(self).interface@);
                &&& calls::reads_memory(address, old(data)@, t, result)
                &&& final(data)@ == calls::filled(old(data)@, t)
            }),
    {
        self.interface.read_memory(address, data)
    }

    /// Writes `data` as 64-bit words to the memory at `address`.
    pub fn write_64(&mut self, address: u64, data: &[u64]) -> (result: Result<(), Error>)
        ensures
            *final(final(self).interface.sws) == *final(old(self).interface.sws),
            *final(final(self).state) == *final(old(self).state),
            *final(self).state == *old(self).state,
            calls::called_on(old(self).interface@, final(self).interface@),
            calls::writes_words(
                address,
                8,
                data@.map_values(|word: u64| word as nat),
                calls::calls_since(old(self).interface@, final(self).interface@),
                result,
            ),
    {
        let ghost words = data@.map_values(|word: u64| word as nat);
        if address % 8 != 0 {
            proof {
                calls::lemma_no_calls(self.interface@);
            }
            return Err(Error::MemoryNotAligned { address, alignment: 8 });
        }
        let mut bytes: Vec<u8> = Vec::new();
        let mut i: usize = 0;
        while i < data.len()
            invariant
                i <= data@.len() == words.len(),
                forall|j: int| 0 <= j < words.len() ==> #[trigger] words[j] == data@[j] as nat,
                bytes@ == crate::bytes::le_words(words.take(i as int), 8),
            decreases data@.len() - i,
        {
            let encoded = encode_le(data[i], 8);
            bytes.extend_from_slice(encoded.as_slice());
            proof {
                let longer = words.take(i + 1);
                assert(longer.drop_last() =~= words.take(i as int));
                assert(longer.last() == words[i as int]);
            }
            i = i + 1;
        }
        assert(words.take(words.len() as int) =~= words);
        self.write_8(address, bytes.as_slice())
    }

    /// Writes `data` as 32-bit words to the memory at `address`.
    pub fn write_32(&mut self, address: u64, data: &[u32]) -> (result: Result<(), Error>)
        ensures
            *final(final(self).interface.sws) == *final(old(self).interface.sws),
            *final(final(self).state) == *final(old(self).state),
            *final(self).state == *old(self).state,
            calls::called_on(old(self).interface@, final(self).interface@),
            calls::writes_words(
                address,
                4,
                data@.map_values(|word: u32| word as nat),
                calls::calls_since(old(self).interface@, final(self).interface@),
                result,
            ),
    {
        let ghost words = data@.map_values(|word: u32| word as nat);
        if address % 4 != 0 {
            proof {
                calls::lemma_no_calls(self.interface@);
            }
            return Err(Error::MemoryNotAligned { address, alignment: 4 });
        }
        let mut bytes: Vec<u8> = Vec::new();
        let mut i: usize = 0;
        while i < data.len()
            invariant
                i <= data@.len() == words.len(),
                forall|j: int| 0 <= j < words.len() ==> #[trigger] words[j] == data@[j] as nat,
                bytes@ == crate::bytes::le_words(words.take(i as int), 4),
            decreases data@.len() - i,
        {
            let encoded = encode_le(data[i] as u64, 4);
            bytes.extend_from_slice(encoded.as_slice());
            proof {
                let longer = words.take(i + 1);
                assert(longer.drop_last() =~= words.take(i as int));
                assert(longer.last() == words[i as int]);
            }
            i = i + 1;
        }
        assert(words.take(words.len() as int) =~= words);
        self.write_8(address, bytes.as_slice())
    }

    /// Writes `data` as 16-bit words to the memory at `address`.
    pub fn write_16(&mut self, address: u64, data: &[u16]) -> (result: Result<(), Error>)
        ensures
            *final(final(self).interface.sws) == *final(old(self).interface.sws),
            *final(final(self).state) == *final(old(self).state),
            *final(self).state == *old(self).state,
            calls::called_on(old(self).interface@, final(self).interface@),
            calls::writes_words(
                address,
                2,
                data@.map_values(|word: u16| word as nat),
                calls::calls_since(old(self).interface@, final(self).interface@),
                result,
            ),
    {
        let ghost words = data@.map_values(|word: u16| word as nat);
        if address % 2 != 0 {
            proof {
                calls::lemma_no_calls(self.interface@);
            }
            return Err(Error::MemoryNotAligned { address, alignment: 2 });
        }
        let mut bytes: Vec<u8> = Vec::new();
        let mut i: usize = 0;
        while i < data.len()
            invariant
                i <= data@.len() == words.len(),
                forall|j: int| 0 <= j < words.len() ==> #[trigger] words[j] == data@[j] as nat,
                bytes@ == crate::bytes::le_words(words.take(i as int), 2),
            decreases data@.len() - i,
        {
            let encoded = encode_le(data[i] as u64, 2);
            bytes.extend_from_slice(encoded.as_slice());
            proof {
                let longer = words.take(i + 1);
                assert(longer.drop_last() =~= words.take(i as int));
                assert(longer.last() == words[i as int]);
            }
            i = i + 1;
        }
        assert(words.take(words.len() as int) =~= words);
        self.write_8(address, bytes.as_slice())
    }

    /// Writes `data` to the memory at `address`.
    pub fn write_8(&mut self, address: u64, data: &[u8]) -> (result: Result<(), Error>)
        ensures
            *final(final(self).interface.sws) == *final(old(self).interface.sws),
            *final(final(self).state) == *final(old(self).state),
            *final(self).state == *old(self).state,
            calls::called_on(old(self).interface@, final(self).interface@),
            calls::writes_memory(
                address,
                data@,
                calls::calls_since(old(self).interface@, final(self).interface@),
                result,
            ),
    {
        self.interface.write_memory(address, data)
    }

    /// Single bytes can be accessed.
    pub fn supports_8bit_transfers(&self) -> (supports: Result<bool, Error>)
        ensures
            supports == Ok::<bool, Error>(true),
    {
        Ok(true)
    }

    /// Nothing is held back that could be flushed.
    pub fn flush(&mut self) -> (result: Result<(), Error>)
        ensures
            result is Ok,
            *final(self) == *old(self),
    {
        Ok(())
    }

    /// One round of waiting for the core to halt, `elapsed` into a wait of at
    /// most `timeout`: how the wait ended, or nothing if it goes on.
    pub fn wait_for_core_halted(&mut self, elapsed: u128, timeout: u128) -> (ended: Option<
        Result<(), Error>,
    >)
        ensures
            *final(self) == *old(self),
            match ended {
                Some(Ok(_)) => elapsed < timeout && old(self).state.status is Halted,
                Some(Err(error)) => elapsed >= timeout && error is Timeout,
                None => elapsed < timeout && !(old(self).state.status is Halted),
            },
    {
        if elapsed >= timeout {
            return Some(Err(Error::Timeout));
        }
        match self.core_halted() {
            Ok(true) => Some(Ok(())),
            Ok(false) => None,
            Err(error) => Some(Err(error)),
        }
    }

    /// Whether the core is halted, as far as is remembered.
    pub fn core_halted(&mut self) -> (halted: Result<bool, Error>)
        ensures
            *final(self) == *old(self),
            halted == Ok::<bool, Error>(old(self).state.status is Halted),
    {
        match self.state.status {
            CoreStatus::Halted(_) => Ok(true),
            _ => Ok(false),
        }
    }

    /// How many breakpoints there are.
    pub fn available_breakpoint_units(&mut self) -> (units: Result<u32, Error>)
        ensures
            *final(self) == *old(self),
            units == Ok::<u32, Error>(3),
    {
        Ok(BREAKPOINT_LOGICAL_LIMIT as u32)
    }

    /// The breakpoints, set or not.
    pub fn hw_breakpoints(&mut self) -> (breakpoints: Result<Vec<Option<u64>>, Error>)
        ensures
            *final(self) == *old(self),
            breakpoints matches Ok(all) && all@ == old(self).state.hardware_breakpoints@,
    {
        let mut all: Vec<Option<u64>> = Vec::new();
        all.push(self.state.hardware_breakpoints[0]);
        all.push(self.state.hardware_breakpoints[1]);
        all.push(self.state.hardware_breakpoints[2]);
        assert(all@ =~= self.state.hardware_breakpoints@);
        Ok(all)
    }

    /// Whether breakpoints are enabled.
    pub fn hw_breakpoints_enabled(&self) -> (enabled: bool)
        ensures
            enabled == self.remembered().breakpoints_enabled,
    {
        self.state.breakpoints_enabled
    }

    /// All registers in order.
    pub fn registers(&self) -> (registers: Vec<CoreRegister>)
        ensures
            registers@.len() == REGISTER_COUNT,
            forall|i: int|
                0 <= i < REGISTER_COUNT ==> registers::describes(
                    #[trigger] registers@[i],
                    i as u16,
                ),
    {
        core_registers()
    }

    /// The register that holds the program counter.
    pub fn program_counter(&self) -> (found: CoreRegister)
        ensures
            registers::describes(found, PC),
    {
        register(PC)
    }

    /// The register that holds the frame pointer.
    pub fn frame_pointer(&self) -> (found: CoreRegister)
        ensures
            registers::describes(found, R7),
    {
        register(R7)
    }

    /// The register that holds the stack pointer.
    pub fn stack_pointer(&self) -> (found: CoreRegister)
        ensures
            registers::describes(found, SP),
    {
        register(SP)
    }

    /// The register that holds the return address.
    pub fn return_address(&self) -> (found: CoreRegister)
        ensures
            registers::describes(found, LR),
    {
        register(LR)
    }

    /// The architecture of the core.
    pub fn architecture(&self) -> (result: Architecture)
        ensures
            result == Architecture::Tc32,
    {
        Architecture::Tc32
    }

    /// The type of the core.
    pub fn core_type(&self) -> (result: CoreType)
        ensures
            result == CoreType::Tc32,
    {
        CoreType::Tc32
    }

    /// The instruction set of the core.
    pub fn instruction_set(&mut self) -> (result: Result<InstructionSet, Error>)
        ensures
            *final(self) == *old(self),
            result == Ok::<_, Error>(InstructionSet::Tc32),
    {
        Ok(InstructionSet::Tc32)
    }

    /// There is no floating point unit.
    pub fn fpu_support(&mut self) -> (result: Result<bool, Error>)
        ensures
            *final(self) == *old(self),
            result == Ok::<_, Error>(false),
    {
        Ok(false)
    }

    /// There are no floating point registers.
    pub fn floating_point_register_count(&mut self) -> (result: Result<usize, Error>)
        ensures
            *final(self) == *old(self),
            result == Ok::<_, Error>(0usize),
    {
        Ok(0)
    }

    /// A reset cannot be caught.
    pub fn reset_catch_set(&mut self) -> (result: Result<(), Error>)
        ensures
            *final(self) == *old(self),
            result == Err::<(), _>(Error::NotImplemented(Missing::ResetCatch)),
    {
        Err(Error::NotImplemented(Missing::ResetCatch))
    }

    /// A reset cannot be caught.
    pub fn reset_catch_clear(&mut self) -> (result: Result<(), Error>)
        ensures
            *final(self) == *old(self),
            result == Err::<(), _>(Error::NotImplemented(Missing::ResetCatch)),
    {
        Err(Error::NotImplemented(Missing::ResetCatch))
    }

    /// Nothing has to be done when debugging ends.
    pub fn debug_core_stop(&mut self) -> (result: Result<(), Error>)
        ensures
            *final(self) == *old(self),
            result is Ok,
    {
        Ok(())
    }

    /// Addresses have 32 bits.
    pub fn is_64_bit(&self) -> (result: bool)
        ensures
            !result,
    {
        false
    }

    /// No register has to be spilled.
    pub fn spill_registers(&mut self) -> (result: Result<(), Error>)
        ensures
            *final(self) == *old(self),
            result is Ok,
    {
        Ok(())
    }

    /// Enables or disables all breakpoints.
    pub fn enable_breakpoints(&mut self, state: bool) -> (result: Result<(), Error>)
        ensures
            *final(final(self).interface.sws) == *final(old(self).interface.sws),
            *final(final(self).state) == *final(old(self).state),
            *final(self).state == (Tc32CoreState {
                breakpoints_enabled: state,
                ..*old(self).state
            }),
            calls::called_on(old(self).interface@, final(self).interface@),
            calls::writes_breakpoints(
                old(self).state.hardware_breakpoints@,
                state,
                calls::calls_since(old(self).interface@, final(self).interface@),
                result,
            ),
    {
        self.state.breakpoints_enabled = state;
        self.write_breakpoint_payload()
    }

    /// Sets the breakpoint `unit_index` to `slot`.
    fn put_breakpoint(&mut self, unit_index: usize, slot: Option<u64>) -> (result: Result<
        (),
        Error,
    >)
        ensures
            *final(final(self).interface.sws) == *final(old(self).interface.sws),
            *final(final(self).state) == *final(old(self).state),
            calls::called_on(old(self).interface@, final(self).interface@),
            calls::changes_breakpoint(
                unit_index,
                slot,
                *old(self).state,
                calls::calls_since(old(self).interface@, final(self).interface@),
                result,
                *final(self).state,
            ),
    {
        let ghost first = self.interface@;
        if unit_index >= BREAKPOINT_LOGICAL_LIMIT {
            proof {
                calls::lemma_no_calls(first);
            }
            return Err(Error::BreakpointOutOfRange(unit_index));
        }
        self.state.hardware_breakpoints[unit_index] = slot;
        self.write_breakpoint_payload()
    }

    /// Sets the breakpoint `unit_index` to `addr`.
    pub fn set_hw_breakpoint(&mut self, unit_index: usize, addr: u64) -> (result: Result<(), Error>)
        ensures
            *final(final(self).interface.sws) == *final(old(self).interface.sws),
            *final(final(self).state) == *final(old(self).state),
            calls::called_on(old(self).interface@, final(self).interface@),
            calls::changes_breakpoint(
                unit_index,
                Some(addr),
                *old(self).state,
                calls::calls_since(old(self).interface@, final(self).interface@),
                result,
                *final(self).state,
            ),
    {
        self.put_breakpoint(unit_index, Some(addr))
    }

    /// Clears the breakpoint `unit_index`.
    pub fn clear_hw_breakpoint(&mut self, unit_index: usize) -> (result: Result<(), Error>)
        ensures
            *final(final(self).interface.sws) == *final(old(self).interface.sws),
            *final(final(self).state) == *final(old(self).state),
            calls::called_on(old(self).interface@, final(self).interface@),
            calls::changes_breakpoint(
                unit_index,
                None,
                *old(self).state,
                calls::calls_since(old(self).interface@, final(self).interface@),
                result,
                *final(self).state,
            ),
    {
        self.put_breakpoint(unit_index, None)
    }
}

/// The register values or the error of a result.
pub open spec fn values_view(result: Result<[u32; 32], Error>) -> Result<Seq<u32>, Error> {
    match result {
        Ok(values) => Ok(values@),
        Err(error) => Err(error),
    }
}

/// Whether `value` is among `values`.
fn contains(values: &[u64], value: u64) -> (found: bool)
    ensures
        found == values@.contains(value),
{
    let mut i: usize = 0;
    while i < values.len()
        invariant
            i <= values@.len(),
            forall|j: int| 0 <= j < i ==> values@[j] != value,
        decreases values@.len() - i,
    {
        if values[i] == value {
            assert(values@[i as int] == value);
            return true;
        }
        i = i + 1;
    }
    false
}

} // verus!
