//! What a TC32 core has done over SWS, and which calls an operation takes.

use vstd::prelude::*;

use crate::bytes;
use crate::error::DebugProbeError;
use crate::error::Error;
use crate::tc32::types::BreakpointCause;
use crate::tc32::types::CoreInformation;
use crate::tc32::types::CoreStatus;
use crate::tc32::types::HaltReason;
use crate::tc32::types::RegisterId;
use crate::tc32::types::RegisterValue;
use crate::tc32::Tc32CoreState;
use crate::tc32::TlsrSwsDebug;

verus! {

/// Addresses below this one lie in flash.
pub const FLASH_ADDRESS_MAX: u64 = 0x80000;

pub const REG_DEBUG_CONTROL: u32 = 0x602;

pub const REG_DEBUG_STEP: u32 = 0x613;

pub const REG_BREAKPOINTS: u32 = 0x610;

pub const REG_SNAPSHOT: u32 = 0x680;

pub const REG_PC: u32 = 0x6bc;

/// Bytes that one read asks for at most.
pub const MAX_READ_SIZE: usize = 1024;

/// Breakpoint registers; the first of them is never armed.
pub const BREAKPOINT_PHYSICAL_SLOTS: usize = 4;

/// Breakpoints that can be set.
pub const BREAKPOINT_LOGICAL_LIMIT: usize = 3;

/// How long breakpoints take to come into force, in milliseconds.
pub const BREAKPOINT_PROGRAM_SETTLE_MS: u64 = 2;

/// One call on the SWS operations and how it ended. A read finds `held` in the
/// buffer and leaves `data` there.
#[allow(inconsistent_fields)]
pub enum SwsCall {
    ReadMemory {
        address: u32,
        held: Seq<u8>,
        data: Seq<u8>,
        outcome: Result<(), DebugProbeError>,
    },
    ReadFlash {
        address: u32,
        held: Seq<u8>,
        data: Seq<u8>,
        outcome: Result<(), DebugProbeError>,
    },
    WriteMemory { address: u32, data: Seq<u8>, outcome: Result<(), DebugProbeError> },
    WriteFlash { address: u32, data: Seq<u8>, outcome: Result<(), DebugProbeError> },
    EraseFlash { outcome: Result<(), DebugProbeError> },
    Delay { millis: u64 },
}

/// An interface as its contracts see it: the SWS operations that it reaches,
/// and the calls that it has made on them.
pub struct Reached<S> {
    pub sws: S,
    pub calls: Seq<SwsCall>,
}

/// Whether `calls` take the SWS operations through `states`.
pub open spec fn passes<S: TlsrSwsDebug>(states: Seq<S>, calls: Seq<SwsCall>) -> bool {
    &&& states.len() == calls.len() + 1
    &&& forall|i: int|
        0 <= i < calls.len() ==> S::takes(states[i], #[trigger] calls[i], states[i + 1])
}

/// Whether `calls`, and nothing besides, lead from `before` to `after`.
#[verifier::opaque]
pub open spec fn leads<S: TlsrSwsDebug>(before: S, calls: Seq<SwsCall>, after: S) -> bool {
    exists|states: Seq<S>| #[trigger]
        passes(states, calls) && states[0] == before && states.last() == after
}

/// The calls between two states of an interface.
pub open spec fn calls_since<S>(before: Reached<S>, after: Reached<S>) -> Seq<SwsCall> {
    after.calls.skip(before.calls.len() as int)
}

/// Whether an interface went on: calls were made, none was forgotten, and they
/// are all that happened to the SWS operations.
pub open spec fn called_on<S: TlsrSwsDebug>(before: Reached<S>, after: Reached<S>) -> bool {
    let calls = calls_since(before, after);
    &&& before.calls.len() <= after.calls.len()
    &&& after.calls == before.calls + calls
    &&& leads(before.sws, calls, after.sws)
    &&& calls.len() == 0 ==> after.sws == before.sws
}

/// How a failed call is reported.
pub open spec fn reported(outcome: Result<(), DebugProbeError>, result: Result<(), Error>) -> bool {
    match outcome {
        Ok(_) => result is Ok,
        Err(error) => result == Err::<(), _>(Error::Probe(error)),
    }
}

/// Why memory at `address` cannot be reached, if so.
pub open spec fn address_error(address: int) -> Option<Error> {
    if address > u64::MAX {
        Some(Error::AddressOverflow)
    } else if address > u32::MAX {
        Some(Error::AddressOutOfRange(address as u64))
    } else {
        None
    }
}

/// Whether `call` is a read at `at` into a buffer that holds `buffer`: of flash
/// or of other memory, depending on the address.
pub open spec fn is_read(call: SwsCall, at: int, buffer: Seq<u8>) -> bool {
    match call {
        SwsCall::ReadFlash { address, held, data, .. } => {
            &&& at < FLASH_ADDRESS_MAX
            &&& address == at
            &&& held == buffer
            &&& data.len() == buffer.len()
        },
        SwsCall::ReadMemory { address, held, data, .. } => {
            &&& at >= FLASH_ADDRESS_MAX
            &&& address == at
            &&& held == buffer
            &&& data.len() == buffer.len()
        },
        _ => false,
    }
}

/// How `call` ended.
pub open spec fn outcome_of(call: SwsCall) -> Result<(), DebugProbeError> {
    match call {
        SwsCall::ReadFlash { outcome, .. } => outcome,
        SwsCall::ReadMemory { outcome, .. } => outcome,
        SwsCall::WriteMemory { outcome, .. } => outcome,
        SwsCall::WriteFlash { outcome, .. } => outcome,
        SwsCall::EraseFlash { outcome } => outcome,
        SwsCall::Delay { .. } => Ok(()),
    }
}

/// What the buffer of a read held before it.
pub open spec fn held_by(call: SwsCall) -> Seq<u8> {
    match call {
        SwsCall::ReadFlash { held, .. } => held,
        SwsCall::ReadMemory { held, .. } => held,
        _ => Seq::empty(),
    }
}

/// The bytes that `call` carried.
pub open spec fn data_of(call: SwsCall) -> Seq<u8> {
    match call {
        SwsCall::ReadFlash { data, .. } => data,
        SwsCall::ReadMemory { data, .. } => data,
        SwsCall::WriteMemory { data, .. } => data,
        SwsCall::WriteFlash { data, .. } => data,
        _ => Seq::empty(),
    }
}

/// How many reads `len` bytes take.
pub open spec fn read_count(len: nat) -> nat {
    (len + MAX_READ_SIZE - 1) as nat / MAX_READ_SIZE as nat
}

/// How many bytes the read with index `i` of `len` bytes asks for.
pub open spec fn read_len(len: nat, i: int) -> nat {
    let left = (len - MAX_READ_SIZE * i) as nat;
    if left < MAX_READ_SIZE {
        left
    } else {
        MAX_READ_SIZE as nat
    }
}

/// The part of `buffer` that the read with index `i` is about.
pub open spec fn read_part(buffer: Seq<u8>, i: int) -> Seq<u8> {
    buffer.subrange(MAX_READ_SIZE * i, MAX_READ_SIZE * i + read_len(buffer.len(), i))
}

/// `len` zeros.
pub open spec fn zeros(len: nat) -> Seq<u8> {
    Seq::new(len, |i: int| 0u8)
}

/// Filling `buffer` from `address`: in as few reads as possible, up to the first
/// that fails or that lies out of reach.
#[verifier::opaque]
pub open spec fn reads_memory(
    address: u64,
    buffer: Seq<u8>,
    t: Seq<SwsCall>,
    result: Result<(), Error>,
) -> bool {
    let len = buffer.len();
    &&& t.len() <= read_count(len)
    &&& forall|i: int|
        0 <= i < t.len() ==> is_read(
            #[trigger] t[i],
            address + MAX_READ_SIZE * i,
            read_part(buffer, i),
        )
    &&& forall|i: int| 0 <= i < t.len() - 1 ==> outcome_of(#[trigger] t[i]) is Ok
    &&& if t.len() > 0 && outcome_of(t.last()) is Err {
        reported(outcome_of(t.last()), result)
    } else if t.len() == read_count(len) {
        result is Ok
    } else {
        &&& address_error(address + MAX_READ_SIZE * t.len()) matches Some(error)
        &&& result == Err::<(), _>(error)
    }
}

/// The byte with index `j` that the reads `t` brought.
pub open spec fn byte_read(t: Seq<SwsCall>, j: int) -> u8 {
    data_of(t[j / MAX_READ_SIZE as int])[j % MAX_READ_SIZE as int]
}

/// The bytes that the reads `t` of `len` bytes brought.
pub open spec fn bytes_read(t: Seq<SwsCall>, len: nat) -> Seq<u8> {
    Seq::new(len, |j: int| byte_read(t, j))
}

/// `data` once the reads `t` have filled what they reach.
pub open spec fn filled(data: Seq<u8>, t: Seq<SwsCall>) -> Seq<u8> {
    Seq::new(
        data.len(),
        |j: int|
            if j < MAX_READ_SIZE * t.len() {
                byte_read(t, j)
            } else {
                data[j]
            },
    )
}

/// Writing `data` at `address`.
pub open spec fn writes_memory(
    address: u64,
    data: Seq<u8>,
    t: Seq<SwsCall>,
    result: Result<(), Error>,
) -> bool {
    match address_error(address as int) {
        Some(error) => t.len() == 0 && result == Err::<(), _>(error),
        None => {
            &&& t.len() == 1
            &&& t[0] matches SwsCall::WriteMemory { address: at, data: written, outcome }
            &&& at == address
            &&& written == data
            &&& reported(outcome, result)
        },
    }
}

/// Reading `len` bytes at `address` as words of `width` bytes.
pub open spec fn reads_words(
    address: u64,
    width: nat,
    len: nat,
    t: Seq<SwsCall>,
    result: Result<(), Error>,
) -> bool {
    if address as nat % width != 0 {
        &&& t.len() == 0
        &&& result == Err::<(), _>(Error::MemoryNotAligned { address, alignment: width as usize })
    } else {
        reads_memory(address, zeros(len), t, result)
    }
}

/// Writing `words`, `width` bytes for each, at `address`.
pub open spec fn writes_words(
    address: u64,
    width: nat,
    words: Seq<nat>,
    t: Seq<SwsCall>,
    result: Result<(), Error>,
) -> bool {
    if address as nat % width != 0 {
        &&& t.len() == 0
        &&& result == Err::<(), _>(Error::MemoryNotAligned { address, alignment: width as usize })
    } else {
        writes_memory(address, bytes::le_words(words, width), t, result)
    }
}

/// Reading the program counter.
pub open spec fn reads_pc(t: Seq<SwsCall>, result: Result<u32, Error>) -> bool {
    &&& t.len() == 1
    &&& t[0] matches SwsCall::ReadMemory { address, held, data, outcome }
    &&& address == REG_PC
    &&& held == zeros(4)
    &&& data.len() == 4
    &&& match outcome {
        Ok(_) => result == Ok::<_, Error>(bytes::le_value(data) as u32),
        Err(error) => result == Err::<u32, _>(Error::Probe(error)),
    }
}

/// What arms a breakpoint register for `address`: its low 32 bits and the
/// enable bit.
pub open spec fn armed(address: u64) -> u32 {
    (address % 0x1_0000_0000) as u32 | 0x0100_0000
}

/// What the breakpoint register `slot` is set to.
pub open spec fn slot_value(breakpoints: Seq<Option<u64>>, enabled: bool, slot: int) -> u32 {
    if enabled && slot >= 1 && breakpoints[slot - 1] is Some {
        armed(breakpoints[slot - 1]->0)
    } else {
        0
    }
}

/// What all breakpoint registers are set to.
pub open spec fn breakpoint_payload(breakpoints: Seq<Option<u64>>, enabled: bool) -> Seq<u8> {
    bytes::le_words(
        Seq::new(
            BREAKPOINT_PHYSICAL_SLOTS as nat,
            |slot: int| slot_value(breakpoints, enabled, slot) as nat,
        ),
        4,
    )
}

/// The addresses of the breakpoints that are set, in order.
pub open spec fn addresses(breakpoints: Seq<Option<u64>>) -> Seq<u64>
    decreases breakpoints.len(),
{
    if breakpoints.len() == 0 {
        Seq::empty()
    } else {
        match breakpoints.last() {
            Some(address) => addresses(breakpoints.drop_last()).push(address),
            None => addresses(breakpoints.drop_last()),
        }
    }
}

/// The addresses of the breakpoints that a core can stop at.
pub open spec fn active(breakpoints: Seq<Option<u64>>, enabled: bool) -> Seq<u64> {
    if enabled {
        addresses(breakpoints)
    } else {
        Seq::empty()
    }
}

/// Setting the breakpoint registers, and waiting for them to come into force.
pub open spec fn writes_breakpoints(
    breakpoints: Seq<Option<u64>>,
    enabled: bool,
    t: Seq<SwsCall>,
    result: Result<(), Error>,
) -> bool {
    &&& t.len() >= 1
    &&& writes_memory(
        REG_BREAKPOINTS as u64,
        breakpoint_payload(breakpoints, enabled),
        t.take(1),
        result,
    )
    &&& if result is Ok {
        t.len() == 2 && t[1] == (SwsCall::Delay { millis: BREAKPOINT_PROGRAM_SETTLE_MS })
    } else {
        t.len() == 1
    }
}

/// Setting the debug control register.
pub open spec fn controls(value: u8, t: Seq<SwsCall>, result: Result<(), Error>) -> bool {
    writes_memory(REG_DEBUG_CONTROL as u64, seq![value], t, result)
}

/// Finding out where the core stands.
pub open spec fn locates(t: Seq<SwsCall>, result: Result<CoreInformation, Error>) -> bool {
    match result {
        Ok(information) => {
            &&& information.pc <= u32::MAX
            &&& reads_pc(t, Ok(information.pc as u32))
        },
        Err(error) => reads_pc(t, Err(error)),
    }
}

/// Halting the core.
pub open spec fn halts(t: Seq<SwsCall>, result: Result<CoreInformation, Error>) -> bool {
    &&& t.len() >= 1
    &&& if t.len() == 1 {
        result matches Err(error) && controls(0x05, t, Err(error))
    } else {
        controls(0x05, t.take(1), Ok(())) && locates(t.skip(1), result)
    }
}

/// Setting the breakpoints, then the debug control register.
pub open spec fn lets_go(
    breakpoints: Seq<Option<u64>>,
    enabled: bool,
    control: u8,
    t: Seq<SwsCall>,
    result: Result<(), Error>,
) -> bool {
    &&& t.len() >= 1
    &&& if t.len() == 1 {
        result is Err && writes_breakpoints(breakpoints, enabled, t, result)
    } else {
        &&& t.len() == 3
        &&& writes_breakpoints(breakpoints, enabled, t.take(2), Ok(()))
        &&& controls(control, t.skip(2), result)
    }
}

/// The debug control value that lets a core run, with or without breakpoints
/// to stop at.
pub open spec fn run_control(breakpoints: Seq<Option<u64>>, enabled: bool) -> u8 {
    if active(breakpoints, enabled).len() > 0 {
        0x84
    } else {
        0x08
    }
}

/// Resetting the core and halting it.
pub open spec fn resets_and_halts(
    breakpoints: Seq<Option<u64>>,
    enabled: bool,
    t: Seq<SwsCall>,
    result: Result<CoreInformation, Error>,
) -> bool {
    if t.len() <= 3 {
        result matches Err(error) && lets_go(breakpoints, enabled, 0x88, t, Err(error))
    } else {
        &&& lets_go(breakpoints, enabled, 0x88, t.take(3), Ok(()))
        &&& halts(t.skip(3), result)
    }
}

/// Making a single step.
pub open spec fn steps(
    breakpoints: Seq<Option<u64>>,
    enabled: bool,
    t: Seq<SwsCall>,
    result: Result<CoreInformation, Error>,
) -> bool {
    if t.len() <= 3 {
        result matches Err(error) && lets_go(breakpoints, enabled, 0x06, t, Err(error))
    } else {
        &&& lets_go(breakpoints, enabled, 0x06, t.take(3), Ok(()))
        &&& if t.len() == 4 {
            result matches Err(error) && writes_memory(
                REG_DEBUG_STEP as u64,
                seq![0x80],
                t.skip(3),
                Err(error),
            )
        } else {
            &&& writes_memory(REG_DEBUG_STEP as u64, seq![0x80], t.subrange(3, 4), Ok(()))
            &&& locates(t.skip(4), result)
        }
    }
}

/// Reading all registers: a block of memory, and the program counter, which
/// stands elsewhere.
pub open spec fn reads_registers(t: Seq<SwsCall>, result: Result<Seq<u32>, Error>) -> bool {
    &&& t.len() >= 1
    &&& t[0] matches SwsCall::ReadMemory { address, held, data, outcome }
    &&& address == REG_SNAPSHOT
    &&& held == zeros(128)
    &&& data.len() == 128
    &&& match outcome {
        Err(error) => t.len() == 1 && result == Err::<Seq<u32>, _>(Error::Probe(error)),
        Ok(_) => match result {
            Err(error) => reads_pc(t.skip(1), Err(error)),
            Ok(values) => {
                &&& values.len() == 32
                &&& forall|i: int|
                    0 <= i < 32 && i != 15 ==> #[trigger] values[i] == bytes::word_at(data, i, 4)
                &&& reads_pc(t.skip(1), Ok(values[15]))
            },
        },
    }
}

/// Reading the register `id`.
pub open spec fn reads_register(
    id: RegisterId,
    t: Seq<SwsCall>,
    result: Result<RegisterValue, Error>,
) -> bool {
    exists|values: Result<Seq<u32>, Error>|
        {
            &&& #[trigger] reads_registers(t, values)
            &&& match values {
                Err(error) => result == Err::<RegisterValue, _>(error),
                Ok(values) => if id.0 < values.len() {
                    result == Ok::<_, Error>(RegisterValue::U32(values[id.0 as int]))
                } else {
                    result == Err::<RegisterValue, _>(Error::UnknownRegister(id.0))
                },
            }
        }
}

/// Looking what the core is doing.
pub open spec fn observes(
    before: Tc32CoreState,
    t: Seq<SwsCall>,
    result: Result<CoreStatus, Error>,
    after: Tc32CoreState,
) -> bool {
    if before.status is Running {
        match result {
            Err(error) => reads_pc(t, Err(error)) && after == before,
            Ok(status) => {
                &&& t.len() == 1
                &&& reads_pc(t, Ok(bytes::le_value(data_of(t[0])) as u32))
                &&& status == if active(
                    before.hardware_breakpoints@,
                    before.breakpoints_enabled,
                ).contains(bytes::le_value(data_of(t[0])) as u64) {
                    CoreStatus::Halted(HaltReason::Breakpoint(BreakpointCause::Hardware))
                } else {
                    CoreStatus::Running
                }
                &&& after == Tc32CoreState { status, ..before }
            },
        }
    } else {
        t.len() == 0 && result == Ok::<_, Error>(before.status) && after == before
    }
}

/// Setting the breakpoint `unit` to `slot`. What is remembered changes even if
/// the breakpoint registers cannot be set.
pub open spec fn changes_breakpoint(
    unit: usize,
    slot: Option<u64>,
    before: Tc32CoreState,
    t: Seq<SwsCall>,
    result: Result<(), Error>,
    after: Tc32CoreState,
) -> bool {
    if unit >= BREAKPOINT_LOGICAL_LIMIT {
        &&& t.len() == 0
        &&& result == Err::<(), _>(Error::BreakpointOutOfRange(unit))
        &&& after == before
    } else {
        &&& after.hardware_breakpoints@ == before.hardware_breakpoints@.update(unit as int, slot)
        &&& after.breakpoints_enabled == before.breakpoints_enabled
        &&& after.status == before.status
        &&& writes_breakpoints(
            after.hardware_breakpoints@,
            after.breakpoints_enabled,
            t,
            result,
        )
    }
}

/// No call at all.
pub proof fn lemma_no_calls<S: TlsrSwsDebug>(reached: Reached<S>)
    ensures
        called_on(reached, reached),
        calls_since(reached, reached) == Seq::<SwsCall>::empty(),
{
    reveal(leads);
    let none = Seq::<SwsCall>::empty();
    assert(calls_since(reached, reached) =~= none);
    assert(reached.calls + none =~= reached.calls);
    assert(passes(seq![reached.sws], none));
}

/// One call.
pub proof fn lemma_one_call<S: TlsrSwsDebug>(
    before: Reached<S>,
    after: Reached<S>,
    call: SwsCall,
)
    requires
        after.calls == before.calls.push(call),
        S::takes(before.sws, call, after.sws),
    ensures
        called_on(before, after),
        calls_since(before, after) == seq![call],
{
    reveal(leads);
    assert(calls_since(before, after) =~= seq![call]);
    assert(after.calls =~= before.calls + seq![call]);
    assert(passes(seq![before.sws, after.sws], seq![call]));
}

/// A read that succeeds reaches every byte.
pub proof fn lemma_all_filled(
    address: u64,
    buffer: Seq<u8>,
    t: Seq<SwsCall>,
    result: Result<(), Error>,
)
    requires
        reads_memory(address, buffer, t, result),
        result is Ok,
    ensures
        buffer.len() <= MAX_READ_SIZE * t.len(),
{
    reveal(reads_memory);
}

/// Calls made in two stretches.
pub proof fn lemma_called_on<S: TlsrSwsDebug>(
    first: Reached<S>,
    middle: Reached<S>,
    last: Reached<S>,
)
    requires
        called_on(first, middle),
        called_on(middle, last),
    ensures
        called_on(first, last),
        calls_since(first, last) == calls_since(first, middle) + calls_since(middle, last),
        calls_since(first, last).take(calls_since(first, middle).len() as int) == calls_since(
            first,
            middle,
        ),
        calls_since(first, last).skip(calls_since(first, middle).len() as int) == calls_since(
            middle,
            last,
        ),
{
    let a = calls_since(first, middle);
    let b = calls_since(middle, last);
    assert(last.calls =~= first.calls + (a + b));
    assert(calls_since(first, last) =~= a + b);
    assert((a + b).take(a.len() as int) =~= a);
    assert((a + b).skip(a.len() as int) =~= b);
    lemma_leads(first.sws, a, middle.sws, b, last.sws);
}

/// Calls that lead on from where others led to.
pub proof fn lemma_leads<S: TlsrSwsDebug>(
    first: S,
    a: Seq<SwsCall>,
    middle: S,
    b: Seq<SwsCall>,
    last: S,
)
    requires
        leads(first, a, middle),
        leads(middle, b, last),
    ensures
        leads(first, a + b, last),
{
    reveal(leads);
    let p = choose|states: Seq<S>| #[trigger]
        passes(states, a) && states[0] == first && states.last() == middle;
    let q = choose|states: Seq<S>| #[trigger]
        passes(states, b) && states[0] == middle && states.last() == last;
    let r = p + q.skip(1);
    assert forall|i: int| 0 <= i < (a + b).len() implies S::takes(
        r[i],
        #[trigger] (a + b)[i],
        r[i + 1],
    ) by {
        if i < a.len() {
            assert(S::takes(p[i], a[i], p[i + 1]));
        } else {
            let j = i - a.len();
            assert(S::takes(q[j], b[j], q[j + 1]));
            assert(r[i + 1] == q[j + 1]);
            assert(r[i] == q[j]);
        }
    }
    assert(passes(r, a + b));
}

/// A breakpoint register holds what arms it if its breakpoint is set and
/// breakpoints are enabled, and nothing otherwise.
pub proof fn law_breakpoint_registers(breakpoints: Seq<Option<u64>>, enabled: bool, unit: int)
    requires
        breakpoints.len() == BREAKPOINT_LOGICAL_LIMIT,
        0 <= unit < BREAKPOINT_LOGICAL_LIMIT,
    ensures
        bytes::word_at(breakpoint_payload(breakpoints, enabled), unit + 1, 4) == match (
            enabled,
            breakpoints[unit],
        ) {
            (true, Some(address)) => armed(address) as nat,
            _ => 0,
        },
        bytes::word_at(breakpoint_payload(breakpoints, enabled), 0, 4) == 0,
        breakpoint_payload(breakpoints, enabled).len() == 16,
{
    let values = Seq::new(
        BREAKPOINT_PHYSICAL_SLOTS as nat,
        |slot: int| slot_value(breakpoints, enabled, slot) as nat,
    );
    bytes::lemma_bound_four();
    bytes::lemma_le_words_len(values, 4);
    bytes::law_word_at_le_words(values, 4, unit + 1);
    bytes::law_word_at_le_words(values, 4, 0);
}

/// Disabling breakpoints and enabling them again arms the same ones.
pub proof fn law_breakpoints_survive_disabling(
    breakpoints: Seq<Option<u64>>,
    disabling: Seq<SwsCall>,
    disabled: Result<(), Error>,
    enabling: Seq<SwsCall>,
    enabled: Result<(), Error>,
)
    requires
        breakpoints.len() == BREAKPOINT_LOGICAL_LIMIT,
        writes_breakpoints(breakpoints, false, disabling, disabled),
        writes_breakpoints(breakpoints, true, enabling, enabled),
    ensures
        forall|unit: int|
            0 <= unit < BREAKPOINT_LOGICAL_LIMIT ==> {
                &&& bytes::word_at(data_of(disabling[0]), unit + 1, 4) == 0
                &&& #[trigger] breakpoints[unit] matches Some(address) ==> bytes::word_at(
                    data_of(enabling[0]),
                    unit + 1,
                    4,
                ) == armed(address)
            },
{
    assert(disabling.take(1)[0] == disabling[0]);
    assert(enabling.take(1)[0] == enabling[0]);
    assert forall|unit: int| 0 <= unit < BREAKPOINT_LOGICAL_LIMIT implies {
        &&& bytes::word_at(data_of(disabling[0]), unit + 1, 4) == 0
        &&& #[trigger] breakpoints[unit] matches Some(address) ==> bytes::word_at(
            data_of(enabling[0]),
            unit + 1,
            4,
        ) == armed(address)
    } by {
        law_breakpoint_registers(breakpoints, false, unit);
        law_breakpoint_registers(breakpoints, true, unit);
    }
}

/// Clearing a breakpoint undoes setting it, and neither touches the others.
pub proof fn law_clearing_undoes_setting(
    unit: usize,
    address: u64,
    before: Tc32CoreState,
    setting: Seq<SwsCall>,
    set: Result<(), Error>,
    middle: Tc32CoreState,
    clearing: Seq<SwsCall>,
    cleared: Result<(), Error>,
    after: Tc32CoreState,
)
    requires
        unit < BREAKPOINT_LOGICAL_LIMIT,
        changes_breakpoint(unit, Some(address), before, setting, set, middle),
        changes_breakpoint(unit, None, middle, clearing, cleared, after),
    ensures
        middle.hardware_breakpoints@[unit as int] == Some(address),
        after.hardware_breakpoints@ == before.hardware_breakpoints@.update(unit as int, None),
        after.breakpoints_enabled == before.breakpoints_enabled,
        after.status == before.status,
{
    assert(after.hardware_breakpoints@ =~= before.hardware_breakpoints@.update(unit as int, None));
}

/// A running core is found to have stopped just where a breakpoint that is set
/// and enabled stands at its program counter.
pub proof fn law_core_stops_at_breakpoints(
    before: Tc32CoreState,
    t: Seq<SwsCall>,
    status: CoreStatus,
    after: Tc32CoreState,
)
    requires
        before.status is Running,
        observes(before, t, Ok(status), after),
    ensures
        ({
            let pc = bytes::le_value(data_of(t[0]));
            let stops = before.breakpoints_enabled && exists|unit: int|
                0 <= unit < BREAKPOINT_LOGICAL_LIMIT
                    && #[trigger] before.hardware_breakpoints@[unit] == Some(pc as u64);
            &&& stops ==> status == CoreStatus::Halted(
                HaltReason::Breakpoint(BreakpointCause::Hardware),
            )
            &&& !stops ==> status is Running
            &&& after.status == status
        }),
{
    let pc = bytes::le_value(data_of(t[0])) as u64;
    lemma_addresses(before.hardware_breakpoints@, pc);
}

/// The addresses of breakpoints are those that are set.
proof fn lemma_addresses(breakpoints: Seq<Option<u64>>, address: u64)
    ensures
        addresses(breakpoints).contains(address) == exists|unit: int|
            0 <= unit < breakpoints.len() && #[trigger] breakpoints[unit] == Some(address),
    decreases breakpoints.len(),
{
    if breakpoints.len() > 0 {
        let front = breakpoints.drop_last();
        let last = breakpoints.last();
        lemma_addresses(front, address);
        if last == Some(address) {
            let all = addresses(breakpoints);
            assert(all[all.len() - 1] == address);
            assert(breakpoints[breakpoints.len() - 1] == Some(address));
        } else {
            if addresses(front).contains(address) {
                let i = addresses(front).index_of(address);
                assert(addresses(breakpoints)[i] == address);
                let unit = choose|unit: int|
                    0 <= unit < front.len() && #[trigger] front[unit] == Some(address);
                assert(breakpoints[unit] == Some(address));
            }
            if addresses(breakpoints).contains(address) {
                let i = addresses(breakpoints).index_of(address);
                assert(addresses(front)[i] == address);
            }
            if exists|unit: int|
                0 <= unit < breakpoints.len() && #[trigger] breakpoints[unit] == Some(address) {
                let unit = choose|unit: int|
                    0 <= unit < breakpoints.len() && #[trigger] breakpoints[unit] == Some(address);
                assert(front[unit] == Some(address));
            }
        }
    }
}

/// Whether a read brings what `memory` holds.
pub open spec fn brings(memory: Seq<u8>, call: SwsCall) -> bool {
    match call {
        SwsCall::ReadMemory { address, data, outcome, .. } => outcome is Ok && address + data.len()
            <= memory.len() ==> data == memory.subrange(address as int, address + data.len()),
        _ => true,
    }
}

/// Words that were written are read back from a memory that holds what was
/// written to it and brings what it holds. Flash is not such a memory: reads
/// find it and writes do not.
pub proof fn law_words_are_read_back(
    memory: Seq<u8>,
    address: u64,
    width: nat,
    words: Seq<nat>,
    writing: Seq<SwsCall>,
    written: Result<(), Error>,
    reading: Seq<SwsCall>,
    read: Result<(), Error>,
    i: int,
)
    requires
        writes_words(address, width, words, writing, written),
        reads_words(address, width, words.len() * width, reading, read),
        written is Ok,
        read is Ok,
        address >= FLASH_ADDRESS_MAX,
        address + words.len() * width <= memory.len(),
        memory.subrange(address as int, address + words.len() * width) == data_of(writing[0]),
        forall|j: int| 0 <= j < reading.len() ==> brings(memory, #[trigger] reading[j]),
        0 <= i < words.len(),
        words[i] < bytes::le_bound(width),
    ensures
        bytes::word_at(bytes_read(reading, words.len() * width), i, width) == words[i],
{
    reveal(reads_memory);
    let len = words.len() * width;
    let all = bytes::le_words(words, width);
    assert(data_of(writing[0]) == all);
    assert forall|j: int| 0 <= j < len implies #[trigger] byte_read(reading, j) == all[j] by {
        let k = j / 1024;
        assert(0 <= k < reading.len());
        assert(is_read(reading[k], address + 1024 * k, read_part(zeros(len), k)));
        assert(brings(memory, reading[k]));
        assert(outcome_of(reading[k]) is Ok);
        assert(data_of(reading[k])[j % 1024] == memory[address + j]);
        assert(memory.subrange(address as int, address + len)[j] == memory[address + j]);
    }
    bytes::lemma_le_words_len(words, width);
    assert(bytes_read(reading, len) =~= all);
    bytes::law_word_at_le_words(words, width, i);
}

} // verus!
