//! What a core does over SWS, call by call and byte by byte.

use vstd::prelude::*;

use crate::bytes;
use crate::error::DebugProbeError;
use crate::error::Error;
use crate::tc32::calls;
use crate::tc32::calls::Reached;
use crate::tc32::calls::SwsCall;
use crate::tc32::types::BreakpointCause;
use crate::tc32::types::CoreInformation;
use crate::tc32::types::CoreStatus;
use crate::tc32::types::HaltReason;
use crate::tc32::types::RegisterId;
use crate::tc32::types::RegisterValue;
use crate::tc32::Tc32CoreState;
use crate::tc32::TlsrSwsDebug;

verus! {

/// The number that four bytes make, the lowest first.
pub open spec fn word(data: Seq<u8>, at: int) -> int {
    data[at] + 0x100 * data[at + 1] + 0x1_0000 * data[at + 2] + 0x100_0000 * data[at + 3]
}

/// Whether a core stops at any breakpoint: they are enabled, and one of them at
/// least is set.
pub open spec fn stops_anywhere(breakpoints: Seq<Option<u64>>, enabled: bool) -> bool {
    enabled && exists|unit: int|
        0 <= unit < breakpoints.len() && (#[trigger] breakpoints[unit]) is Some
}

/// What arms a breakpoint register is the address of the breakpoint with bit 24
/// set: for an address of 24 bits, the sum of both.
pub proof fn law_armed_register_holds_the_address(address: u64)
    ensures
        address < 0x0100_0000 ==> calls::armed(address) == address + 0x0100_0000,
        calls::armed(address) as int % 0x0100_0000 == address as int % 0x0100_0000,
        calls::armed(address) as int / 0x0100_0000 % 2 == 1,
        calls::armed(address) as int / 0x0200_0000 == address as int % 0x1_0000_0000 / 0x0200_0000,
{
    let low = (address % 0x1_0000_0000) as u32;
    let value = low | 0x0100_0000u32;
    assert(low < 0x0100_0000 ==> value == low + 0x0100_0000) by (bit_vector)
        requires
            value == low | 0x0100_0000u32,
    ;
    assert(value % 0x0100_0000 == low % 0x0100_0000 && value / 0x0100_0000 % 2 == 1 && value
        / 0x0200_0000 == low / 0x0200_0000) by (bit_vector)
        requires
            value == low | 0x0100_0000u32,
    ;
}

/// Breakpoints at distinct addresses of 24 bits arm their registers with
/// distinct values.
pub proof fn law_distinct_addresses_arm_distinct_values(a: u64, b: u64)
    requires
        a < 0x0100_0000,
        b < 0x0100_0000,
        a != b,
    ensures
        calls::armed(a) != calls::armed(b),
{
    law_armed_register_holds_the_address(a);
    law_armed_register_holds_the_address(b);
}

/// Setting the breakpoints writes the four registers at 0x610. The first holds
/// nothing. Each of the other three holds the address of its breakpoint with bit
/// 24 set, or nothing if that is not set or breakpoints are disabled. Two
/// milliseconds pass once they are written.
pub proof fn law_breakpoints_are_written_as_they_are(
    breakpoints: Seq<Option<u64>>,
    enabled: bool,
    t: Seq<SwsCall>,
    result: Result<(), Error>,
    unit: int,
)
    requires
        calls::writes_breakpoints(breakpoints, enabled, t, result),
        breakpoints.len() == 3,
        0 <= unit < 3,
    ensures
        t.len() >= 1,
        t[0] matches SwsCall::WriteMemory { address, data, outcome } && {
            let at = 4 * (unit + 1);
            &&& address == 0x610
            &&& data.len() == 16
            &&& word(data, 0) == 0
            &&& match breakpoints[unit] {
                Some(stop) => if enabled {
                    &&& data[at] == stop as int % 256
                    &&& data[at + 1] == stop as int / 256 % 256
                    &&& data[at + 2] == stop as int / 0x1_0000 % 256
                    &&& data[at + 3] == ((stop as int / 0x100_0000 % 256) as u8) | 1
                    &&& stop < 0x0100_0000 ==> word(data, at) == stop + 0x0100_0000
                } else {
                    word(data, at) == 0
                },
                None => word(data, at) == 0,
            }
            &&& match outcome {
                Err(error) => t.len() == 1 && result == Err::<(), _>(Error::Probe(error)),
                Ok(_) => t.len() == 2 && t[1] == (SwsCall::Delay { millis: 2 }) && result is Ok,
            }
        },
{
    let data = calls::breakpoint_payload(breakpoints, enabled);
    assert(t.take(1)[0] == t[0]);
    lemma_register(breakpoints, enabled, 0);
    lemma_register(breakpoints, enabled, unit + 1);
    if let Some(stop) = breakpoints[unit] {
        law_armed_register_holds_the_address(stop);
        if enabled {
            lemma_armed_bytes(stop);
        }
    }
}

/// The bytes of one breakpoint register.
proof fn lemma_register(breakpoints: Seq<Option<u64>>, enabled: bool, slot: int)
    requires
        0 <= slot < 4,
    ensures
        ({
            let data = calls::breakpoint_payload(breakpoints, enabled);
            let value = calls::slot_value(breakpoints, enabled, slot) as int;
            &&& data.len() == 16
            &&& word(data, 4 * slot) == value
            &&& data[4 * slot] == value % 256
            &&& data[4 * slot + 1] == value / 256 % 256
            &&& data[4 * slot + 2] == value / 0x1_0000 % 256
            &&& data[4 * slot + 3] == value / 0x100_0000
        }),
{
    let values = Seq::new(
        4,
        |slot: int| calls::slot_value(breakpoints, enabled, slot) as nat,
    );
    let data = calls::breakpoint_payload(breakpoints, enabled);
    assert(data == bytes::le_words(values, 4));
    let value = calls::slot_value(breakpoints, enabled, slot);
    assert(values[slot] == value);
    lemma_powers();
    lemma_digits(value);
    bytes::law_digits_of_words(values, 4, slot, 0);
    bytes::law_digits_of_words(values, 4, slot, 1);
    bytes::law_digits_of_words(values, 4, slot, 2);
    bytes::law_digits_of_words(values, 4, slot, 3);
}

/// The four lowest powers of 256.
proof fn lemma_powers()
    ensures
        vstd::arithmetic::power::pow(256, 0) == 1,
        vstd::arithmetic::power::pow(256, 1) == 0x100,
        vstd::arithmetic::power::pow(256, 2) == 0x1_0000,
        vstd::arithmetic::power::pow(256, 3) == 0x100_0000,
{
    reveal_with_fuel(vstd::arithmetic::power::pow, 4);
}

/// A word of 32 bits is made of four digits.
proof fn lemma_digits(value: u32)
    ensures
        value as int / 0x100_0000 % 256 == value as int / 0x100_0000,
        value == value as int % 256 + 0x100 * (value as int / 0x100 % 256) + 0x1_0000 * (
        value as int / 0x1_0000 % 256) + 0x100_0000 * (value as int / 0x100_0000),
{
}

/// The bytes of what arms a breakpoint register.
proof fn lemma_armed_bytes(address: u64)
    ensures
        calls::armed(address) as int % 256 == address as int % 256,
        calls::armed(address) as int / 256 % 256 == address as int / 256 % 256,
        calls::armed(address) as int / 0x1_0000 % 256 == address as int / 0x1_0000 % 256,
        calls::armed(address) as int / 0x100_0000 == ((address as int / 0x100_0000 % 256) as u8)
            | 1,
{
    let low = (address % 0x1_0000_0000) as u32;
    let value = low | 0x0100_0000u32;
    let top = (low / 0x100_0000) as u8;
    assert(value % 256 == low % 256 && value / 256 % 256 == low / 256 % 256 && value / 0x1_0000
        % 256 == low / 0x1_0000 % 256 && value / 0x100_0000 == top | 1) by (bit_vector)
        requires
            value == low | 0x0100_0000u32,
            top == low / 0x100_0000,
    ;
    let wide = address % 0x1_0000_0000u64;
    assert(wide % 256u64 == address % 256u64 && wide / 256u64 % 256u64 == address / 256u64 % 256u64
        && wide / 0x1_0000u64 % 256u64 == address / 0x1_0000u64 % 256u64 && wide / 0x100_0000u64
        == address / 0x100_0000u64 % 256u64) by (bit_vector)
        requires
            wide == address % 0x1_0000_0000u64,
    ;
}

/// Letting a core run writes the breakpoints and then, to the debug control
/// register at 0x602, the value 0x84 if breakpoints are enabled and at least one
/// of them is set, however many, and 0x08 otherwise.
pub proof fn law_run_stops_if_any_breakpoint_is_set(
    breakpoints: Seq<Option<u64>>,
    enabled: bool,
    t: Seq<SwsCall>,
    result: Result<(), Error>,
)
    requires
        calls::lets_go(
            breakpoints,
            enabled,
            calls::run_control(breakpoints, enabled),
            t,
            result,
        ),
    ensures
        lets_go(
            breakpoints,
            enabled,
            if stops_anywhere(breakpoints, enabled) {
                0x84
            } else {
                0x08
            },
            t,
            result,
        ),
{
    lemma_any(breakpoints);
    law_control_follows_the_breakpoints(
        breakpoints,
        enabled,
        calls::run_control(breakpoints, enabled),
        t,
        result,
    );
}

/// Whether the calls `t` write the breakpoints and then, if that succeeded, the
/// one byte `control` to the debug control register.
pub open spec fn lets_go(
    breakpoints: Seq<Option<u64>>,
    enabled: bool,
    control: u8,
    t: Seq<SwsCall>,
    result: Result<(), Error>,
) -> bool {
    &&& t.len() == 1 || t.len() == 3
    &&& t[0] is WriteMemory && t[0]->WriteMemory_address == 0x610
    &&& t[0]->WriteMemory_data == calls::breakpoint_payload(breakpoints, enabled)
    &&& t.len() == 3 <==> t[0]->WriteMemory_outcome is Ok
    &&& t.len() == 1 ==> result == Err::<(), _>(Error::Probe(t[0]->WriteMemory_outcome->Err_0))
    &&& t.len() == 3 ==> {
        &&& t[1] == (SwsCall::Delay { millis: 2 })
        &&& t[2] matches SwsCall::WriteMemory { address, data, outcome }
        &&& address == 0x602
        &&& data == seq![control]
        &&& match outcome {
            Ok(_) => result is Ok,
            Err(error) => result == Err::<(), _>(Error::Probe(error)),
        }
    }
}

/// Writing the debug control register after the breakpoints, as a reset and a
/// step do.
pub proof fn law_control_follows_the_breakpoints(
    breakpoints: Seq<Option<u64>>,
    enabled: bool,
    control: u8,
    t: Seq<SwsCall>,
    result: Result<(), Error>,
)
    requires
        calls::lets_go(breakpoints, enabled, control, t, result),
    ensures
        lets_go(breakpoints, enabled, control, t, result),
{
    assert(t.take(1)[0] == t[0]);
    if t.len() == 3 {
        assert(t.take(2).take(1)[0] == t[0]);
        assert(t.take(2)[1] == t[1]);
        assert(t.skip(2)[0] == t[2]);
    }
}

/// There is an address of a breakpoint where one is set.
proof fn lemma_any(breakpoints: Seq<Option<u64>>)
    ensures
        calls::addresses(breakpoints).len() > 0 <==> exists|unit: int|
            0 <= unit < breakpoints.len() && (#[trigger] breakpoints[unit]) is Some,
    decreases breakpoints.len(),
{
    if breakpoints.len() > 0 {
        let front = breakpoints.drop_last();
        let last = breakpoints[breakpoints.len() - 1];
        lemma_any(front);
        if last is None {
            if exists|unit: int| 0 <= unit < front.len() && (#[trigger] front[unit]) is Some {
                let unit = choose|unit: int|
                    0 <= unit < front.len() && (#[trigger] front[unit]) is Some;
                assert(breakpoints[unit] is Some);
            }
            if exists|unit: int|
                0 <= unit < breakpoints.len() && (#[trigger] breakpoints[unit]) is Some {
                let unit = choose|unit: int|
                    0 <= unit < breakpoints.len() && (#[trigger] breakpoints[unit]) is Some;
                assert(front[unit] is Some);
            }
        }
    }
}

/// The active breakpoints are those of the three units that are set, in the
/// order of the units, and none if breakpoints are disabled.
pub proof fn law_active_breakpoints_are_the_set_ones(breakpoints: Seq<Option<u64>>)
    requires
        breakpoints.len() == 3,
    ensures
        calls::active(breakpoints, true) == listed(breakpoints[0]) + listed(breakpoints[1])
            + listed(breakpoints[2]),
        calls::active(breakpoints, false) == Seq::<u64>::empty(),
{
    let two = breakpoints.drop_last();
    let one = two.drop_last();
    let none = one.drop_last();
    assert(calls::addresses(none) =~= Seq::empty());
    assert(calls::addresses(one) =~= listed(breakpoints[0]));
    assert(calls::addresses(two) =~= listed(breakpoints[0]) + listed(breakpoints[1]));
    assert(calls::addresses(breakpoints) =~= listed(breakpoints[0]) + listed(breakpoints[1])
        + listed(breakpoints[2]));
}

/// The address of a breakpoint if it is set.
pub open spec fn listed(slot: Option<u64>) -> Seq<u64> {
    match slot {
        Some(address) => seq![address],
        None => Seq::empty(),
    }
}

/// The program counter is the four bytes at 0x6bc, the lowest first.
pub proof fn law_program_counter_is_four_bytes(t: Seq<SwsCall>, result: Result<u32, Error>)
    requires
        calls::reads_pc(t, result),
    ensures
        reads_pc(t, result),
{
    let data = t[0]->ReadMemory_data;
    lemma_word(data);
}

/// Whether the calls `t` read the program counter.
pub open spec fn reads_pc(t: Seq<SwsCall>, result: Result<u32, Error>) -> bool {
    &&& t.len() == 1
    &&& t[0] matches SwsCall::ReadMemory { address, data, outcome, .. }
    &&& address == 0x6bc
    &&& data.len() == 4
    &&& match outcome {
        Ok(_) => result matches Ok(pc) && pc == word(data, 0),
        Err(error) => result == Err::<u32, _>(Error::Probe(error)),
    }
}

proof fn lemma_word(data: Seq<u8>)
    requires
        data.len() == 4,
    ensures
        bytes::le_value(data) == word(data, 0),
        0 <= word(data, 0) <= u32::MAX,
{
    reveal_with_fuel(bytes::le_value, 5);
}

/// Where the core stands, as it is told by its program counter.
pub open spec fn locates(t: Seq<SwsCall>, result: Result<CoreInformation, Error>) -> bool {
    match result {
        Ok(information) => information.pc <= u32::MAX && reads_pc(t, Ok(information.pc as u32)),
        Err(error) => reads_pc(t, Err(error)),
    }
}

/// Halting a core writes 0x05 to the debug control register and then reads the
/// program counter.
pub proof fn law_halt_writes_and_locates(
    t: Seq<SwsCall>,
    result: Result<CoreInformation, Error>,
)
    requires
        calls::halts(t, result),
    ensures
        halts(t, result),
{
    if t.len() > 1 {
        assert(t.take(1)[0] == t[0]);
        lemma_locates(t.skip(1), result);
    }
}

/// Whether the calls `t` halt a core.
pub open spec fn halts(t: Seq<SwsCall>, result: Result<CoreInformation, Error>) -> bool {
    &&& t.len() == 1 || t.len() == 2
    &&& t[0] matches SwsCall::WriteMemory { address, data, outcome }
    &&& address == 0x602
    &&& data == seq![0x05u8]
    &&& match outcome {
        Err(error) => t.len() == 1 && result == Err::<CoreInformation, _>(Error::Probe(error)),
        Ok(_) => t.len() == 2 && locates(t.skip(1), result),
    }
}

proof fn lemma_locates(t: Seq<SwsCall>, result: Result<CoreInformation, Error>)
    requires
        calls::locates(t, result),
    ensures
        locates(t, result),
{
    match result {
        Ok(information) => law_program_counter_is_four_bytes(t, Ok(information.pc as u32)),
        Err(error) => law_program_counter_is_four_bytes(t, Err(error)),
    }
}

/// A reset that halts the core writes 0x88 to the debug control register after
/// the breakpoints, and then halts it.
pub proof fn law_reset_is_followed_by_a_halt(
    breakpoints: Seq<Option<u64>>,
    enabled: bool,
    t: Seq<SwsCall>,
    result: Result<CoreInformation, Error>,
)
    requires
        calls::resets_and_halts(breakpoints, enabled, t, result),
    ensures
        t.len() <= 3 ==> (result matches Err(error) && lets_go(
            breakpoints,
            enabled,
            0x88,
            t,
            Err(error),
        )),
        t.len() > 3 ==> lets_go(breakpoints, enabled, 0x88, t.take(3), Ok(())) && halts(
            t.skip(3),
            result,
        ),
{
    if t.len() <= 3 {
        law_control_follows_the_breakpoints(breakpoints, enabled, 0x88, t, Err(result->Err_0));
    } else {
        law_control_follows_the_breakpoints(breakpoints, enabled, 0x88, t.take(3), Ok(()));
        law_halt_writes_and_locates(t.skip(3), result);
    }
}

/// A step writes 0x06 to the debug control register after the breakpoints, then
/// 0x80 to the step register at 0x613, and reads the program counter.
pub proof fn law_step_writes_and_locates(
    breakpoints: Seq<Option<u64>>,
    enabled: bool,
    t: Seq<SwsCall>,
    result: Result<CoreInformation, Error>,
)
    requires
        calls::steps(breakpoints, enabled, t, result),
    ensures
        t.len() <= 3 ==> (result matches Err(error) && lets_go(
            breakpoints,
            enabled,
            0x06,
            t,
            Err(error),
        )),
        t.len() > 3 ==> {
            &&& lets_go(breakpoints, enabled, 0x06, t.take(3), Ok(()))
            &&& t[3] matches SwsCall::WriteMemory { address, data, outcome }
            &&& address == 0x613
            &&& data == seq![0x80u8]
            &&& match outcome {
                Err(error) => t.len() == 4 && result == Err::<CoreInformation, _>(
                    Error::Probe(error),
                ),
                Ok(_) => t.len() == 5 && locates(t.skip(4), result),
            }
        },
{
    if t.len() <= 3 {
        law_control_follows_the_breakpoints(breakpoints, enabled, 0x06, t, Err(result->Err_0));
    } else {
        law_control_follows_the_breakpoints(breakpoints, enabled, 0x06, t.take(3), Ok(()));
        assert(t.skip(3)[0] == t[3]);
        if t.len() > 4 {
            assert(t.subrange(3, 4)[0] == t[3]);
            lemma_locates(t.skip(4), result);
        }
    }
}

/// The registers are the 32 words of four bytes at 0x680, except the one with
/// the number 15, the program counter, which is read from where it stands.
pub proof fn law_registers_are_words(t: Seq<SwsCall>, result: Result<Seq<u32>, Error>)
    requires
        calls::reads_registers(t, result),
    ensures
        reads_registers(t, result),
{
    let data = t[0]->ReadMemory_data;
    if let Ok(values) = result {
        assert forall|i: int| 0 <= i < 32 && i != 15 implies #[trigger] values[i] == word(
            data,
            4 * i,
        ) by {
            lemma_word(data.subrange(i * 4, i * 4 + 4));
        }
    }
    if t[0]->ReadMemory_outcome is Ok {
        match result {
            Ok(values) => law_program_counter_is_four_bytes(t.skip(1), Ok(values[15])),
            Err(error) => law_program_counter_is_four_bytes(t.skip(1), Err(error)),
        }
    }
}

/// Whether the calls `t` read all registers.
pub open spec fn reads_registers(t: Seq<SwsCall>, result: Result<Seq<u32>, Error>) -> bool {
    &&& t.len() == 1 || t.len() == 2
    &&& t[0] matches SwsCall::ReadMemory { address, data, outcome, .. }
    &&& address == 0x680
    &&& data.len() == 128
    &&& match outcome {
        Err(error) => t.len() == 1 && result == Err::<Seq<u32>, _>(Error::Probe(error)),
        Ok(_) => {
            &&& t.len() == 2
            &&& match result {
                Err(error) => reads_pc(t.skip(1), Err(error)),
                Ok(values) => {
                    &&& values.len() == 32
                    &&& reads_pc(t.skip(1), Ok(values[15]))
                    &&& forall|i: int|
                        0 <= i < 32 && i != 15 ==> #[trigger] values[i] == word(data, 4 * i)
                },
            }
        },
    }
}

/// Reading a register brings the word with its number, for every number below
/// 32, and is refused for the others, after the registers were read.
pub proof fn law_register_is_the_word_with_its_number(
    id: RegisterId,
    t: Seq<SwsCall>,
    result: Result<RegisterValue, Error>,
)
    requires
        calls::reads_register(id, t, result),
    ensures
        exists|values: Result<Seq<u32>, Error>|
            {
                &&& #[trigger] reads_registers(t, values)
                &&& values matches Err(error) ==> result == Err::<RegisterValue, _>(error)
                &&& values is Ok && id.0 < 32 ==> result == Ok::<_, Error>(
                    RegisterValue::U32(values->Ok_0[id.0 as int]),
                )
                &&& values is Ok && id.0 >= 32 ==> result == Err::<RegisterValue, _>(
                    Error::UnknownRegister(id.0),
                )
            },
{
    let values = choose|values: Result<Seq<u32>, Error>|
        {
            &&& #[trigger] calls::reads_registers(t, values)
            &&& match values {
                Err(error) => result == Err::<RegisterValue, _>(error),
                Ok(values) => if id.0 < values.len() {
                    result == Ok::<_, Error>(RegisterValue::U32(values[id.0 as int]))
                } else {
                    result == Err::<RegisterValue, _>(Error::UnknownRegister(id.0))
                },
            }
        };
    law_registers_are_words(t, values);
}

/// Only a core that was last known to run is looked at: it has stopped if its
/// program counter, four bytes at 0x6bc, is the address of a breakpoint that is
/// set while breakpoints are enabled. Of any other core the status is what was
/// remembered.
pub proof fn law_status_is_told_by_the_program_counter(
    before: Tc32CoreState,
    t: Seq<SwsCall>,
    result: Result<CoreStatus, Error>,
    after: Tc32CoreState,
)
    requires
        calls::observes(before, t, result, after),
    ensures
        !(before.status is Running) ==> t.len() == 0 && result == Ok::<_, Error>(before.status)
            && after == before,
        before.status is Running ==> match result {
            Err(error) => reads_pc(t, Err(error)) && after == before,
            Ok(status) => {
                let pc = word(t[0]->ReadMemory_data, 0);
                let stops = before.breakpoints_enabled && exists|unit: int|
                    0 <= unit < 3 && #[trigger] before.hardware_breakpoints@[unit] == Some(
                        pc as u64,
                    );
                &&& reads_pc(t, Ok(pc as u32))
                &&& status == if stops {
                    CoreStatus::Halted(HaltReason::Breakpoint(BreakpointCause::Hardware))
                } else {
                    CoreStatus::Running
                }
                &&& after.status == status
                &&& after.hardware_breakpoints == before.hardware_breakpoints
                &&& after.breakpoints_enabled == before.breakpoints_enabled
            },
        },
{
    if before.status is Running {
        match result {
            Err(error) => law_program_counter_is_four_bytes(t, Err(error)),
            Ok(status) => {
                let data = calls::data_of(t[0]);
                lemma_word(data);
                law_program_counter_is_four_bytes(t, Ok(bytes::le_value(data) as u32));
                calls::law_core_stops_at_breakpoints(before, t, status, after);
            },
        }
    }
}

/// Changing a breakpoint is refused for a unit that is not one of the three;
/// otherwise just that unit changes, whatever becomes of the registers.
pub proof fn law_one_breakpoint_changes(
    unit: usize,
    slot: Option<u64>,
    before: Tc32CoreState,
    t: Seq<SwsCall>,
    result: Result<(), Error>,
    after: Tc32CoreState,
)
    requires
        calls::changes_breakpoint(unit, slot, before, t, result, after),
    ensures
        unit >= 3 ==> t.len() == 0 && after == before && result == Err::<(), _>(
            Error::BreakpointOutOfRange(unit),
        ),
        unit < 3 ==> {
            &&& after.hardware_breakpoints@[unit as int] == slot
            &&& forall|other: int|
                0 <= other < 3 && other != unit ==> #[trigger] after.hardware_breakpoints@[other]
                    == before.hardware_breakpoints@[other]
            &&& after.breakpoints_enabled == before.breakpoints_enabled
            &&& after.status == before.status
            &&& calls::writes_breakpoints(
                after.hardware_breakpoints@,
                after.breakpoints_enabled,
                t,
                result,
            )
        },
{
}

/// How a call ended; a delay cannot fail.
pub open spec fn ended(call: SwsCall) -> Result<(), DebugProbeError> {
    match call {
        SwsCall::ReadMemory { outcome, .. } => outcome,
        SwsCall::ReadFlash { outcome, .. } => outcome,
        SwsCall::WriteMemory { outcome, .. } => outcome,
        SwsCall::WriteFlash { outcome, .. } => outcome,
        SwsCall::EraseFlash { outcome } => outcome,
        SwsCall::Delay { .. } => Ok(()),
    }
}

/// Memory is read 1024 bytes at a time, one part behind the other: parts that
/// begin below 0x80000 from flash, the others directly. It ends with the first
/// part that fails, that begins beyond 32 bits or beyond 64.
pub proof fn law_memory_is_read_in_parts(
    address: u64,
    buffer: Seq<u8>,
    t: Seq<SwsCall>,
    result: Result<(), Error>,
)
    requires
        calls::reads_memory(address, buffer, t, result),
    ensures
        forall|i: int| 0 <= i < t.len() ==> reads_part(address, buffer, #[trigger] t[i], i),
        forall|i: int| 0 <= i < t.len() - 1 ==> ended(#[trigger] t[i]) is Ok,
        ({
            let next = address + 1024 * t.len();
            if t.len() > 0 && ended(t.last()) is Err {
                result == Err::<(), _>(Error::Probe(ended(t.last())->Err_0))
            } else if 1024 * t.len() >= buffer.len() {
                result is Ok
            } else {
                &&& next > u64::MAX ==> result == Err::<(), _>(Error::AddressOverflow)
                &&& u32::MAX < next <= u64::MAX ==> result == Err::<(), _>(
                    Error::AddressOutOfRange(next as u64),
                )
                &&& next > u32::MAX
            }
        }),
{
    reveal(calls::reads_memory);
}

/// Whether `call` reads the part of `buffer` with index `i`.
pub open spec fn reads_part(address: u64, buffer: Seq<u8>, call: SwsCall, i: int) -> bool {
    let at = address + 1024 * i;
    let to = if buffer.len() < 1024 * (i + 1) {
        buffer.len() as int
    } else {
        1024 * (i + 1)
    };
    let part = buffer.subrange(1024 * i, to);
    &&& 1024 * i < buffer.len()
    &&& match call {
        SwsCall::ReadFlash { address, held, data, .. } => at < 0x8_0000 && address == at && held
            == part && data.len() == part.len(),
        SwsCall::ReadMemory { address, held, data, .. } => at >= 0x8_0000 && address == at && held
            == part && data.len() == part.len(),
        _ => false,
    }
}

/// What a read leaves in the buffer: in the place of each byte the one that its
/// part brought, or, behind the last part, the byte that was there.
pub proof fn law_memory_bytes_come_from_their_parts(
    address: u64,
    buffer: Seq<u8>,
    t: Seq<SwsCall>,
    result: Result<(), Error>,
    j: int,
)
    requires
        calls::reads_memory(address, buffer, t, result),
        0 <= j < buffer.len(),
    ensures
        calls::filled(buffer, t).len() == buffer.len(),
        calls::filled(buffer, t)[j] == if j / 1024 < t.len() {
            match t[j / 1024] {
                SwsCall::ReadFlash { data, .. } => data[j % 1024],
                SwsCall::ReadMemory { data, .. } => data[j % 1024],
                _ => buffer[j],
            }
        } else {
            buffer[j]
        },
        result is Ok ==> j / 1024 < t.len() && calls::bytes_read(t, buffer.len())[j]
            == calls::filled(buffer, t)[j],
{
    reveal(calls::reads_memory);
    if j / 1024 < t.len() {
        assert(calls::is_read(
            t[j / 1024],
            address + 1024 * (j / 1024),
            calls::read_part(buffer, j / 1024),
        ));
    }
}

/// A read of memory brings what the flash and the rest of the memory hold.
pub proof fn law_memory_read_brings_content(
    flash: Seq<u8>,
    memory: Seq<u8>,
    address: u64,
    buffer: Seq<u8>,
    t: Seq<SwsCall>,
    result: Result<(), Error>,
    j: int,
)
    requires
        calls::reads_memory(address, buffer, t, result),
        result is Ok,
        0 <= j < buffer.len(),
        address + buffer.len() <= flash.len(),
        address + buffer.len() <= memory.len(),
        forall|i: int| 0 <= i < t.len() ==> is_faithful(flash, memory, #[trigger] t[i]),
    ensures
        calls::filled(buffer, t)[j] == if address + 1024 * (j / 1024) < 0x8_0000 {
            flash[address + j]
        } else {
            memory[address + j]
        },
{
    law_memory_is_read_in_parts(address, buffer, t, result);
    law_memory_bytes_come_from_their_parts(address, buffer, t, result, j);
    let i = j / 1024;
    assert(reads_part(address, buffer, t[i], i));
    assert(is_faithful(flash, memory, t[i]));
    assert(i == t.len() - 1 ==> t[i] == t.last());
    assert(ended(t[i]) is Ok);
}

/// Whether a read brings what the flash or the rest of the memory holds.
pub open spec fn is_faithful(flash: Seq<u8>, memory: Seq<u8>, call: SwsCall) -> bool {
    match call {
        SwsCall::ReadFlash { address, data, outcome, .. } => outcome is Ok ==> forall|k: int|
            0 <= k < data.len() ==> #[trigger] data[k] == flash[address + k],
        SwsCall::ReadMemory { address, data, outcome, .. } => outcome is Ok ==> forall|k: int|
            0 <= k < data.len() ==> #[trigger] data[k] == memory[address + k],
        _ => true,
    }
}

/// Memory is written by one call that carries all of the data; an address
/// beyond 32 bits is refused, and nothing is written.
pub proof fn law_memory_is_written_at_once(
    address: u64,
    data: Seq<u8>,
    t: Seq<SwsCall>,
    result: Result<(), Error>,
)
    requires
        calls::writes_memory(address, data, t, result),
    ensures
        address > u32::MAX ==> t.len() == 0 && result == Err::<(), _>(
            Error::AddressOutOfRange(address),
        ),
        address <= u32::MAX ==> t.len() == 1 && (t[0] matches SwsCall::WriteMemory {
            address: at,
            data: written,
            outcome,
        } && at == address && written == data && match outcome {
            Ok(_) => result is Ok,
            Err(error) => result == Err::<(), _>(Error::Probe(error)),
        }),
{
}

/// Words are written as their bytes, the lowest first, to an address that is a
/// multiple of their width, and to no other.
pub proof fn law_words_are_written_byte_by_byte(
    address: u64,
    width: nat,
    words: Seq<nat>,
    t: Seq<SwsCall>,
    result: Result<(), Error>,
    i: int,
    j: nat,
)
    requires
        calls::writes_words(address, width, words, t, result),
        0 < width <= 8,
        0 <= i < words.len(),
        j < width,
    ensures
        address as nat % width != 0 ==> t.len() == 0 && result == Err::<(), _>(
            Error::MemoryNotAligned { address, alignment: width as usize },
        ),
        address as nat % width == 0 && address <= u32::MAX ==> t.len() == 1 && (
        t[0] matches SwsCall::WriteMemory { address: at, data, .. } && at == address && data.len()
            == words.len() * width && data[i * width + j] == words[i] as int
            / vstd::arithmetic::power::pow(256, j) % 256),
{
    bytes::law_digits_of_words(words, width, i, j);
}

/// Words are read from an address that is a multiple of their width, and from no
/// other: as memory, and each from the bytes that it stands on.
pub proof fn law_words_are_read_where_they_stand(
    address: u64,
    width: nat,
    len: nat,
    t: Seq<SwsCall>,
    result: Result<(), Error>,
)
    requires
        calls::reads_words(address, width, len, t, result),
        0 < width <= 8,
    ensures
        address as nat % width != 0 ==> t.len() == 0 && result == Err::<(), _>(
            Error::MemoryNotAligned { address, alignment: width as usize },
        ),
        address as nat % width == 0 ==> calls::reads_memory(
            address,
            Seq::new(len, |i: int| 0u8),
            t,
            result,
        ),
{
    assert(calls::zeros(len) =~= Seq::new(len, |i: int| 0u8));
}

/// What a core has called stays on record: calls are added to those before, and
/// they lead from the one state of the SWS operations to the other.
pub proof fn law_calls_are_only_added<S: TlsrSwsDebug>(before: Reached<S>, after: Reached<S>)
    requires
        calls::called_on(before, after),
    ensures
        before.calls.len() <= after.calls.len(),
        after.calls.take(before.calls.len() as int) == before.calls,
        exists|states: Seq<S>|
            {
                &&& states.len() == after.calls.len() - before.calls.len() + 1
                &&& states[0] == before.sws
                &&& states.last() == after.sws
                &&& forall|i: int|
                    0 <= i < states.len() - 1 ==> S::takes(
                        #[trigger] states[i],
                        after.calls[before.calls.len() + i],
                        states[i + 1],
                    )
            },
{
    reveal(calls::leads);
    let added = calls::calls_since(before, after);
    assert(after.calls.take(before.calls.len() as int) =~= before.calls);
    let states = choose|states: Seq<S>| #[trigger]
        calls::passes(states, added) && states[0] == before.sws && states.last() == after.sws;
    assert forall|i: int| 0 <= i < states.len() - 1 implies S::takes(
        #[trigger] states[i],
        after.calls[before.calls.len() + i],
        states[i + 1],
    ) by {
        assert(S::takes(states[i], added[i], states[i + 1]));
        assert(added[i] == after.calls[before.calls.len() + i]);
    }
}

} // verus!
