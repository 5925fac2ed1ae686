use std::time::Duration;

use telink_sws::bytes::decode_le;
use telink_sws::bytes::decode_word;
use telink_sws::bytes::encode_le;
use telink_sws::error::DebugProbeError;
use telink_sws::error::Error;
use telink_sws::error::Missing;
use telink_sws::tc32::registers::RegisterDataType;
use telink_sws::tc32::registers::RegisterRole;
use telink_sws::tc32::registers::UnwindRule;
use telink_sws::tc32::types::Architecture;
use telink_sws::tc32::types::BreakpointCause;
use telink_sws::tc32::types::CoreInformation;
use telink_sws::tc32::types::CoreStatus;
use telink_sws::tc32::types::CoreType;
use telink_sws::tc32::types::HaltReason;
use telink_sws::tc32::types::InstructionSet;
use telink_sws::tc32::types::RegisterId;
use telink_sws::tc32::types::RegisterValue;
use telink_sws::tc32::Tc32;
use telink_sws::tc32::Tc32CommunicationInterface;
use telink_sws::tc32::Tc32CoreState;
use telink_sws::tc32::TlsrSwsDebug;

#[derive(Debug, PartialEq)]
enum Call {
    ReadMemory(u32, usize),
    ReadFlash(u32, usize),
    Write(u32, Vec<u8>),
    Delay(u64),
}

/// A core whose memory at `a` holds the low byte of `a * 7`, except where a
/// byte was written.
#[derive(Default)]
struct Target {
    calls: Vec<Call>,
    written: Vec<(u32, u8)>,
    fail_at: Option<usize>,
}

impl Target {
    fn byte(&self, address: u32) -> u8 {
        for (at, byte) in self.written.iter().rev() {
            if *at == address {
                return *byte;
            }
        }
        address.wrapping_mul(7) as u8
    }

    fn fill(&self, address: u32, data: &mut [u8]) -> Result<(), DebugProbeError> {
        if self.fail_at == Some(self.calls.len()) {
            return Err(DebugProbeError::Timeout);
        }
        for (i, byte) in data.iter_mut().enumerate() {
            *byte = self.byte(address + i as u32);
        }
        Ok(())
    }

    fn set_pc(&mut self, pc: u32) {
        for (i, byte) in pc.to_le_bytes().iter().enumerate() {
            self.written.push((0x6bc + i as u32, *byte));
        }
    }
}

impl TlsrSwsDebug for Target {
    fn read_sws_memory(&mut self, address: u32, data: &mut [u8]) -> Result<(), DebugProbeError> {
        self.calls.push(Call::ReadMemory(address, data.len()));
        self.fill(address, data)
    }

    fn read_sws_flash(&mut self, address: u32, data: &mut [u8]) -> Result<(), DebugProbeError> {
        self.calls.push(Call::ReadFlash(address, data.len()));
        self.fill(address, data)
    }

    fn write_sws_memory(&mut self, address: u32, data: &[u8]) -> Result<(), DebugProbeError> {
        self.calls.push(Call::Write(address, data.to_vec()));
        if self.fail_at == Some(self.calls.len()) {
            return Err(DebugProbeError::Timeout);
        }
        for (i, byte) in data.iter().enumerate() {
            self.written.push((address + i as u32, *byte));
        }
        Ok(())
    }

    fn write_sws_flash(&mut self, _address: u32, _data: &[u8]) -> Result<(), DebugProbeError> {
        unreachable!()
    }

    fn erase_sws_flash_all(&mut self) -> Result<(), DebugProbeError> {
        unreachable!()
    }

    fn delay_ms(&mut self, millis: u64) {
        self.calls.push(Call::Delay(millis));
    }
}

fn debugged<'a>(target: &'a mut Target, state: &'a mut Tc32CoreState) -> Tc32<'a, Target> {
    Tc32::new(Tc32CommunicationInterface::new(target), state)
}

const NO_TIME: Duration = Duration::from_millis(0);

const FAILED: Error = Error::Probe(DebugProbeError::Timeout);

#[test]
fn numbers_are_little_endian() {
    assert_eq!(decode_le(&[]), 0);
    assert_eq!(decode_le(&[0x78, 0x56, 0x34, 0x12]), 0x12345678);
    assert_eq!(encode_le(0x12345678, 3), vec![0x78, 0x56, 0x34]);
    assert_eq!(decode_word(&[1, 2, 3, 4], 1, 2), 0x0403);
    assert_eq!(decode_le(&encode_le(u64::MAX - 1, 8)), u64::MAX - 1);
}

#[test]
fn reads_are_cut_and_sent_where_the_address_says() {
    let mut target = Target::default();
    let mut state = Tc32CoreState::new();
    let mut data = vec![0; 2100];
    debugged(&mut target, &mut state)
        .read_8(0x80000 - 1024, &mut data)
        .unwrap();
    assert_eq!(
        target.calls,
        vec![
            Call::ReadFlash(0x7fc00, 1024),
            Call::ReadMemory(0x80000, 1024),
            Call::ReadMemory(0x80400, 52),
        ]
    );
    for (i, byte) in data.iter().enumerate() {
        assert_eq!(*byte, target.byte(0x7fc00 + i as u32));
    }
}

#[test]
fn unreachable_addresses_are_reported() {
    let mut target = Target::default();
    let mut state = Tc32CoreState::new();
    let mut core = debugged(&mut target, &mut state);
    let mut data = vec![0; 2000];
    let error = core.read_8(0x1_0000_0000, &mut data).unwrap_err();
    assert_eq!(error, Error::AddressOutOfRange(0x1_0000_0000));
    assert_eq!(
        error.message(),
        Some("TC32 address 0x100000000 out of range".to_string())
    );
    let error = core.read_8(u64::MAX, &mut data).unwrap_err();
    assert_eq!(error, Error::AddressOutOfRange(u64::MAX));
    assert_eq!(core.read_8(u64::MAX, &mut []), Ok(()));
    assert_eq!(
        core.write_8(0x1_2345_6789, &[1]),
        Err(Error::AddressOutOfRange(0x1_2345_6789))
    );
    assert_eq!(
        Error::AddressOverflow.message(),
        Some("TC32 memory address overflow".to_string())
    );
    assert!(target.calls.is_empty());
}

#[test]
fn a_read_that_leaves_the_address_space_stops_there() {
    let mut target = Target::default();
    let mut state = Tc32CoreState::new();
    let mut data = vec![0; 3000];
    let error = debugged(&mut target, &mut state)
        .read_8(0xffff_fc00, &mut data)
        .unwrap_err();
    assert_eq!(error, Error::AddressOutOfRange(0x1_0000_0000));
    assert_eq!(target.calls, vec![Call::ReadMemory(0xffff_fc00, 1024)]);
}

#[test]
fn words_are_read_and_written() {
    let mut target = Target::default();
    let mut state = Tc32CoreState::new();
    let mut core = debugged(&mut target, &mut state);
    core.write_64(0x840000, &[0x1122334455667788]).unwrap();
    core.write_32(0x840008, &[0xdeadbeef, 1]).unwrap();
    core.write_16(0x840010, &[0xabcd]).unwrap();
    core.write_8(0x840012, &[0x99]).unwrap();

    let mut wide = [0u64; 2];
    core.read_64(0x840000, &mut wide).unwrap();
    assert_eq!(wide, [0x1122334455667788, 0x1_deadbeef]);
    let mut words = [0u32; 3];
    core.read_32(0x840000, &mut words).unwrap();
    assert_eq!(words, [0x55667788, 0x11223344, 0xdeadbeef]);
    let mut halves = [0u16; 2];
    core.read_16(0x84000e, &mut halves).unwrap();
    assert_eq!(halves, [0, 0xabcd]);
    let mut byte = [0u8];
    core.read_8(0x840012, &mut byte).unwrap();
    assert_eq!(byte, [0x99]);
    assert_eq!(core.supports_8bit_transfers(), Ok(true));
    assert!(!core.supports_native_64bit_access());
    assert_eq!(core.flush(), Ok(()));
    assert_eq!(
        target.calls[1],
        Call::Write(0x840008, vec![0xef, 0xbe, 0xad, 0xde, 1, 0, 0, 0])
    );
}

#[test]
fn unaligned_words_are_refused() {
    let mut target = Target::default();
    let mut state = Tc32CoreState::new();
    let mut core = debugged(&mut target, &mut state);
    let refused = |address, alignment| Err(Error::MemoryNotAligned { address, alignment });
    assert_eq!(core.read_64(0x840004, &mut [0]), refused(0x840004, 8));
    assert_eq!(core.read_32(0x840002, &mut [0]), refused(0x840002, 4));
    assert_eq!(core.read_16(0x840001, &mut [0]), refused(0x840001, 2));
    assert_eq!(core.write_64(0x840001, &[0]), refused(0x840001, 8));
    assert_eq!(core.write_32(0x840003, &[0]), refused(0x840003, 4));
    assert_eq!(core.write_16(0x840005, &[0]), refused(0x840005, 2));
    assert!(target.calls.is_empty());
}

#[test]
fn a_failed_read_of_words_keeps_the_old_ones() {
    let mut target = Target {
        fail_at: Some(1),
        ..Target::default()
    };
    let mut state = Tc32CoreState::new();
    let mut words = [5u32; 2];
    assert_eq!(
        debugged(&mut target, &mut state).read_32(0x840000, &mut words),
        Err(FAILED)
    );
    assert_eq!(words, [5; 2]);
}

#[test]
fn halting_tells_where_the_core_stands() {
    let mut target = Target::default();
    target.set_pc(0x1234);
    let mut state = Tc32CoreState::new();
    {
        let mut core = debugged(&mut target, &mut state);
        assert_eq!(core.status(), Ok(CoreStatus::Unknown));
        assert_eq!(core.core_halted(), Ok(false));
        assert_eq!(core.halt(NO_TIME), Ok(CoreInformation { pc: 0x1234 }));
        assert_eq!(core.core_halted(), Ok(true));
        assert_eq!(
            core.status(),
            Ok(CoreStatus::Halted(HaltReason::Request))
        );
    }
    assert_eq!(state.status, CoreStatus::Halted(HaltReason::Request));
    assert_eq!(
        target.calls,
        vec![Call::Write(0x602, vec![0x05]), Call::ReadMemory(0x6bc, 4)]
    );
}

fn payload(slots: [u32; 4]) -> Vec<u8> {
    slots.iter().flat_map(|slot| slot.to_le_bytes()).collect()
}

#[test]
fn running_depends_on_breakpoints() {
    let mut target = Target::default();
    let mut state = Tc32CoreState::new();
    {
        let mut core = debugged(&mut target, &mut state);
        core.run().unwrap();
        core.set_hw_breakpoint(1, 0x1_0000_2468).unwrap();
        assert_eq!(core.active_breakpoints(), vec![0x1_0000_2468]);
        assert!(core.has_active_breakpoints());
        core.run().unwrap();
        core.enable_breakpoints(false).unwrap();
        assert!(!core.hw_breakpoints_enabled());
        assert!(!core.has_active_breakpoints());
        core.run().unwrap();
        core.reset().unwrap();
    }
    assert_eq!(state.status, CoreStatus::Running);
    let none = payload([0, 0, 0, 0]);
    let one = payload([0, 0, 0x0100_2468, 0]);
    assert_eq!(
        target.calls,
        vec![
            Call::Write(0x610, none.clone()),
            Call::Delay(2),
            Call::Write(0x602, vec![0x08]),
            Call::Write(0x610, one.clone()),
            Call::Delay(2),
            Call::Write(0x610, one),
            Call::Delay(2),
            Call::Write(0x602, vec![0x84]),
            Call::Write(0x610, none.clone()),
            Call::Delay(2),
            Call::Write(0x610, none.clone()),
            Call::Delay(2),
            Call::Write(0x602, vec![0x08]),
            Call::Write(0x610, none),
            Call::Delay(2),
            Call::Write(0x602, vec![0x88]),
        ]
    );
}

#[test]
fn breakpoints_are_set_and_cleared() {
    let mut target = Target::default();
    let mut state = Tc32CoreState::new();
    let mut core = debugged(&mut target, &mut state);
    assert_eq!(core.available_breakpoint_units(), Ok(3));
    assert_eq!(core.hw_breakpoints(), Ok(vec![None, None, None]));
    core.set_hw_breakpoint(0, 0x10).unwrap();
    core.set_hw_breakpoint(2, 0x20).unwrap();
    assert_eq!(core.hw_breakpoints(), Ok(vec![Some(0x10), None, Some(0x20)]));
    core.enable_breakpoints(false).unwrap();
    core.enable_breakpoints(true).unwrap();
    assert_eq!(core.active_breakpoints(), vec![0x10, 0x20]);
    core.clear_hw_breakpoint(0).unwrap();
    assert_eq!(core.hw_breakpoints(), Ok(vec![None, None, Some(0x20)]));
    let error = core.set_hw_breakpoint(3, 0).unwrap_err();
    assert_eq!(error, Error::BreakpointOutOfRange(3));
    assert_eq!(
        error.message(),
        Some("TC32 breakpoint unit 3 out of range".to_string())
    );
    assert_eq!(
        core.clear_hw_breakpoint(17),
        Err(Error::BreakpointOutOfRange(17))
    );
    assert_eq!(target.calls.len(), 10);
}

#[test]
fn a_breakpoint_is_remembered_though_it_could_not_be_armed() {
    let mut target = Target {
        fail_at: Some(1),
        ..Target::default()
    };
    let mut state = Tc32CoreState::new();
    let mut core = debugged(&mut target, &mut state);
    assert_eq!(core.set_hw_breakpoint(0, 4), Err(FAILED));
    assert_eq!(core.hw_breakpoints(), Ok(vec![Some(4), None, None]));
    assert_eq!(target.calls.len(), 1);
}

#[test]
fn a_running_core_stops_at_an_active_breakpoint() {
    let mut target = Target::default();
    target.set_pc(0x40);
    let mut state = Tc32CoreState::new();
    let mut core = debugged(&mut target, &mut state);
    core.set_hw_breakpoint(0, 0x44).unwrap();
    core.run().unwrap();
    assert_eq!(core.status(), Ok(CoreStatus::Running));
    core.set_hw_breakpoint(1, 0x40).unwrap();
    assert_eq!(
        core.status(),
        Ok(CoreStatus::Halted(HaltReason::Breakpoint(
            BreakpointCause::Hardware
        )))
    );
    assert_eq!(core.core_halted(), Ok(true));
}

#[test]
fn stepping_and_resetting_end_halted() {
    let mut target = Target::default();
    target.set_pc(0x42);
    let mut state = Tc32CoreState::new();
    {
        let mut core = debugged(&mut target, &mut state);
        assert_eq!(core.step(), Ok(CoreInformation { pc: 0x42 }));
        assert_eq!(core.status(), Ok(CoreStatus::Halted(HaltReason::Step)));
        assert_eq!(
            core.reset_and_halt(NO_TIME),
            Ok(CoreInformation { pc: 0x42 })
        );
        assert_eq!(core.status(), Ok(CoreStatus::Halted(HaltReason::Request)));
    }
    let none = payload([0; 4]);
    assert_eq!(
        target.calls,
        vec![
            Call::Write(0x610, none.clone()),
            Call::Delay(2),
            Call::Write(0x602, vec![0x06]),
            Call::Write(0x613, vec![0x80]),
            Call::ReadMemory(0x6bc, 4),
            Call::Write(0x610, none),
            Call::Delay(2),
            Call::Write(0x602, vec![0x88]),
            Call::Write(0x602, vec![0x05]),
            Call::ReadMemory(0x6bc, 4),
        ]
    );
}

#[test]
fn failures_on_the_way_leave_the_status() {
    for (fail_at, calls) in [(1, 1), (3, 3), (4, 4), (5, 5)] {
        let mut target = Target {
            fail_at: Some(fail_at),
            ..Target::default()
        };
        let mut state = Tc32CoreState::new();
        assert_eq!(debugged(&mut target, &mut state).step(), Err(FAILED));
        assert_eq!(state.status, CoreStatus::Unknown);
        assert_eq!(target.calls.len(), calls);
    }
    let mut target = Target {
        fail_at: Some(4),
        ..Target::default()
    };
    let mut state = Tc32CoreState::new();
    assert_eq!(
        debugged(&mut target, &mut state).reset_and_halt(NO_TIME),
        Err(FAILED)
    );
    assert_eq!(state.status, CoreStatus::Running);
}

#[test]
fn registers_come_from_the_snapshot() {
    let mut target = Target::default();
    target.set_pc(0xcafe);
    let mut state = Tc32CoreState::new();
    let expected = |target: &Target, i: u32| {
        u32::from_le_bytes([
            target.byte(0x680 + 4 * i),
            target.byte(0x681 + 4 * i),
            target.byte(0x682 + 4 * i),
            target.byte(0x683 + 4 * i),
        ])
    };
    let snapshot = debugged(&mut target, &mut state).read_register_snapshot().unwrap();
    for i in 0..32u32 {
        let value = if i == 15 { 0xcafe } else { expected(&target, i) };
        assert_eq!(snapshot[i as usize], value);
    }
    assert_eq!(
        target.calls,
        vec![Call::ReadMemory(0x680, 128), Call::ReadMemory(0x6bc, 4)]
    );
    let third = expected(&target, 3);
    let mut core = debugged(&mut target, &mut state);
    assert_eq!(
        core.read_core_reg(RegisterId(3)),
        Ok(RegisterValue::U32(third))
    );
    assert_eq!(
        core.read_core_reg(RegisterId(15)),
        Ok(RegisterValue::U32(0xcafe))
    );
    let error = core.read_core_reg(RegisterId(32)).unwrap_err();
    assert_eq!(error, Error::UnknownRegister(32));
    assert_eq!(
        error.message(),
        Some("Unknown TC32 register 32".to_string())
    );
}

#[test]
fn registers_cannot_be_written() {
    let mut target = Target::default();
    let mut state = Tc32CoreState::new();
    let mut core = debugged(&mut target, &mut state);
    let error = core
        .write_core_reg(RegisterId(15), RegisterValue::U32(0))
        .unwrap_err();
    assert_eq!(error, Error::NotImplemented(Missing::WriteProgramCounter));
    assert_eq!(
        error.message(),
        Some("TC32 write program counter".to_string())
    );
    let error = core
        .write_core_reg(RegisterId(2), RegisterValue::U32(0))
        .unwrap_err();
    assert_eq!(error.message(), Some("TC32 write core register".to_string()));
    let error = core.reset_catch_set().unwrap_err();
    assert_eq!(error.message(), Some("TC32 reset catch".to_string()));
    assert_eq!(
        core.reset_catch_clear(),
        Err(Error::NotImplemented(Missing::ResetCatch))
    );
}

#[test]
fn waiting_ends_when_halted_or_late() {
    let mut target = Target::default();
    let mut state = Tc32CoreState::new();
    let mut core = debugged(&mut target, &mut state);
    assert_eq!(core.wait_for_core_halted(0, 10), None);
    assert_eq!(
        core.wait_for_core_halted(10, 10),
        Some(Err(Error::Timeout))
    );
    core.halt(NO_TIME).unwrap();
    assert_eq!(core.wait_for_core_halted(9, 10), Some(Ok(())));
    assert_eq!(
        core.wait_for_core_halted(11, 10),
        Some(Err(Error::Timeout))
    );
}

#[test]
fn the_core_describes_itself() {
    let mut target = Target::default();
    let mut state = Tc32CoreState::new();
    let mut core = debugged(&mut target, &mut state);
    assert_eq!(core.architecture(), Architecture::Tc32);
    assert_eq!(core.core_type(), CoreType::Tc32);
    assert_eq!(core.instruction_set(), Ok(InstructionSet::Tc32));
    assert_eq!(core.fpu_support(), Ok(false));
    assert_eq!(core.floating_point_register_count(), Ok(0));
    assert_eq!(core.debug_core_stop(), Ok(()));
    assert_eq!(core.spill_registers(), Ok(()));
    assert!(!core.is_64_bit());

    let registers = core.registers();
    let names = [
        "r0", "r1", "r2", "r3", "r4", "r5", "r6", "r7", "r8", "r9", "r10", "r11", "r12", "sp",
        "lr", "pc", "psr",
    ];
    assert_eq!(registers.len(), 17);
    for (i, register) in registers.iter().enumerate() {
        assert_eq!(register.id, RegisterId(i as u16));
        assert_eq!(register.roles[0], RegisterRole::Core(names[i]));
        assert_eq!(register.data_type, RegisterDataType::UnsignedInteger(32));
        assert_eq!(register.unwind_rule, UnwindRule::Clear);
    }
    assert_eq!(registers[3].roles.len(), 1);
    assert_eq!(registers[16].roles[1], RegisterRole::ProcessorStatus);
    assert_eq!(core.program_counter().id, RegisterId(15));
    assert_eq!(core.program_counter().roles[1], RegisterRole::ProgramCounter);
    assert_eq!(core.frame_pointer().id, RegisterId(7));
    assert_eq!(core.frame_pointer().roles[1], RegisterRole::FramePointer);
    assert_eq!(core.stack_pointer().id, RegisterId(13));
    assert_eq!(core.stack_pointer().roles[1], RegisterRole::StackPointer);
    assert_eq!(core.return_address().id, RegisterId(14));
    assert_eq!(core.return_address().roles[1], RegisterRole::ReturnAddress);
}
