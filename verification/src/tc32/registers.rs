//! The registers of a TC32 core.

use vstd::prelude::*;

use crate::tc32::types::RegisterId;
use crate::text;

verus! {

/// What a register is for.
#[derive(Clone, Copy, Debug, PartialEq, Eq)]
pub enum RegisterRole {
    /// A register of the core, by its name.
    Core(&'static str),
    FramePointer,
    StackPointer,
    ReturnAddress,
    ProgramCounter,
    ProcessorStatus,
}

/// What a register can hold.
#[derive(Clone, Copy, Debug, PartialEq, Eq, Structural)]
pub enum RegisterDataType {
    /// An unsigned integer of so many bits.
    UnsignedInteger(usize),
}

/// What happens to a register when a stack frame is left.
#[derive(Clone, Copy, Debug, PartialEq, Eq, Structural)]
pub enum UnwindRule {
    /// Its value is lost.
    Clear,
}

/// A register.
#[derive(Debug)]
pub struct CoreRegister {
    pub roles: Vec<RegisterRole>,
    pub id: RegisterId,
    pub data_type: RegisterDataType,
    pub unwind_rule: UnwindRule,
}

/// How many registers there are.
pub const REGISTER_COUNT: u16 = 17;

/// The number of the frame pointer.
pub const R7: u16 = 7;

/// The number of the stack pointer.
pub const SP: u16 = 13;

/// The number of the link register.
pub const LR: u16 = 14;

/// The number of the program counter.
pub const PC: u16 = 15;

/// The number of the processor status register.
pub const PSR: u16 = 16;

/// The name of the register with the number `id`.
pub open spec fn register_name(id: u16) -> Seq<char> {
    if id == 0 {
        "r0"@
    } else if id == 1 {
        "r1"@
    } else if id == 2 {
        "r2"@
    } else if id == 3 {
        "r3"@
    } else if id == 4 {
        "r4"@
    } else if id == 5 {
        "r5"@
    } else if id == 6 {
        "r6"@
    } else if id == 7 {
        "r7"@
    } else if id == 8 {
        "r8"@
    } else if id == 9 {
        "r9"@
    } else if id == 10 {
        "r10"@
    } else if id == 11 {
        "r11"@
    } else if id == 12 {
        "r12"@
    } else if id == 13 {
        "sp"@
    } else if id == 14 {
        "lr"@
    } else if id == 15 {
        "pc"@
    } else {
        "psr"@
    }
}

/// What the register with the number `id` is for besides, if anything.
pub open spec fn special_role(id: u16) -> Option<RegisterRole> {
    if id == R7 {
        Some(RegisterRole::FramePointer)
    } else if id == SP {
        Some(RegisterRole::StackPointer)
    } else if id == LR {
        Some(RegisterRole::ReturnAddress)
    } else if id == PC {
        Some(RegisterRole::ProgramCounter)
    } else if id == PSR {
        Some(RegisterRole::ProcessorStatus)
    } else {
        None
    }
}

/// Whether `register` describes the register with the number `id`.
pub open spec fn describes(register: CoreRegister, id: u16) -> bool {
    &&& register.id == RegisterId(id)
    &&& register.data_type == RegisterDataType::UnsignedInteger(32)
    &&& register.unwind_rule is Clear
    &&& register.roles@.len() == if special_role(id) is Some {
        2int
    } else {
        1
    }
    &&& register.roles@[0] matches RegisterRole::Core(name) && name@ == register_name(id)
    &&& special_role(id) is Some ==> register.roles@[1] == special_role(id)->0
}

/// The registers up to number 12 are named by an `r` and their number, the rest
/// by what they are for; just five have a role besides.
pub proof fn law_registers_are_named_by_their_numbers(register: CoreRegister, id: u16)
    requires
        describes(register, id),
        id < 17,
    ensures
        register.id.0 == id,
        register.data_type == RegisterDataType::UnsignedInteger(32),
        register.roles@[0] matches RegisterRole::Core(name) && name@ == if id <= 12 {
            seq!['r'] + text::numeral(id as nat, 10)
        } else if id == 13 {
            seq!['s', 'p']
        } else if id == 14 {
            seq!['l', 'r']
        } else if id == 15 {
            seq!['p', 'c']
        } else {
            seq!['p', 's', 'r']
        },
        register.roles@.skip(1) == if id == 7 {
            seq![RegisterRole::FramePointer]
        } else if id == 13 {
            seq![RegisterRole::StackPointer]
        } else if id == 14 {
            seq![RegisterRole::ReturnAddress]
        } else if id == 15 {
            seq![RegisterRole::ProgramCounter]
        } else if id == 16 {
            seq![RegisterRole::ProcessorStatus]
        } else {
            Seq::empty()
        },
{
    lemma_names();
    lemma_numerals(id as nat);
    assert(id <= 12 ==> register_name(id) =~= seq!['r'] + text::numeral(id as nat, 10));
}

proof fn lemma_names()
    ensures
        "r0"@ == seq!['r', '0'],
        "r1"@ == seq!['r', '1'],
        "r2"@ == seq!['r', '2'],
        "r3"@ == seq!['r', '3'],
        "r4"@ == seq!['r', '4'],
        "r5"@ == seq!['r', '5'],
        "r6"@ == seq!['r', '6'],
        "r7"@ == seq!['r', '7'],
        "r8"@ == seq!['r', '8'],
        "r9"@ == seq!['r', '9'],
        "r10"@ == seq!['r', '1', '0'],
        "r11"@ == seq!['r', '1', '1'],
        "r12"@ == seq!['r', '1', '2'],
        "sp"@ == seq!['s', 'p'],
        "lr"@ == seq!['l', 'r'],
        "pc"@ == seq!['p', 'c'],
        "psr"@ == seq!['p', 's', 'r'],
{
    reveal_strlit("r0");
    reveal_strlit("r1");
    reveal_strlit("r2");
    reveal_strlit("r3");
    reveal_strlit("r4");
    reveal_strlit("r5");
    reveal_strlit("r6");
    reveal_strlit("r7");
    reveal_strlit("r8");
    reveal_strlit("r9");
    reveal_strlit("r10");
    reveal_strlit("r11");
    reveal_strlit("r12");
    reveal_strlit("sp");
    reveal_strlit("lr");
    reveal_strlit("pc");
    reveal_strlit("psr");
}

proof fn lemma_numerals(n: nat)
    ensures
        n < 10 ==> text::numeral(n, 10) == seq![text::digit(n as int)],
        10 <= n < 20 ==> text::numeral(n, 10) == seq!['1', text::digit(n - 10)],
        text::digit(0) == '0',
        text::digit(1) == '1',
        text::digit(2) == '2',
        text::digit(3) == '3',
        text::digit(4) == '4',
        text::digit(5) == '5',
        text::digit(6) == '6',
        text::digit(7) == '7',
        text::digit(8) == '8',
        text::digit(9) == '9',
{
    reveal_strlit("0123456789abcdef");
    reveal_with_fuel(text::numeral, 2);
    assert(10 <= n < 20 ==> n / 10 == 1 && n % 10 == n - 10);
    assert(10 <= n < 20 ==> text::numeral(n, 10) =~= seq!['1', text::digit(n - 10)]);
}

/// The register with the number `id`.
pub fn register(id: u16) -> (register: CoreRegister)
    requires
        id < REGISTER_COUNT,
    ensures
        describes(register, id),
{
    let name: &'static str = match id {
        0 => "r0",
        1 => "r1",
        2 => "r2",
        3 => "r3",
        4 => "r4",
        5 => "r5",
        6 => "r6",
        7 => "r7",
        8 => "r8",
        9 => "r9",
        10 => "r10",
        11 => "r11",
        12 => "r12",
        13 => "sp",
        14 => "lr",
        15 => "pc",
        _ => "psr",
    };
    let mut roles: Vec<RegisterRole> = Vec::new();
    roles.push(RegisterRole::Core(name));
    if id == R7 {
        roles.push(RegisterRole::FramePointer);
    } else if id == SP {
        roles.push(RegisterRole::StackPointer);
    } else if id == LR {
        roles.push(RegisterRole::ReturnAddress);
    } else if id == PC {
        roles.push(RegisterRole::ProgramCounter);
    } else if id == PSR {
        roles.push(RegisterRole::ProcessorStatus);
    }
    CoreRegister {
        roles,
        id: RegisterId(id),
        data_type: RegisterDataType::UnsignedInteger(32),
        unwind_rule: UnwindRule::Clear,
    }
}

/// All registers in order.
pub fn core_registers() -> (registers: Vec<CoreRegister>)
    ensures
        registers@.len() == REGISTER_COUNT,
        forall|i: int|
            0 <= i < REGISTER_COUNT ==> describes(#[trigger] registers@[i], i as u16),
{
    let mut registers: Vec<CoreRegister> = Vec::new();
    let mut id: u16 = 0;
    while id < REGISTER_COUNT
        invariant
            id <= REGISTER_COUNT,
            registers@.len() == id,
            forall|i: int| 0 <= i < id ==> describes(#[trigger] registers@[i], i as u16),
        decreases REGISTER_COUNT - id,
    {
        registers.push(register(id));
        id = id + 1;
    }
    registers
}

} // verus!
