//! A core as a debugger sees it.

use vstd::prelude::*;

verus! {

/// What stopped a core at a breakpoint.
#[derive(Clone, Copy, Debug, PartialEq, Eq, Structural)]
pub enum BreakpointCause {
    Hardware,
}

/// Why a core is halted.
#[derive(Clone, Copy, Debug, PartialEq, Eq, Structural)]
pub enum HaltReason {
    Breakpoint(BreakpointCause),
    /// It was asked to.
    Request,
    /// It has made a single step.
    Step,
}

/// What a core is doing.
#[derive(Clone, Copy, Debug, PartialEq, Eq, Structural)]
pub enum CoreStatus {
    Unknown,
    Running,
    Halted(HaltReason),
}

/// Where a core stands.
#[derive(Clone, Copy, Debug, PartialEq, Eq, Structural)]
pub struct CoreInformation {
    /// The program counter.
    pub pc: u64,
}

/// The number of a register.
#[derive(Clone, Copy, Debug, PartialEq, Eq, Structural)]
pub struct RegisterId(pub u16);

/// What a register holds.
#[derive(Clone, Copy, Debug, PartialEq, Eq, Structural)]
pub enum RegisterValue {
    U32(u32),
    U64(u64),
    U128(u128),
}

#[derive(Clone, Copy, Debug, PartialEq, Eq, Structural)]
pub enum Architecture {
    Tc32,
}

#[derive(Clone, Copy, Debug, PartialEq, Eq, Structural)]
pub enum CoreType {
    Tc32,
}

#[derive(Clone, Copy, Debug, PartialEq, Eq, Structural)]
pub enum InstructionSet {
    Tc32,
}

} // verus!
