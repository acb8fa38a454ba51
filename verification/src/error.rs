//! The errors that decoding, verifying, type checking and running report.
use vstd::prelude::*;

use crate::insn::InsnError;

verus! {

#[derive(Debug, PartialEq, Eq, Structural)]
pub enum EbpfError {
    Insn(InsnError),
    DivisionByZero { pc: usize },
    InvalidPc { pc: usize, bound: usize },
    UnknownOpcode { pc: usize, opcode: u8 },
    BackEdge { pc: usize },
    UnreachableInstruction { pc: usize },
    InvalidJumpTarget { pc: usize, target: usize },
    FallthroughEnd { pc: usize },
    StackOverflow { pc: usize },
    MemoryFault { pc: usize, addr: u64 },
    CallStackExhausted,
    ProgramEmpty,
    InvalidMapHandle { pc: usize },
    HelperNotFound { id: u32 },
    UseBeforeInit { pc: usize, reg: u8 },
    InvalidPtrArithmetic { pc: usize },
    TypeMismatch { pc: usize },
    InvalidInstruction { pc: usize },
}

/// The family an error belongs to.
pub open spec fn error_kind(e: EbpfError) -> Seq<char> {
    match e {
        EbpfError::Insn(_) => "decode"@,
        EbpfError::DivisionByZero { .. } => "arithmetic"@,
        EbpfError::InvalidPc { .. } => "control-flow"@,
        EbpfError::UnknownOpcode { .. } => "decode"@,
        EbpfError::BackEdge { .. } => "control-flow"@,
        EbpfError::UnreachableInstruction { .. } => "control-flow"@,
        EbpfError::InvalidJumpTarget { .. } => "control-flow"@,
        EbpfError::FallthroughEnd { .. } => "control-flow"@,
        EbpfError::StackOverflow { .. } => "memory"@,
        EbpfError::MemoryFault { .. } => "memory"@,
        EbpfError::CallStackExhausted => "control-flow"@,
        EbpfError::ProgramEmpty => "program"@,
        EbpfError::InvalidMapHandle { .. } => "memory"@,
        EbpfError::HelperNotFound { .. } => "control-flow"@,
        EbpfError::UseBeforeInit { .. } => "type"@,
        EbpfError::InvalidPtrArithmetic { .. } => "type"@,
        EbpfError::TypeMismatch { .. } => "type"@,
        EbpfError::InvalidInstruction { .. } => "decode"@,
    }
}

impl EbpfError {
    pub fn kind(&self) -> (r: &'static str)
        ensures
            r@ == error_kind(*self),
    {
        match self {
            EbpfError::Insn(_) => "decode",
            EbpfError::DivisionByZero { pc: _ } => "arithmetic",
            EbpfError::InvalidPc { pc: _, bound: _ } => "control-flow",
            EbpfError::UnknownOpcode { pc: _, opcode: _ } => "decode",
            EbpfError::BackEdge { pc: _ } => "control-flow",
            EbpfError::UnreachableInstruction { pc: _ } => "control-flow",
            EbpfError::InvalidJumpTarget { pc: _, target: _ } => "control-flow",
            EbpfError::FallthroughEnd { pc: _ } => "control-flow",
            EbpfError::StackOverflow { pc: _ } => "memory",
            EbpfError::MemoryFault { pc: _, addr: _ } => "memory",
            EbpfError::CallStackExhausted => "control-flow",
            EbpfError::ProgramEmpty => "program",
            EbpfError::InvalidMapHandle { pc: _ } => "memory",
            EbpfError::HelperNotFound { id: _ } => "control-flow",
            EbpfError::UseBeforeInit { pc: _, reg: _ } => "type",
            EbpfError::InvalidPtrArithmetic { pc: _ } => "type",
            EbpfError::TypeMismatch { pc: _ } => "type",
            EbpfError::InvalidInstruction { pc: _ } => "decode",
        }
    }
}

impl From<InsnError> for EbpfError {
    fn from(value: InsnError) -> (r: Self) {
        EbpfError::Insn(value)
    }
}

impl vstd::std_specs::convert::FromSpecImpl<InsnError> for EbpfError {
    open spec fn obeys_from_spec() -> bool {
        true
    }

    open spec fn from_spec(v: InsnError) -> EbpfError {
        EbpfError::Insn(v)
    }
}

} // verus!
