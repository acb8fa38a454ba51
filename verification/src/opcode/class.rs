//! Instruction classes: the low three bits of an opcode.
use vstd::prelude::*;

verus! {

pub const LD: u8 = 0x00;
pub const LDX: u8 = 0x01;
pub const ST: u8 = 0x02;
pub const STX: u8 = 0x03;
pub const ALU: u8 = 0x04;
pub const JMP: u8 = 0x05;
pub const JMP32: u8 = 0x06;
pub const ALU64: u8 = 0x07;

} // verus!
