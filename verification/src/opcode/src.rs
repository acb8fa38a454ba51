//! Operand sources: bit three of an opcode.
use vstd::prelude::*;

verus! {

pub const IMM: u8 = 0x00;
pub const REG: u8 = 0x01;

} // verus!
