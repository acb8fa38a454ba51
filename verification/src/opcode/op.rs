//! Operation codes: the high four bits of an opcode.
use vstd::prelude::*;

verus! {

pub const ADD: u8 = 0x00;
pub const SUB: u8 = 0x01;
pub const MUL: u8 = 0x02;
pub const DIV: u8 = 0x03;
pub const OR: u8 = 0x04;
pub const AND: u8 = 0x05;
pub const LSH: u8 = 0x06;
pub const RSH: u8 = 0x07;
pub const NEG: u8 = 0x08;
pub const MOD: u8 = 0x09;
pub const XOR: u8 = 0x0a;
pub const MOV: u8 = 0x0b;
pub const ARSH: u8 = 0x0c;
pub const END: u8 = 0x0d;
pub const JA: u8 = 0x00;
pub const JEQ: u8 = 0x01;
pub const JGT: u8 = 0x02;
pub const JGE: u8 = 0x03;
pub const JSET: u8 = 0x04;
pub const JNE: u8 = 0x05;
pub const JSGT: u8 = 0x06;
pub const JSGE: u8 = 0x07;
pub const CALL: u8 = 0x08;
pub const EXIT: u8 = 0x09;
pub const LDDW: u8 = 0x00;

} // verus!
