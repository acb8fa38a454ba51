//! 64-bit eBPF instructions and their fields.
use vstd::prelude::*;

use crate::le::{le_bytes, le_value, lemma_le_bytes_len, lemma_le_roundtrip, lemma_pow256_values, load_le};
use crate::opcode::{class, code_of, class_of, op, source_of, src, Opcode};

verus! {

/// The opcode byte: bits 0..8.
pub open spec fn opcode_of(raw: u64) -> u8 {
    (raw & 0xff) as u8
}

/// The destination register: bits 8..12.
pub open spec fn dst_of(raw: u64) -> u8 {
    ((raw >> 8) & 0x0f) as u8
}

/// The source register: bits 12..16.
pub open spec fn src_of(raw: u64) -> u8 {
    ((raw >> 12) & 0x0f) as u8
}

/// The signed offset: bits 16..32.
pub open spec fn off_of(raw: u64) -> i16 {
    ((raw >> 16) & 0xffff) as u16 as i16
}

/// The signed immediate: bits 32..64.
pub open spec fn imm_of(raw: u64) -> i32 {
    ((raw >> 32) & 0xffff_ffff) as u32 as i32
}

/// The first half of a 128-bit load of a 64-bit immediate.
pub open spec fn is_wide_raw(raw: u64) -> bool {
    let opc = opcode_of(raw);
    class_of(opc) == class::LD && source_of(opc) == src::IMM && code_of(opc) == op::LDDW
}

/// The 64-bit value of a wide load: the immediate of `hi` in the upper half,
/// the immediate of `lo` in the lower half.
pub open spec fn wide_bits(lo: u64, hi: u64) -> u64 {
    ((imm_of(hi) as u32 as u64) << 32) | (imm_of(lo) as u32 as u64)
}

/// Both register fields name one of the eleven registers r0..r10.
pub open spec fn regs_in_range(raw: u64) -> bool {
    dst_of(raw) <= 10 && src_of(raw) <= 10
}

/// Why a 64-bit word is not an instruction, if it is not.
pub open spec fn decode_error(raw: u64) -> Option<InsnError> {
    if dst_of(raw) > 10 {
        Some(InsnError::InvalidDst(dst_of(raw)))
    } else if src_of(raw) > 10 {
        Some(InsnError::InvalidSrc(src_of(raw)))
    } else {
        None
    }
}

#[derive(Debug, Clone, Copy, PartialEq, Eq, Structural)]
pub enum InsnError {
    InvalidDst(u8),
    InvalidSrc(u8),
}

/// A 64-bit instruction word whose register fields name existing registers.
#[derive(Copy, Clone, Debug, PartialEq, Eq, Structural)]
pub struct Insn(u64);

impl View for Insn {
    type V = u64;

    closed spec fn view(&self) -> u64 {
        self.0
    }
}

impl Insn {
    #[verifier::type_invariant]
    closed spec fn inv(self) -> bool {
        regs_in_range(self.0)
    }

    pub fn from_raw(raw: u64) -> (r: Result<Self, InsnError>)
        ensures
            match decode_error(raw) {
                Some(e) => r == Err::<Insn, InsnError>(e),
                None => r matches Ok(i) && i@ == raw,
            },
    {
        let dst = ((raw >> 8) & 0x0f) as u8;
        let src = ((raw >> 12) & 0x0f) as u8;
        if dst > 10 {
            return Err(InsnError::InvalidDst(dst));
        }
        if src > 10 {
            return Err(InsnError::InvalidSrc(src));
        }
        Ok(Self(raw))
    }

    /// Decodes the little-endian word in `bytes`.
    pub fn from_bytes(bytes: [u8; 8]) -> (r: Result<Self, InsnError>)
        ensures
            ({
                let raw = le_value(bytes@) as u64;
                match decode_error(raw) {
                    Some(e) => r == Err::<Insn, InsnError>(e),
                    None => r matches Ok(i) && i@ == raw,
                }
            }),
    {
        let s = bytes.as_slice();
        proof {
            assert(s@.subrange(0, 8) =~= bytes@);
        }
        Self::from_raw(load_le(s, 0, 8))
    }

    pub fn opcode(&self) -> (r: Opcode)
        ensures
            r@ == opcode_of(self@),
    {
        let byte = (self.0 & 0xff) as u8;
        proof {
            Opcode::lemma_from_byte(byte);
        }
        Opcode::from(byte)
    }

    pub fn dst(&self) -> (r: u8)
        ensures
            r == dst_of(self@),
            r <= 10,
    {
        proof {
            use_type_invariant(self);
        }
        ((self.0 >> 8) & 0x0f) as u8
    }

    pub fn src(&self) -> (r: u8)
        ensures
            r == src_of(self@),
            r <= 10,
    {
        proof {
            use_type_invariant(self);
        }
        ((self.0 >> 12) & 0x0f) as u8
    }

    pub fn off(&self) -> (r: i16)
        ensures
            r == off_of(self@),
    {
        ((self.0 >> 16) & 0xffff) as u16 as i16
    }

    pub fn imm(&self) -> (r: i32)
        ensures
            r == imm_of(self@),
    {
        ((self.0 >> 32) & 0xffff_ffff) as u32 as i32
    }

    pub fn raw(&self) -> (r: u64)
        ensures
            r == self@,
    {
        self.0
    }

    /// Every instruction's register fields name existing registers.
    pub fn regs_valid(&self) -> (r: bool)
        ensures
            r,
            regs_in_range(self@),
    {
        proof {
            use_type_invariant(self);
        }
        true
    }

    pub fn is_wide(&self) -> (r: bool)
        ensures
            r == is_wide_raw(self@),
    {
        let opcode = self.opcode();
        opcode.class() == class::LD && opcode.source() == src::IMM && opcode.code() == op::LDDW
    }

    /// The 64-bit immediate of the wide load made of `lo` and `hi`.
    pub fn wide_imm(lo: &Insn, hi: &Insn) -> (r: i64)
        ensures
            r == wide_bits(lo@, hi@) as i64,
    {
        let bits: u64 = ((hi.imm() as u32 as u64) << 32) | (lo.imm() as u32 as u64);
        bits as i64
    }
}

impl TryFrom<u64> for Insn {
    type Error = InsnError;

    fn try_from(value: u64) -> (r: Result<Self, Self::Error>) {
        Self::from_raw(value)
    }
}

impl vstd::std_specs::convert::TryFromSpecImpl<u64> for Insn {
    open spec fn obeys_try_from_spec() -> bool {
        true
    }

    closed spec fn try_from_spec(v: u64) -> Result<Self, InsnError> {
        match decode_error(v) {
            Some(e) => Err(e),
            None => Ok(Insn(v)),
        }
    }
}

impl TryFrom<[u8; 8]> for Insn {
    type Error = InsnError;

    fn try_from(value: [u8; 8]) -> (r: Result<Self, Self::Error>) {
        Self::from_bytes(value)
    }
}

impl vstd::std_specs::convert::TryFromSpecImpl<[u8; 8]> for Insn {
    open spec fn obeys_try_from_spec() -> bool {
        true
    }

    closed spec fn try_from_spec(v: [u8; 8]) -> Result<Self, InsnError> {
        let raw = le_value(v@) as u64;
        match decode_error(raw) {
            Some(e) => Err(e),
            None => Ok(Insn(raw)),
        }
    }
}

impl From<Insn> for u64 {
    fn from(value: Insn) -> (r: Self) {
        value.raw()
    }
}

impl vstd::std_specs::convert::FromSpecImpl<Insn> for u64 {
    open spec fn obeys_from_spec() -> bool {
        true
    }

    open spec fn from_spec(v: Insn) -> u64 {
        v@
    }
}

/// The eight little-endian bytes of a word read back as that word, which is
/// what `from_bytes` decodes.
pub proof fn lemma_bytes_of_word(raw: u64)
    ensures
        le_bytes(raw as nat, 8).len() == 8,
        le_value(le_bytes(raw as nat, 8)) as u64 == raw,
{
    lemma_le_bytes_len(raw as nat, 8);
    lemma_le_roundtrip(raw as nat, 8);
    lemma_pow256_values();
}

} // verus!
