//! The opcode byte of an instruction and its three bit fields.
use vstd::prelude::*;

pub mod class;
pub mod op;
pub mod src;

verus! {

/// The class field: bits 0..3 of an opcode byte.
pub open spec fn class_of(raw: u8) -> u8 {
    raw & 0x07
}

/// The source field: bit 3 of an opcode byte.
pub open spec fn source_of(raw: u8) -> u8 {
    (raw >> 3) & 0x01
}

/// The code field: bits 4..8 of an opcode byte.
pub open spec fn code_of(raw: u8) -> u8 {
    (raw >> 4) & 0x0f
}

/// The opcode byte that holds the three given fields.
pub open spec fn encode_opcode(class: u8, source: u8, code: u8) -> u8 {
    ((code << 4) | (source << 3) | class) as u8
}

/// Every field read from an opcode byte lies in its range.
pub proof fn lemma_fields_in_range(raw: u8)
    ensures
        class_of(raw) <= 7,
        source_of(raw) <= 1,
        code_of(raw) <= 15,
{
    assert(raw & 0x07 <= 7 && (raw >> 3) & 0x01 <= 1 && (raw >> 4) & 0x0f <= 15) by (bit_vector);
}

/// Encoding three in-range fields and reading them back gives the same fields,
/// and an opcode byte is the encoding of its own fields.
pub proof fn lemma_encode_roundtrip(class: u8, source: u8, code: u8, raw: u8)
    requires
        class <= 7,
        source <= 1,
        code <= 15,
    ensures
        class_of(encode_opcode(class, source, code)) == class,
        source_of(encode_opcode(class, source, code)) == source,
        code_of(encode_opcode(class, source, code)) == code,
        encode_opcode(class_of(raw), source_of(raw), code_of(raw)) == raw,
{
    assert(((((code << 4) | (source << 3) | class) as u8) & 0x07 == class) && (((((code << 4)
        | (source << 3) | class) as u8) >> 3) & 0x01 == source) && (((((code << 4) | (source << 3)
        | class) as u8) >> 4) & 0x0f == code)) by (bit_vector)
        requires
            class <= 7,
            source <= 1,
            code <= 15,
    ;
    assert(((((raw >> 4) & 0x0f) << 4) | (((raw >> 3) & 0x01) << 3) | (raw & 0x07)) as u8 == raw)
        by (bit_vector);
}

/// An eBPF opcode byte.
#[derive(Copy, Clone, Debug, PartialEq, Eq, Structural)]
pub struct Opcode(u8);

impl View for Opcode {
    type V = u8;

    closed spec fn view(&self) -> u8 {
        self.0
    }
}

impl Opcode {
    pub fn class(self) -> (r: u8)
        ensures
            r == class_of(self@),
            r <= 7,
    {
        proof {
            lemma_fields_in_range(self.0);
        }
        self.0 & 0x07
    }

    pub fn source(self) -> (r: u8)
        ensures
            r == source_of(self@),
            r <= 1,
    {
        proof {
            lemma_fields_in_range(self.0);
        }
        (self.0 >> 3) & 0x01
    }

    pub fn code(self) -> (r: u8)
        ensures
            r == code_of(self@),
            r <= 15,
    {
        proof {
            lemma_fields_in_range(self.0);
        }
        (self.0 >> 4) & 0x0f
    }

    /// The opcode that `from` builds from a byte holds that byte.
    pub proof fn lemma_from_byte(v: u8)
        ensures
            <Opcode as vstd::std_specs::convert::FromSpec<u8>>::from_spec(v)@ == v,
    {
    }

    pub fn raw(self) -> (r: u8)
        ensures
            r == self@,
    {
        self.0
    }

    /// Builds an opcode from its fields; each field must lie in its range.
    pub fn new(class: u8, source: u8, code: u8) -> (r: Self)
        requires
            class <= 0x07,
            source <= 0x01,
            code <= 0x0f,
        ensures
            r@ == encode_opcode(class, source, code),
            class_of(r@) == class,
            source_of(r@) == source,
            code_of(r@) == code,
    {
        proof {
            lemma_encode_roundtrip(class, source, code, 0);
        }
        Self(((code << 4) | (source << 3) | class) as u8)
    }

    pub fn is_alu64(&self) -> (r: bool)
        ensures
            r == (class_of(self@) == class::ALU64),
    {
        self.class() == class::ALU64
    }

    pub fn is_jmp(&self) -> (r: bool)
        ensures
            r == (class_of(self@) == class::JMP || class_of(self@) == class::JMP32),
    {
        let class = self.class();
        class == class::JMP || class == class::JMP32
    }

    pub fn is_load(&self) -> (r: bool)
        ensures
            r == (class_of(self@) == class::LD || class_of(self@) == class::LDX),
    {
        let class = self.class();
        class == class::LD || class == class::LDX
    }

    pub fn is_store(&self) -> (r: bool)
        ensures
            r == (class_of(self@) == class::ST || class_of(self@) == class::STX),
    {
        let class = self.class();
        class == class::ST || class == class::STX
    }
}

impl From<u8> for Opcode {
    fn from(value: u8) -> (r: Self) {
        Self(value)
    }
}

impl vstd::std_specs::convert::FromSpecImpl<u8> for Opcode {
    open spec fn obeys_from_spec() -> bool {
        true
    }

    closed spec fn from_spec(v: u8) -> Self {
        Opcode(v)
    }
}

impl From<Opcode> for u8 {
    fn from(value: Opcode) -> (r: Self) {
        value.0
    }
}

impl vstd::std_specs::convert::FromSpecImpl<Opcode> for u8 {
    open spec fn obeys_from_spec() -> bool {
        true
    }

    open spec fn from_spec(v: Opcode) -> u8 {
        v@
    }
}

} // verus!
