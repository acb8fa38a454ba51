//! An eBPF virtual machine: instruction decoding, an interpreter with a call
//! stack and a stack window, a control-flow verifier, a register type checker,
//! helper and map dispatch, and a loader for the `.text` section of ELF files.
use vstd::prelude::*;

pub mod opcode;
pub mod le;
pub mod insn;
pub mod error;
pub mod helpers;
pub mod map;
pub mod maps;
pub mod semantics;
pub mod vm;
pub mod control_flow;
pub mod typeck;
pub mod elf;
pub mod isa;

pub use control_flow::Verifier;
pub use elf::{ElfError, ElfLoader};
pub use error::EbpfError;
pub use helpers::{
    HelperFn, HelperTable, HELPER_MAP_DELETE_ELEM, HELPER_MAP_LOOKUP_ELEM, HELPER_MAP_UPDATE_ELEM,
};
pub use insn::{Insn, InsnError};
pub use map::{BpfMap, MapRegistry};
pub use maps::{ArrayMap, HashMap as BpfHashMap};
pub use opcode::Opcode;
pub use typeck::{RegType, TypeChecker};
pub use vm::EbpfVm;

verus! {

} // verus!
