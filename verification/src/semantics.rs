//! What one instruction does to the machine, and what a run of a program
//! returns: the meaning that the interpreter in `vm` is proved to have.
use vstd::prelude::*;
use vstd::wrapping::{i32_specs, i64_specs, u32_specs, u64_specs, usize_specs};

use crate::control_flow::{
    cfg_node, conditional_code, covered, jump_check, lemma_accepted_edges_forward, sound_cfg,
};
use crate::error::EbpfError;
use crate::insn::{dst_of, imm_of, is_wide_raw, off_of, opcode_of, regs_in_range, src_of, wide_bits, Insn};
use crate::le::{le_bytes, le_value, lemma_le_bytes_len, lemma_le_roundtrip, pow256};
use crate::opcode::{class, class_of, code_of, op, source_of, src};
use crate::helpers::{
    HelperCall, HelperTable, HELPER_MAP_DELETE_ELEM, HELPER_MAP_LOOKUP_ELEM, HELPER_MAP_UPDATE_ELEM,
};
use crate::map::BpfMap;

verus! {

/// Number of instructions a run may execute before it is stopped.
pub const EXEC_LIMIT: usize = 1_000_000;

/// Number of nested local calls a run may make.
pub const CALL_STACK_LIMIT: usize = 8;

/// Bytes in the stack window; r10 starts at its end.
pub const STACK_SIZE: usize = 512;

/// Number of registers, r0..r10.
pub const NUM_REGS: usize = 11;

/// The machine: registers, stack bytes, program counter, return addresses,
/// and the maps registered, in handle order.
pub struct VmState {
    pub regs: Seq<u64>,
    pub stack: Seq<u8>,
    pub pc: usize,
    pub calls: Seq<usize>,
    pub maps: Seq<Box<dyn BpfMap>>,
}

/// What a run sees but does not change: the program and the helpers.
pub struct VmEnv {
    pub prog: Seq<Insn>,
    pub helpers: HelperTable,
}

/// What one instruction does.
pub enum Outcome {
    /// The machine moves on to this state.
    Next(VmState),
    /// The program returns r0.
    Exit,
    /// The run stops with this error.
    Fault(EbpfError),
    /// `helper` is called with `args` (r1..r5); its result goes to r0 of `resume`.
    Helper { helper: Box<dyn HelperCall>, args: (u64, u64, u64, u64, u64), resume: VmState },
    /// The map `handle` is asked for `key`; the value found, or 0, goes to r0 of `resume`.
    MapLookup { handle: u64, key: u64, resume: VmState },
    /// The map `handle` is asked to store `val` under `key`; 0 on success, else 1, goes to r0.
    MapUpdate { handle: u64, key: u64, val: u64, resume: VmState },
    /// The map `handle` is asked to remove `key`; 0 on success, else 1, goes to r0.
    MapDelete { handle: u64, key: u64, resume: VmState },
}

/// The answer of a helper or a map to a call: a helper's result, what a
/// lookup found, or whether an update or delete succeeded together with the
/// maps as the operation left them.
pub enum Reply {
    Word(u64),
    Found(Option<u64>),
    Done(bool, Seq<Box<dyn BpfMap>>),
}

/// `after` holds the maps of `before` in their places, but perhaps the one at `h`.
pub open spec fn others_kept(before: Seq<Box<dyn BpfMap>>, after: Seq<Box<dyn BpfMap>>, h: int) -> bool {
    &&& after.len() == before.len()
    &&& forall|i: int| 0 <= i < before.len() && i != h ==> #[trigger] after[i] == before[i]
}

/// The machine in which a program starts: all registers zero but r10, which
/// points just past the zeroed stack, and no pending return.
pub open spec fn initial_state() -> VmState {
    VmState {
        regs: Seq::new(NUM_REGS as nat, |i: int| if i == 10 { STACK_SIZE as u64 } else { 0u64 }),
        stack: Seq::new(STACK_SIZE as nat, |i: int| 0u8),
        pc: 0,
        calls: Seq::empty(),
        maps: Seq::empty(),
    }
}

pub open spec fn set_reg(s: VmState, r: u8, v: u64) -> VmState {
    VmState { regs: s.regs.update(r as int, v), ..s }
}

pub open spec fn set_pc(s: VmState, pc: usize) -> VmState {
    VmState { pc, ..s }
}

/// The state that follows an outside call once its reply is known; `None`
/// when the reply is not one that the helper or the map called can give:
/// a helper's result must be one it may give to the arguments, and a map
/// must answer as its own specification says for the key (and value) in the
/// registers. After an update or delete the maps are those of the reply,
/// which keeps every map but the one called in its place, and leaves that one
/// holding what every map promises after such a call: the value stored, or
/// nothing after a delete, and the other keys as they were.
pub open spec fn resume_with(o: Outcome, reply: Reply) -> Option<VmState> {
    match o {
        Outcome::Helper { helper, args, resume } => match reply {
            Reply::Word(v) => if helper.spec_invoke(args, v) {
                Some(set_reg(resume, 0, v))
            } else {
                None
            },
            _ => None,
        },
        Outcome::MapLookup { handle, key, resume } => match reply {
            Reply::Found(f) => if f != resume.maps[handle as usize as int].spec_lookup(key) {
                None
            } else {
                Some(
                set_reg(
                    resume,
                    0,
                    match f {
                        Some(v) => v,
                        None => 0,
                    },
                ),
            )
            },
            _ => None,
        },
        Outcome::MapUpdate { handle, key, val, resume } => match reply {
            Reply::Done(b, ms) => if b == resume.maps[handle as usize as int].spec_update(key, val) && others_kept(
                resume.maps,
                ms,
                handle as usize as int,
            ) && (b ==> ms[handle as usize as int].spec_lookup(key) == Some(val)) && (!b ==> ms[handle as usize as int].spec_lookup(
                key,
            ) == resume.maps[handle as usize as int].spec_lookup(key)) && (forall|k: u64|
                (k as usize) != (key as usize) ==> #[trigger] ms[handle as usize as int].spec_lookup(k)
                    == resume.maps[handle as usize as int].spec_lookup(k)) {
                Some(
                    set_reg(
                        VmState { maps: ms, ..resume },
                        0,
                        if b { 0 } else { 1 },
                    ),
                )
            } else {
                None
            },
            _ => None,
        },
        Outcome::MapDelete { handle, key, resume } => match reply {
            Reply::Done(b, ms) => if b == resume.maps[handle as usize as int].spec_delete(key) && others_kept(
                resume.maps,
                ms,
                handle as usize as int,
            ) && ms[handle as usize as int].spec_lookup(key) is None && (forall|k: u64|
                (k as usize) != (key as usize) ==> #[trigger] ms[handle as usize as int].spec_lookup(k)
                    == resume.maps[handle as usize as int].spec_lookup(k)) {
                Some(
                    set_reg(
                        VmState { maps: ms, ..resume },
                        0,
                        if b { 0 } else { 1 },
                    ),
                )
            } else {
                None
            },
            _ => None,
        },
        _ => None,
    }
}

/// The codes that the arithmetic classes know: ADD through ARSH.
pub open spec fn alu_code_known(code: u8) -> bool {
    code <= op::ARSH
}

/// 64-bit arithmetic; `None` for a division or remainder by zero.
pub open spec fn alu64(code: u8, a: u64, b: u64) -> Option<u64> {
    let sh = (b & 63) as u32;
    if code == op::ADD {
        Some(u64_specs::wrapping_add(a, b))
    } else if code == op::SUB {
        Some(u64_specs::wrapping_sub(a, b))
    } else if code == op::MUL {
        Some(u64_specs::wrapping_mul(a, b))
    } else if code == op::DIV {
        if b == 0 { None } else { Some(a / b) }
    } else if code == op::MOD {
        if b == 0 { None } else { Some(a % b) }
    } else if code == op::OR {
        Some(a | b)
    } else if code == op::AND {
        Some(a & b)
    } else if code == op::XOR {
        Some(a ^ b)
    } else if code == op::MOV {
        Some(b)
    } else if code == op::LSH {
        Some(u64_specs::wrapping_shl(a, sh))
    } else if code == op::RSH {
        Some(u64_specs::wrapping_shr(a, sh))
    } else if code == op::ARSH {
        Some(i64_specs::wrapping_shr(a as i64, sh) as u64)
    } else {
        Some(u64_specs::wrapping_sub(0, a))
    }
}

/// 32-bit arithmetic on the low halves, zero-extended; `None` for a division
/// or remainder by zero.
pub open spec fn alu32(code: u8, a64: u64, b64: u64) -> Option<u64> {
    let a = a64 as u32;
    let b = b64 as u32;
    let sh = (b & 63) as u32;
    if code == op::ADD {
        Some(u32_specs::wrapping_add(a, b) as u64)
    } else if code == op::SUB {
        Some(u32_specs::wrapping_sub(a, b) as u64)
    } else if code == op::MUL {
        Some(u32_specs::wrapping_mul(a, b) as u64)
    } else if code == op::DIV {
        if b == 0 { None } else { Some((a / b) as u64) }
    } else if code == op::MOD {
        if b == 0 { None } else { Some((a % b) as u64) }
    } else if code == op::OR {
        Some((a | b) as u64)
    } else if code == op::AND {
        Some((a & b) as u64)
    } else if code == op::XOR {
        Some((a ^ b) as u64)
    } else if code == op::MOV {
        Some(b as u64)
    } else if code == op::LSH {
        Some(u32_specs::wrapping_shl(a, sh) as u64)
    } else if code == op::RSH {
        Some(u32_specs::wrapping_shr(a, sh) as u64)
    } else if code == op::ARSH {
        Some(i32_specs::wrapping_shr(a as i32, sh) as u32 as u64)
    } else {
        Some(u32_specs::wrapping_sub(0, a) as u64)
    }
}

/// The second operand: a register, or the sign-extended immediate.
pub open spec fn operand(s: VmState, raw: u64) -> u64 {
    if source_of(opcode_of(raw)) == src::REG {
        s.regs[src_of(raw) as int]
    } else {
        imm_of(raw) as i64 as u64
    }
}

/// An arithmetic instruction; `is32` for the ALU class.
pub open spec fn step_alu(s: VmState, raw: u64, is32: bool) -> Outcome {
    let code = code_of(opcode_of(raw));
    let dst = dst_of(raw);
    if dst == 10 {
        Outcome::Fault(EbpfError::MemoryFault { pc: s.pc, addr: 0 })
    } else if !alu_code_known(code) {
        Outcome::Fault(EbpfError::UnknownOpcode { pc: s.pc, opcode: opcode_of(raw) })
    } else {
        let a = s.regs[dst as int];
        let b = operand(s, raw);
        match (if is32 { alu32(code, a, b) } else { alu64(code, a, b) }) {
            Some(v) => Outcome::Next(set_pc(set_reg(s, dst, v), (s.pc + 1) as usize)),
            None => Outcome::Fault(EbpfError::DivisionByZero { pc: s.pc }),
        }
    }
}

/// Whether a 64-bit conditional jump with `code` is taken.
pub open spec fn taken64(code: u8, a: u64, b: u64) -> bool {
    if code == op::JA {
        true
    } else if code == op::JEQ {
        a == b
    } else if code == op::JNE {
        a != b
    } else if code == op::JGT {
        a > b
    } else if code == op::JGE {
        a >= b
    } else if code == 0x0a {
        a < b
    } else if code == 0x0b {
        a <= b
    } else if code == op::JSGT {
        a as i64 > b as i64
    } else if code == op::JSGE {
        a as i64 >= b as i64
    } else if code == 0x0c {
        (a as i64) < b as i64
    } else if code == 0x0d {
        a as i64 <= b as i64
    } else {
        a & b != 0
    }
}

/// Whether a 32-bit conditional jump with `code` is taken.
pub open spec fn taken32(code: u8, a: u32, b: u32) -> bool {
    if code == op::JA {
        true
    } else if code == op::JEQ {
        a == b
    } else if code == op::JNE {
        a != b
    } else if code == op::JGT {
        a > b
    } else if code == op::JGE {
        a >= b
    } else if code == 0x0a {
        a < b
    } else if code == 0x0b {
        a <= b
    } else if code == op::JSGT {
        a as i32 > b as i32
    } else if code == op::JSGE {
        a as i32 >= b as i32
    } else if code == 0x0c {
        (a as i32) < b as i32
    } else if code == 0x0d {
        a as i32 <= b as i32
    } else {
        a & b != 0
    }
}

/// `pc` moved by the signed offset `off`, wrapping around the address space.
pub open spec fn pc_offset(pc: usize, off: i16) -> usize {
    let delta = off as i32;
    if delta >= 0 {
        usize_specs::wrapping_add(pc, delta as usize)
    } else {
        usize_specs::wrapping_sub(pc, (-delta) as usize)
    }
}

/// The pc after a taken jump: one past the offset target.
pub open spec fn jump_target(pc: usize, off: i16) -> usize {
    usize_specs::wrapping_add(pc_offset(pc, off), 1)
}

/// A `call` instruction of the 64-bit jump class.
pub open spec fn step_call(env: VmEnv, s: VmState, raw: u64) -> Outcome {
    let id = imm_of(raw) as u32;
    let next = set_pc(s, (s.pc + 1) as usize);
    if id == HELPER_MAP_LOOKUP_ELEM && s.maps.len() > 0 {
        if (s.regs[1] as usize) >= s.maps.len() {
            Outcome::Fault(EbpfError::InvalidMapHandle { pc: s.pc })
        } else {
            Outcome::MapLookup { handle: s.regs[1], key: s.regs[2], resume: next }
        }
    } else if id == HELPER_MAP_UPDATE_ELEM && s.maps.len() > 0 {
        if (s.regs[1] as usize) >= s.maps.len() {
            Outcome::Fault(EbpfError::InvalidMapHandle { pc: s.pc })
        } else {
            Outcome::MapUpdate { handle: s.regs[1], key: s.regs[2], val: s.regs[3], resume: next }
        }
    } else if id == HELPER_MAP_DELETE_ELEM && s.maps.len() > 0 {
        if (s.regs[1] as usize) >= s.maps.len() {
            Outcome::Fault(EbpfError::InvalidMapHandle { pc: s.pc })
        } else {
            Outcome::MapDelete { handle: s.regs[1], key: s.regs[2], resume: next }
        }
    } else if env.helpers@.contains(id) {
        Outcome::Helper {
            helper: env.helpers.helper(id),
            args: (s.regs[1], s.regs[2], s.regs[3], s.regs[4], s.regs[5]),
            resume: next,
        }
    } else if (id as usize) >= env.prog.len() && s.calls.len() < CALL_STACK_LIMIT {
        Outcome::Fault(EbpfError::HelperNotFound { id })
    } else if s.calls.len() >= CALL_STACK_LIMIT {
        Outcome::Fault(EbpfError::CallStackExhausted)
    } else {
        Outcome::Next(
            VmState { calls: s.calls.push((s.pc + 1) as usize), pc: imm_of(raw) as usize, ..s },
        )
    }
}

/// An instruction of the 64-bit jump class: jumps, `call` and `exit`.
pub open spec fn step_jmp(env: VmEnv, s: VmState, raw: u64) -> Outcome {
    let code = code_of(opcode_of(raw));
    if code == 0x0e || code == 0x0f {
        Outcome::Fault(EbpfError::UnknownOpcode { pc: s.pc, opcode: opcode_of(raw) })
    } else if code == op::CALL {
        step_call(env, s, raw)
    } else if code == op::EXIT {
        if s.calls.len() > 0 {
            Outcome::Next(VmState { pc: s.calls.last(), calls: s.calls.drop_last(), ..s })
        } else {
            Outcome::Exit
        }
    } else if taken64(code, s.regs[dst_of(raw) as int], operand(s, raw)) {
        Outcome::Next(set_pc(s, jump_target(s.pc, off_of(raw))))
    } else {
        Outcome::Next(set_pc(s, (s.pc + 1) as usize))
    }
}

/// An instruction of the 32-bit jump class, which compares low halves and
/// has neither `call` nor `exit`.
pub open spec fn step_jmp32(s: VmState, raw: u64) -> Outcome {
    let code = code_of(opcode_of(raw));
    if code == op::CALL || code == op::EXIT || code == 0x0e || code == 0x0f {
        Outcome::Fault(EbpfError::UnknownOpcode { pc: s.pc, opcode: opcode_of(raw) })
    } else {
        let b = if source_of(opcode_of(raw)) == src::REG {
            s.regs[src_of(raw) as int] as u32
        } else {
            imm_of(raw) as u32
        };
        if taken32(code, s.regs[dst_of(raw) as int] as u32, b) {
            Outcome::Next(set_pc(s, jump_target(s.pc, off_of(raw))))
        } else {
            Outcome::Next(set_pc(s, (s.pc + 1) as usize))
        }
    }
}

/// The access width that a memory instruction's code selects.
pub open spec fn mem_size(code: u8) -> Option<usize> {
    if code == 0x03 {
        Some(8)
    } else if code == 0x02 {
        Some(4)
    } else if code == 0x01 {
        Some(2)
    } else if code == 0x00 {
        Some(1)
    } else {
        None
    }
}

/// The address a memory instruction reaches from `base`: base plus offset, wrapping.
pub open spec fn mem_addr(base: u64, off: i16) -> i64 {
    i64_specs::wrapping_add(base as i64, off as i64)
}

/// Where `size` bytes at `addr` lie in the stack, if they lie in it.
pub open spec fn stack_window(addr: i64, size: usize) -> Option<usize> {
    if addr < 0 || (addr as usize) + size > STACK_SIZE {
        None
    } else {
        Some(addr as usize)
    }
}

/// `stack` with `bytes` written from `start` on.
pub open spec fn write_bytes(stack: Seq<u8>, start: int, bytes: Seq<u8>) -> Seq<u8> {
    stack.subrange(0, start) + bytes + stack.subrange(start + bytes.len(), stack.len() as int)
}

/// A load from the stack into a register.
pub open spec fn step_ldx(s: VmState, raw: u64) -> Outcome {
    match mem_size(code_of(opcode_of(raw))) {
        None => Outcome::Fault(EbpfError::UnknownOpcode { pc: s.pc, opcode: opcode_of(raw) }),
        Some(size) => {
            let addr = mem_addr(s.regs[src_of(raw) as int], off_of(raw));
            match stack_window(addr, size) {
                None => Outcome::Fault(EbpfError::MemoryFault { pc: s.pc, addr: addr as u64 }),
                Some(start) => if dst_of(raw) == 10 {
                    Outcome::Fault(EbpfError::MemoryFault { pc: s.pc, addr: addr as u64 })
                } else {
                    let v = le_value(s.stack.subrange(start as int, start + size)) as u64;
                    Outcome::Next(set_pc(set_reg(s, dst_of(raw), v), (s.pc + 1) as usize))
                },
            }
        },
    }
}

/// A store of `value`'s low bytes at the address held in the destination register.
pub open spec fn step_store(s: VmState, raw: u64, value: u64) -> Outcome {
    match mem_size(code_of(opcode_of(raw))) {
        None => Outcome::Fault(EbpfError::UnknownOpcode { pc: s.pc, opcode: opcode_of(raw) }),
        Some(size) => {
            let addr = mem_addr(s.regs[dst_of(raw) as int], off_of(raw));
            match stack_window(addr, size) {
                None => Outcome::Fault(EbpfError::MemoryFault { pc: s.pc, addr: addr as u64 }),
                Some(start) => Outcome::Next(
                    VmState {
                        stack: write_bytes(s.stack, start as int, le_bytes(value as nat, size as nat)),
                        pc: (s.pc + 1) as usize,
                        ..s
                    },
                ),
            }
        },
    }
}

/// A 128-bit load of a 64-bit immediate made of this instruction and the next.
pub open spec fn step_wide(env: VmEnv, s: VmState, raw: u64) -> Outcome {
    if s.pc + 1 >= env.prog.len() {
        Outcome::Fault(EbpfError::InvalidPc { pc: s.pc, bound: env.prog.len() as usize })
    } else if dst_of(raw) == 10 {
        Outcome::Fault(EbpfError::MemoryFault { pc: s.pc, addr: 0 })
    } else {
        let v = wide_bits(raw, env.prog[s.pc + 1]@);
        Outcome::Next(set_pc(set_reg(s, dst_of(raw), v), (s.pc + 2) as usize))
    }
}

/// What the instruction at the pc does.
pub open spec fn step(env: VmEnv, s: VmState) -> Outcome {
    if s.pc >= env.prog.len() {
        Outcome::Fault(EbpfError::InvalidPc { pc: s.pc, bound: env.prog.len() as usize })
    } else {
        let raw = env.prog[s.pc as int]@;
        let cls = class_of(opcode_of(raw));
        if is_wide_raw(raw) {
            step_wide(env, s, raw)
        } else if cls == class::ALU64 {
            step_alu(s, raw, false)
        } else if cls == class::ALU {
            step_alu(s, raw, true)
        } else if cls == class::JMP {
            step_jmp(env, s, raw)
        } else if cls == class::JMP32 {
            step_jmp32(s, raw)
        } else if cls == class::LDX {
            step_ldx(s, raw)
        } else if cls == class::ST {
            step_store(s, raw, imm_of(raw) as u64)
        } else if cls == class::STX {
            step_store(s, raw, s.regs[src_of(raw) as int])
        } else {
            Outcome::Fault(EbpfError::UnknownOpcode { pc: s.pc, opcode: opcode_of(raw) })
        }
    }
}

/// The result of running from `s` with `fuel` instructions left, where the
/// outside calls answer with `replies` in turn, and the state the run ends
/// in; `None` when the replies run out or do not fit the calls.
pub open spec fn run_from(env: VmEnv, s: VmState, fuel: nat, replies: Seq<Reply>) -> Option<
    (Result<u64, EbpfError>, VmState),
>
    decreases fuel,
{
    if fuel == 0 {
        Some(
            (Err(EbpfError::InvalidPc { pc: usize::MAX, bound: env.prog.len() as usize }), s),
        )
    } else {
        match step(env, s) {
            Outcome::Next(t) => run_from(env, t, (fuel - 1) as nat, replies),
            Outcome::Exit => Some((Ok(s.regs[0]), s)),
            Outcome::Fault(e) => Some((Err(e), s)),
            o => if replies.len() > 0 {
                match resume_with(o, replies[0]) {
                    Some(t) => run_from(env, t, (fuel - 1) as nat, replies.drop_first()),
                    None => None,
                }
            } else {
                None
            },
        }
    }
}

/// A load from the stack reads back what a store of the same width at the
/// same address wrote: the low bytes of the stored value.
pub proof fn lemma_store_then_load(s: VmState, st: u64, value: u64, ld: u64)
    requires
        s.stack.len() == STACK_SIZE,
        s.regs.len() == NUM_REGS,
        dst_of(st) <= 10,
        src_of(ld) <= 10,
        dst_of(ld) < 10,
        mem_size(code_of(opcode_of(st))) is Some,
        mem_size(code_of(opcode_of(ld))) == mem_size(code_of(opcode_of(st))),
        step_store(s, st, value) is Next,
        mem_addr(s.regs[src_of(ld) as int], off_of(ld)) == mem_addr(s.regs[dst_of(st) as int], off_of(st)),
    ensures
        ({
            let t = step_store(s, st, value)->Next_0;
            let size = mem_size(code_of(opcode_of(st)))->Some_0;
            step_ldx(t, ld) matches Outcome::Next(u) && u.regs[dst_of(ld) as int] == (value as nat
                % pow256(size as nat)) as u64
        }),
{
    let size = mem_size(code_of(opcode_of(st)))->Some_0;
    let addr = mem_addr(s.regs[dst_of(st) as int], off_of(st));
    let start = stack_window(addr, size)->Some_0;
    let bytes = le_bytes(value as nat, size as nat);
    let t = step_store(s, st, value)->Next_0;
    lemma_le_bytes_len(value as nat, size as nat);
    assert(t.stack.subrange(start as int, start + size) =~= bytes);
    lemma_le_roundtrip(value as nat, size as nat);
}

/// No instruction of the program is a call: none reaches a helper or a map.
pub open spec fn call_free(prog: Seq<Insn>) -> bool {
    forall|pc: int|
        0 <= pc < prog.len() ==> is_wide_raw(#[trigger] prog[pc]@) || !(class_of(opcode_of(prog[pc]@))
            == class::JMP && code_of(opcode_of(prog[pc]@)) == op::CALL)
}

/// In a program without calls, every step moves on, exits or faults.
proof fn lemma_step_no_call(env: VmEnv, s: VmState)
    requires
        call_free(env.prog),
    ensures
        step(env, s) is Next || step(env, s) is Exit || step(env, s) is Fault,
{
    if s.pc < env.prog.len() {
        let raw = env.prog[s.pc as int]@;
        assert(is_wide_raw(raw) || !(class_of(opcode_of(raw)) == class::JMP && code_of(opcode_of(raw))
            == op::CALL));
    }
}

/// A run of a program without calls does not depend on the replies: the
/// program has exactly one result and one final state from a given state.
pub proof fn lemma_call_free_runs_agree(env: VmEnv, s: VmState, fuel: nat, r1: Seq<Reply>, r2: Seq<Reply>)
    requires
        call_free(env.prog),
    ensures
        run_from(env, s, fuel, r1) is Some,
        run_from(env, s, fuel, r1) == run_from(env, s, fuel, r2),
    decreases fuel,
{
    if fuel > 0 {
        lemma_step_no_call(env, s);
        if let Outcome::Next(t) = step(env, s) {
            lemma_call_free_runs_agree(env, t, (fuel - 1) as nat, r1, r2);
        }
    }
}

/// One step from an instruction that the control-flow check accepts, in a
/// program without calls and with no pending return, moves forward inside
/// the program, exits, or faults with an error other than a bad pc.
proof fn lemma_step_forward(env: VmEnv, s: VmState)
    requires
        s.pc < env.prog.len() <= usize::MAX,
        cfg_node(env.prog, s.pc) is Ok,
        call_free(env.prog),
        s.calls.len() == 0,
    ensures
        match step(env, s) {
            Outcome::Next(t) => s.pc < t.pc < env.prog.len() && t.calls.len() == 0,
            Outcome::Exit => true,
            Outcome::Fault(e) => !(e is InvalidPc),
            _ => false,
        },
{
    let len = env.prog.len();
    let pc = s.pc;
    let raw = env.prog[pc as int]@;
    let opc = opcode_of(raw);
    let cls = class_of(opc);
    let code = code_of(opc);
    assert(is_wide_raw(raw) || !(cls == class::JMP && code == op::CALL));
    if !is_wide_raw(raw) && (cls == class::JMP || cls == class::JMP32) && code != op::EXIT {
        let off = off_of(raw);
        let t = pc + 1 + off;
        if code == op::JA || conditional_code(code) {
            assert(jump_check(len, pc, off) is Ok);
            assert(pc < t < len);
            if off >= 0 {
                assert(pc_offset(pc, off) == pc + off);
            } else {
                assert(pc_offset(pc, off) == pc + off);
            }
            assert(jump_target(pc, off) == t);
        }
    }
}

/// A program that the control-flow check accepts and that makes no call
/// ends within as many steps as it has instructions left to run: it exits or
/// faults, and never runs past the program or out of its step budget.
pub proof fn lemma_accepted_runs_end(env: VmEnv, s: VmState, fuel: nat, replies: Seq<Reply>)
    requires
        call_free(env.prog),
        sound_cfg(env.prog, Set::empty()),
        covered(env.prog, Set::empty()),
        s.pc < env.prog.len() <= usize::MAX,
        s.calls.len() == 0,
        fuel >= env.prog.len() - s.pc,
    ensures
        run_from(env, s, fuel, replies) matches Some((r, _)) && !(r matches Err(
            EbpfError::InvalidPc { .. },
        )),
    decreases env.prog.len() - s.pc,
{
    lemma_accepted_edges_forward(env.prog, s.pc, s.pc);
    lemma_step_forward(env, s);
    if let Outcome::Next(t) = step(env, s) {
        lemma_accepted_runs_end(env, t, (fuel - 1) as nat, replies);
    }
}

/// Every instruction names existing registers.
pub open spec fn prog_regs_valid(prog: Seq<Insn>) -> bool {
    forall|pc: int| 0 <= pc < prog.len() ==> regs_in_range(#[trigger] prog[pc]@)
}

/// One step, and the reply to an outside call, keep the registers and r10.
proof fn lemma_step_keeps_r10(env: VmEnv, s: VmState, rep: Reply)
    requires
        prog_regs_valid(env.prog),
        s.regs.len() == NUM_REGS,
    ensures
        step(env, s) matches Outcome::Next(t) ==> t.regs.len() == NUM_REGS && t.regs[10] == s.regs[10],
        resume_with(step(env, s), rep) matches Some(t) ==> t.regs.len() == NUM_REGS && t.regs[10]
            == s.regs[10],
{
    if s.pc < env.prog.len() {
        assert(regs_in_range(env.prog[s.pc as int]@));
    }
}

/// A run never changes r10, the frame pointer: instructions that would
/// write it fault instead, and outside calls only write r0.
pub proof fn lemma_run_keeps_r10(env: VmEnv, s: VmState, fuel: nat, replies: Seq<Reply>)
    requires
        prog_regs_valid(env.prog),
        s.regs.len() == NUM_REGS,
    ensures
        run_from(env, s, fuel, replies) matches Some((_, t)) ==> t.regs.len() == NUM_REGS && t.regs[10]
            == s.regs[10],
    decreases fuel,
{
    if fuel > 0 {
        match step(env, s) {
            Outcome::Next(t) => {
                lemma_step_keeps_r10(env, s, Reply::Word(0));
                lemma_run_keeps_r10(env, t, (fuel - 1) as nat, replies);
            },
            Outcome::Exit => {},
            Outcome::Fault(_) => {},
            _ => {
                if replies.len() > 0 {
                    lemma_step_keeps_r10(env, s, replies[0]);
                    if let Some(t) = resume_with(step(env, s), replies[0]) {
                        lemma_run_keeps_r10(env, t, (fuel - 1) as nat, replies.drop_first());
                    }
                }
            },
        }
    }
}

} // verus!
