//! What each kind of instruction means, stated directly in terms of the
//! bytes, the registers, the operands, the stack and the return addresses:
//! how an instruction word is decoded, the jumps and calls that a run takes,
//! the arithmetic results, the loads and stores, the control flow that the
//! verifier accepts, and the register types that the type checker demands
//! and produces.
use vstd::prelude::*;

use crate::control_flow::cfg_node;
use crate::error::EbpfError;
use crate::insn::{dst_of, imm_of, is_wide_raw, off_of, opcode_of, src_of, Insn};
use crate::opcode::{class, class_of, code_of, op, source_of, src};
use crate::le::{le_bytes, le_value, lemma_le_bytes_len, lemma_le_bytes_push, lemma_le_value_bytes, pow256};
use crate::semantics::{
    initial_state, jump_target, mem_addr, pc_offset, run_from, step, write_bytes, Outcome, Reply, VmEnv, VmState,
    EXEC_LIMIT, NUM_REGS, STACK_SIZE,
};
use crate::typeck::{closed_at, entry_types, is_typing, successors_of, transfer, typable, types_after, is_mov_op, RegType};

verus! {

/// A jump by `off` from `pc` that stays in the address space lands on
/// `pc + 1 + off`.
proof fn lemma_jump_target(pc: usize, off: i16)
    requires
        0 <= pc + 1 + off <= usize::MAX,
    ensures
        jump_target(pc, off) == (pc + 1 + off) as usize,
{
    if off >= 0 {
        assert(pc_offset(pc, off) == pc + off);
    } else if pc + off >= 0 {
        assert(pc_offset(pc, off) == pc + off);
    } else {
        assert(pc_offset(pc, off) == usize::MAX);
    }
}

/// A jump of the 64-bit class compares the destination register with the
/// source register or the sign-extended immediate, as unsigned or signed
/// 64-bit numbers, and goes to `pc + 1 + off` when the comparison holds and
/// to `pc + 1` otherwise; `ja` always jumps; codes 0xe and 0xf are unknown.
pub proof fn lemma_jmp64_branches(env: VmEnv, s: VmState)
    requires
        s.pc < env.prog.len(),
        s.regs.len() == NUM_REGS,
        !is_wide_raw(env.prog[s.pc as int]@),
        class_of(opcode_of(env.prog[s.pc as int]@)) == class::JMP,
        dst_of(env.prog[s.pc as int]@) <= 10,
        src_of(env.prog[s.pc as int]@) <= 10,
        0 <= s.pc + 1 + off_of(env.prog[s.pc as int]@) <= usize::MAX,
    ensures
        ({
            let raw = env.prog[s.pc as int]@;
            let code = code_of(opcode_of(raw));
            let a = s.regs[dst_of(raw) as int];
            let b = if source_of(opcode_of(raw)) == src::REG {
                s.regs[src_of(raw) as int]
            } else {
                imm_of(raw) as i64 as u64
            };
            let jump = Outcome::Next(VmState { pc: (s.pc + 1 + off_of(raw)) as usize, ..s });
            let fall = Outcome::Next(VmState { pc: (s.pc + 1) as usize, ..s });
            &&& code == 0x0 ==> step(env, s) == jump
            &&& code == 0x1 ==> step(env, s) == if a == b { jump } else { fall }
            &&& code == 0x2 ==> step(env, s) == if a > b { jump } else { fall }
            &&& code == 0x3 ==> step(env, s) == if a >= b { jump } else { fall }
            &&& code == 0x4 ==> step(env, s) == if a & b != 0 { jump } else { fall }
            &&& code == 0x5 ==> step(env, s) == if a != b { jump } else { fall }
            &&& code == 0x6 ==> step(env, s) == if a as i64 > b as i64 { jump } else { fall }
            &&& code == 0x7 ==> step(env, s) == if a as i64 >= b as i64 { jump } else { fall }
            &&& code == 0xa ==> step(env, s) == if a < b { jump } else { fall }
            &&& code == 0xb ==> step(env, s) == if a <= b { jump } else { fall }
            &&& code == 0xc ==> step(env, s) == if (a as i64) < b as i64 { jump } else { fall }
            &&& code == 0xd ==> step(env, s) == if a as i64 <= b as i64 { jump } else { fall }
            &&& (code == 0xe || code == 0xf) ==> step(env, s) == Outcome::Fault(
                EbpfError::UnknownOpcode { pc: s.pc, opcode: opcode_of(raw) },
            )
        }),
{
    let raw = env.prog[s.pc as int]@;
    lemma_jump_target(s.pc, off_of(raw));
}

/// A jump of the 32-bit class compares the low halves of the destination
/// register and of the source register or the immediate, as unsigned or
/// signed 32-bit numbers, and goes to `pc + 1 + off` when the comparison
/// holds and to `pc + 1` otherwise; `ja` always jumps; `call`, `exit` and
/// codes 0xe and 0xf are unknown in this class.
pub proof fn lemma_jmp32_branches(env: VmEnv, s: VmState)
    requires
        s.pc < env.prog.len(),
        s.regs.len() == NUM_REGS,
        !is_wide_raw(env.prog[s.pc as int]@),
        class_of(opcode_of(env.prog[s.pc as int]@)) == class::JMP32,
        dst_of(env.prog[s.pc as int]@) <= 10,
        src_of(env.prog[s.pc as int]@) <= 10,
        0 <= s.pc + 1 + off_of(env.prog[s.pc as int]@) <= usize::MAX,
    ensures
        ({
            let raw = env.prog[s.pc as int]@;
            let code = code_of(opcode_of(raw));
            let a = s.regs[dst_of(raw) as int] as u32;
            let b = if source_of(opcode_of(raw)) == src::REG {
                s.regs[src_of(raw) as int] as u32
            } else {
                imm_of(raw) as u32
            };
            let jump = Outcome::Next(VmState { pc: (s.pc + 1 + off_of(raw)) as usize, ..s });
            let fall = Outcome::Next(VmState { pc: (s.pc + 1) as usize, ..s });
            &&& code == 0x0 ==> step(env, s) == jump
            &&& code == 0x1 ==> step(env, s) == if a == b { jump } else { fall }
            &&& code == 0x2 ==> step(env, s) == if a > b { jump } else { fall }
            &&& code == 0x3 ==> step(env, s) == if a >= b { jump } else { fall }
            &&& code == 0x4 ==> step(env, s) == if a & b != 0 { jump } else { fall }
            &&& code == 0x5 ==> step(env, s) == if a != b { jump } else { fall }
            &&& code == 0x6 ==> step(env, s) == if a as i32 > b as i32 { jump } else { fall }
            &&& code == 0x7 ==> step(env, s) == if a as i32 >= b as i32 { jump } else { fall }
            &&& code == 0xa ==> step(env, s) == if a < b { jump } else { fall }
            &&& code == 0xb ==> step(env, s) == if a <= b { jump } else { fall }
            &&& code == 0xc ==> step(env, s) == if (a as i32) < b as i32 { jump } else { fall }
            &&& code == 0xd ==> step(env, s) == if a as i32 <= b as i32 { jump } else { fall }
            &&& (code == 0x8 || code == 0x9 || code == 0xe || code == 0xf) ==> step(env, s)
                == Outcome::Fault(EbpfError::UnknownOpcode { pc: s.pc, opcode: opcode_of(raw) })
        }),
{
    let raw = env.prog[s.pc as int]@;
    lemma_jump_target(s.pc, off_of(raw));
}

/// `exit` with pending returns resumes at the most recently pushed return
/// address and drops only that one; without pending returns the program
/// ends.
pub proof fn lemma_exit_returns_to_latest_call(env: VmEnv, s: VmState, c: Seq<usize>, r: usize)
    requires
        s.pc < env.prog.len(),
        !is_wide_raw(env.prog[s.pc as int]@),
        class_of(opcode_of(env.prog[s.pc as int]@)) == class::JMP,
        code_of(opcode_of(env.prog[s.pc as int]@)) == op::EXIT,
    ensures
        s.calls == c.push(r) ==> step(env, s) == Outcome::Next(VmState { pc: r, calls: c, ..s }),
        s.calls.len() == 0 ==> step(env, s) == Outcome::Exit,
{
    if s.calls == c.push(r) {
        assert(s.calls.drop_last() =~= c);
    }
}

/// A `call` whose immediate names neither a registered helper nor a map
/// operation is a local call: it pushes the address after it and goes to
/// the instruction the immediate names, while fewer than the limit of calls
/// are pending; an `exit` there then comes back to the address after the
/// call with the returns pending before it.
pub proof fn lemma_local_call_then_exit(env: VmEnv, s: VmState)
    requires
        s.pc < env.prog.len(),
        !is_wide_raw(env.prog[s.pc as int]@),
        class_of(opcode_of(env.prog[s.pc as int]@)) == class::JMP,
        code_of(opcode_of(env.prog[s.pc as int]@)) == op::CALL,
        s.maps.len() == 0 || !(1 <= imm_of(env.prog[s.pc as int]@) as u32 <= 3),
        !env.helpers@.contains(imm_of(env.prog[s.pc as int]@) as u32),
        (imm_of(env.prog[s.pc as int]@) as u32 as usize) < env.prog.len(),
        s.calls.len() < 8,
    ensures
        ({
            let t = VmState {
                pc: imm_of(env.prog[s.pc as int]@) as usize,
                calls: s.calls.push((s.pc + 1) as usize),
                ..s
            };
            &&& step(env, s) == Outcome::Next(t)
            &&& (t.pc < env.prog.len() && !is_wide_raw(env.prog[t.pc as int]@) && class_of(
                opcode_of(env.prog[t.pc as int]@),
            ) == class::JMP && code_of(opcode_of(env.prog[t.pc as int]@)) == op::EXIT) ==> step(env, t)
                == Outcome::Next(VmState { pc: (s.pc + 1) as usize, calls: s.calls, ..t })
        }),
{
    let t = VmState {
        pc: imm_of(env.prog[s.pc as int]@) as usize,
        calls: s.calls.push((s.pc + 1) as usize),
        ..s
    };
    assert(t.calls.drop_last() =~= s.calls);
}

/// The verifier accepts every conditional jump code of both jump classes:
/// an in-range forward conditional jump has as successors its target and
/// then the next instruction. The jump codes without a meaning are refused.
pub proof fn lemma_conditional_jumps_branch(prog: Seq<Insn>, pc: usize)
    requires
        pc < prog.len() <= usize::MAX,
        !is_wide_raw(prog[pc as int]@),
        class_of(opcode_of(prog[pc as int]@)) == class::JMP || class_of(opcode_of(prog[pc as int]@))
            == class::JMP32,
    ensures
        ({
            let raw = prog[pc as int]@;
            let code = code_of(opcode_of(raw));
            let t = pc + 1 + off_of(raw);
            &&& (code == 0x1 || code == 0x2 || code == 0x3 || code == 0x4 || code == 0x5 || code == 0x6
                || code == 0x7 || code == 0xa || code == 0xb || code == 0xc || code == 0xd) && pc < t < prog.len()
                && pc + 1 < prog.len() ==> cfg_node(prog, pc) == Ok::<Seq<usize>, EbpfError>(
                seq![t as usize, (pc + 1) as usize],
            )
            &&& (code == 0xe || code == 0xf || (class_of(opcode_of(raw)) == class::JMP32 && (code == 0x0
                || code == 0x8 || code == 0x9))) ==> cfg_node(prog, pc) == Err::<Seq<usize>, EbpfError>(
                EbpfError::UnknownOpcode { pc, opcode: opcode_of(raw) },
            )
        }),
{
}

/// The control-flow successors of every other kind of instruction: `exit`
/// has none; `ja` has its target, which must lie ahead of it inside the
/// program; a call and every instruction outside the jump classes have the
/// next instruction, which must exist; a wide instruction has the one after
/// its second half. A conditional jump backwards or out of the program is
/// refused as `ja` is.
pub proof fn lemma_cfg_successors(prog: Seq<Insn>, pc: usize)
    requires
        pc < prog.len() <= usize::MAX,
    ensures
        ({
            let raw = prog[pc as int]@;
            let cls = class_of(opcode_of(raw));
            let code = code_of(opcode_of(raw));
            let t = pc + 1 + off_of(raw);
            let jump = cls == class::JMP && (code == op::JA || code == 0x1 || code == 0x2 || code == 0x3
                || code == 0x4 || code == 0x5 || code == 0x6 || code == 0x7 || code == 0xa || code == 0xb
                || code == 0xc || code == 0xd) || cls == class::JMP32 && (code == 0x1 || code == 0x2 || code
                == 0x3 || code == 0x4 || code == 0x5 || code == 0x6 || code == 0x7 || code == 0xa || code
                == 0xb || code == 0xc || code == 0xd);
            let plain = cls != class::JMP && cls != class::JMP32 || cls == class::JMP && code == op::CALL;
            &&& is_wide_raw(raw) && pc + 1 == prog.len() ==> cfg_node(prog, pc) == Err::<Seq<usize>, EbpfError>(
                EbpfError::InvalidJumpTarget { pc, target: (pc + 1) as usize },
            )
            &&& is_wide_raw(raw) && pc + 2 == prog.len() ==> cfg_node(prog, pc) == Err::<Seq<usize>, EbpfError>(
                EbpfError::FallthroughEnd { pc },
            )
            &&& is_wide_raw(raw) && pc + 2 < prog.len() ==> cfg_node(prog, pc) == Ok::<Seq<usize>, EbpfError>(
                seq![(pc + 2) as usize],
            )
            &&& !is_wide_raw(raw) && cls == class::JMP && code == op::EXIT ==> cfg_node(prog, pc) == Ok::<
                Seq<usize>,
                EbpfError,
            >(Seq::empty())
            &&& !is_wide_raw(raw) && cls == class::JMP && code == op::JA && pc < t < prog.len() ==> cfg_node(
                prog,
                pc,
            ) == Ok::<Seq<usize>, EbpfError>(seq![t as usize])
            &&& !is_wide_raw(raw) && jump && (t < 0 || t >= prog.len()) ==> cfg_node(prog, pc) == Err::<
                Seq<usize>,
                EbpfError,
            >(EbpfError::InvalidJumpTarget { pc, target: t as usize })
            &&& !is_wide_raw(raw) && jump && 0 <= t <= pc ==> cfg_node(prog, pc) == Err::<Seq<usize>, EbpfError>(
                EbpfError::BackEdge { pc },
            )
            &&& !is_wide_raw(raw) && plain && pc + 1 < prog.len() ==> cfg_node(prog, pc) == Ok::<
                Seq<usize>,
                EbpfError,
            >(seq![(pc + 1) as usize])
            &&& !is_wide_raw(raw) && plain && pc + 1 == prog.len() ==> cfg_node(prog, pc) == Err::<
                Seq<usize>,
                EbpfError,
            >(EbpfError::FallthroughEnd { pc })
        }),
{
}

/// An instruction of the 64-bit arithmetic class writes into the
/// destination register the result of its operation on the destination and
/// the source register or the sign-extended immediate, modulo 2^64, and
/// moves on; a division or remainder by zero faults, and codes above 0xc
/// are unknown.
pub proof fn lemma_alu64_results(env: VmEnv, s: VmState)
    requires
        s.pc < env.prog.len(),
        s.regs.len() == NUM_REGS,
        !is_wide_raw(env.prog[s.pc as int]@),
        class_of(opcode_of(env.prog[s.pc as int]@)) == class::ALU64,
        dst_of(env.prog[s.pc as int]@) < 10,
        src_of(env.prog[s.pc as int]@) <= 10,
    ensures
        ({
            let raw = env.prog[s.pc as int]@;
            let code = code_of(opcode_of(raw));
            let d = dst_of(raw) as int;
            let a = s.regs[d];
            let b = if source_of(opcode_of(raw)) == src::REG {
                s.regs[src_of(raw) as int]
            } else {
                imm_of(raw) as i64 as u64
            };
            let m: int = 0x1_0000_0000_0000_0000;
            let f = (s.pc + 1) as usize;
            &&& code == op::ADD ==> step(env, s) == Outcome::Next(
                VmState { regs: s.regs.update(d, ((a + b) % m) as u64), pc: f, ..s },
            )
            &&& code == op::SUB ==> step(env, s) == Outcome::Next(
                VmState { regs: s.regs.update(d, ((a - b) % m) as u64), pc: f, ..s },
            )
            &&& code == op::MUL ==> step(env, s) == Outcome::Next(
                VmState { regs: s.regs.update(d, ((a * b) % m) as u64), pc: f, ..s },
            )
            &&& code == op::DIV ==> step(env, s) == if b == 0 {
                Outcome::Fault(EbpfError::DivisionByZero { pc: s.pc })
            } else {
                Outcome::Next(VmState { regs: s.regs.update(d, a / b), pc: f, ..s })
            }
            &&& code == op::MOD ==> step(env, s) == if b == 0 {
                Outcome::Fault(EbpfError::DivisionByZero { pc: s.pc })
            } else {
                Outcome::Next(VmState { regs: s.regs.update(d, a % b), pc: f, ..s })
            }
            &&& code == op::OR ==> step(env, s) == Outcome::Next(
                VmState { regs: s.regs.update(d, a | b), pc: f, ..s },
            )
            &&& code == op::AND ==> step(env, s) == Outcome::Next(
                VmState { regs: s.regs.update(d, a & b), pc: f, ..s },
            )
            &&& code == op::XOR ==> step(env, s) == Outcome::Next(
                VmState { regs: s.regs.update(d, a ^ b), pc: f, ..s },
            )
            &&& code == op::MOV ==> step(env, s) == Outcome::Next(
                VmState { regs: s.regs.update(d, b), pc: f, ..s },
            )
            &&& code == op::LSH ==> step(env, s) == Outcome::Next(
                VmState { regs: s.regs.update(d, a << (b % 64)), pc: f, ..s },
            )
            &&& code == op::RSH ==> step(env, s) == Outcome::Next(
                VmState { regs: s.regs.update(d, a >> (b % 64)), pc: f, ..s },
            )
            &&& code == op::ARSH ==> step(env, s) == Outcome::Next(
                VmState { regs: s.regs.update(d, ((a as i64) >> (b % 64)) as u64), pc: f, ..s },
            )
            &&& code == op::NEG ==> step(env, s) == Outcome::Next(
                VmState { regs: s.regs.update(d, ((0 - a) % m) as u64), pc: f, ..s },
            )
            &&& code > op::ARSH ==> step(env, s) == Outcome::Fault(
                EbpfError::UnknownOpcode { pc: s.pc, opcode: opcode_of(raw) },
            )
        }),
{
    let raw = env.prog[s.pc as int]@;
    let a = s.regs[dst_of(raw) as int];
    let b = if source_of(opcode_of(raw)) == src::REG {
        s.regs[src_of(raw) as int]
    } else {
        imm_of(raw) as i64 as u64
    };
    assert(b % 64 == (b & 63) as u32 % 64) by (bit_vector);
    assert(a << (b % 64) == a << ((b & 63) as u32 % 64)) by (bit_vector);
    assert(a >> (b % 64) == a >> ((b & 63) as u32 % 64)) by (bit_vector);
    assert((a as i64) >> (b % 64) == (a as i64) >> ((b & 63) as u32 % 64)) by (bit_vector);
}

/// An instruction of the 32-bit arithmetic class computes on the low halves
/// of the destination and of the source register or the immediate, modulo
/// 2^32, and writes the result zero-extended into the destination register;
/// a division or remainder by zero faults, and codes above 0xc are unknown.
pub proof fn lemma_alu32_results(env: VmEnv, s: VmState)
    requires
        s.pc < env.prog.len(),
        s.regs.len() == NUM_REGS,
        !is_wide_raw(env.prog[s.pc as int]@),
        class_of(opcode_of(env.prog[s.pc as int]@)) == class::ALU,
        dst_of(env.prog[s.pc as int]@) < 10,
        src_of(env.prog[s.pc as int]@) <= 10,
    ensures
        ({
            let raw = env.prog[s.pc as int]@;
            let code = code_of(opcode_of(raw));
            let d = dst_of(raw) as int;
            let a = s.regs[d] as u32;
            let b = if source_of(opcode_of(raw)) == src::REG {
                s.regs[src_of(raw) as int] as u32
            } else {
                imm_of(raw) as u32
            };
            let m: int = 0x1_0000_0000;
            let f = (s.pc + 1) as usize;
            &&& code == op::ADD ==> step(env, s) == Outcome::Next(
                VmState { regs: s.regs.update(d, ((a + b) % m) as u64), pc: f, ..s },
            )
            &&& code == op::SUB ==> step(env, s) == Outcome::Next(
                VmState { regs: s.regs.update(d, ((a - b) % m) as u64), pc: f, ..s },
            )
            &&& code == op::MUL ==> step(env, s) == Outcome::Next(
                VmState { regs: s.regs.update(d, ((a * b) % m) as u64), pc: f, ..s },
            )
            &&& code == op::DIV ==> step(env, s) == if b == 0 {
                Outcome::Fault(EbpfError::DivisionByZero { pc: s.pc })
            } else {
                Outcome::Next(VmState { regs: s.regs.update(d, (a / b) as u64), pc: f, ..s })
            }
            &&& code == op::MOD ==> step(env, s) == if b == 0 {
                Outcome::Fault(EbpfError::DivisionByZero { pc: s.pc })
            } else {
                Outcome::Next(VmState { regs: s.regs.update(d, (a % b) as u64), pc: f, ..s })
            }
            &&& code == op::OR ==> step(env, s) == Outcome::Next(
                VmState { regs: s.regs.update(d, (a | b) as u64), pc: f, ..s },
            )
            &&& code == op::AND ==> step(env, s) == Outcome::Next(
                VmState { regs: s.regs.update(d, (a & b) as u64), pc: f, ..s },
            )
            &&& code == op::XOR ==> step(env, s) == Outcome::Next(
                VmState { regs: s.regs.update(d, (a ^ b) as u64), pc: f, ..s },
            )
            &&& code == op::MOV ==> step(env, s) == Outcome::Next(
                VmState { regs: s.regs.update(d, b as u64), pc: f, ..s },
            )
            &&& code == op::LSH ==> step(env, s) == Outcome::Next(
                VmState { regs: s.regs.update(d, (a << (b % 32)) as u64), pc: f, ..s },
            )
            &&& code == op::RSH ==> step(env, s) == Outcome::Next(
                VmState { regs: s.regs.update(d, (a >> (b % 32)) as u64), pc: f, ..s },
            )
            &&& code == op::ARSH ==> step(env, s) == Outcome::Next(
                VmState { regs: s.regs.update(d, ((a as i32) >> (b % 32)) as u32 as u64), pc: f, ..s },
            )
            &&& code == op::NEG ==> step(env, s) == Outcome::Next(
                VmState { regs: s.regs.update(d, ((0 - a) % m) as u64), pc: f, ..s },
            )
            &&& code > op::ARSH ==> step(env, s) == Outcome::Fault(
                EbpfError::UnknownOpcode { pc: s.pc, opcode: opcode_of(raw) },
            )
        }),
{
    let raw = env.prog[s.pc as int]@;
    let imm = imm_of(raw);
    assert(((imm as i64 as u64) as u32) == imm as u32) by (bit_vector);
    let b64 = if source_of(opcode_of(raw)) == src::REG {
        s.regs[src_of(raw) as int]
    } else {
        imm_of(raw) as i64 as u64
    };
    let a = s.regs[dst_of(raw) as int] as u32;
    let b = b64 as u32;
    assert(b % 32 == ((b & 63) as u32) % 32) by (bit_vector);
    assert(a << (b % 32) == a << (((b & 63) as u32) % 32)) by (bit_vector);
    assert(a >> (b % 32) == a >> (((b & 63) as u32) % 32)) by (bit_vector);
    assert((a as i32) >> (b % 32) == (a as i32) >> (((b & 63) as u32) % 32)) by (bit_vector);
}

/// The type checker demands that a conditional jump of either class read
/// only initialized registers: the destination register, and the source
/// register when it is the operand. A jump whose registers are initialized
/// changes no type and has as successors the next instruction and then its
/// target.
pub proof fn lemma_branch_reads_registers(prog: Seq<Insn>, pc: usize, s: Seq<RegType>)
    requires
        pc < prog.len(),
        s.len() == NUM_REGS,
        class_of(opcode_of(prog[pc as int]@)) == class::JMP || class_of(opcode_of(prog[pc as int]@))
            == class::JMP32,
        code_of(opcode_of(prog[pc as int]@)) != op::JA,
        code_of(opcode_of(prog[pc as int]@)) != op::CALL,
        code_of(opcode_of(prog[pc as int]@)) != op::EXIT,
        dst_of(prog[pc as int]@) <= 10,
        src_of(prog[pc as int]@) <= 10,
    ensures
        ({
            let raw = prog[pc as int]@;
            let d = dst_of(raw);
            let r = src_of(raw);
            let by_reg = source_of(opcode_of(raw)) == src::REG;
            let t = pc + 1 + off_of(raw);
            &&& s[d as int] == RegType::Uninit ==> transfer(prog, pc, s) == Err::<
                (Seq<RegType>, Seq<usize>),
                EbpfError,
            >(EbpfError::UseBeforeInit { pc, reg: d })
            &&& s[d as int] != RegType::Uninit && by_reg && s[r as int] == RegType::Uninit ==> transfer(
                prog,
                pc,
                s,
            ) == Err::<(Seq<RegType>, Seq<usize>), EbpfError>(EbpfError::UseBeforeInit { pc, reg: r })
            &&& s[d as int] != RegType::Uninit && (!by_reg || s[r as int] != RegType::Uninit) && pc + 1
                < prog.len() && 0 <= t < prog.len() ==> transfer(prog, pc, s) == Ok::<
                (Seq<RegType>, Seq<usize>),
                EbpfError,
            >((s, seq![(pc + 1) as usize, t as usize]))
        }),
{
}

/// A program that starts with a conditional jump that compares the stack
/// pointer with a register other than it is refused by the type checker:
/// at the entry every other register is uninitialized.
pub proof fn lemma_entry_branch_on_unwritten_register(prog: Seq<Insn>)
    requires
        prog.len() > 0,
        class_of(opcode_of(prog[0]@)) == class::JMP || class_of(opcode_of(prog[0]@)) == class::JMP32,
        code_of(opcode_of(prog[0]@)) != op::JA,
        code_of(opcode_of(prog[0]@)) != op::CALL,
        code_of(opcode_of(prog[0]@)) != op::EXIT,
        source_of(opcode_of(prog[0]@)) == src::REG,
        dst_of(prog[0]@) == 10,
        src_of(prog[0]@) < 10,
    ensures
        !typable(prog),
{
    if typable(prog) {
        let types = choose|types: Seq<Option<Seq<RegType>>>| #[trigger] is_typing(prog, types);
        let t = types[0]->Some_0;
        assert(closed_at(prog, types, 0));
        let r = src_of(prog[0]@) as int;
        assert(t[r] == entry_types()[r] || t[r] == RegType::Uninit);
        assert(t[10] == entry_types()[10] || t[10] == RegType::Uninit);
        lemma_branch_reads_registers(prog, 0, t);
    }
}

/// Along a straight line of arithmetic that never writes register `r`, a
/// typing leaves `r` uninitialized, as it is at the entry.
proof fn lemma_prefix_keeps_unwritten(prog: Seq<Insn>, types: Seq<Option<Seq<RegType>>>, r: u8, p: int)
    requires
        is_typing(prog, types),
        r < 10,
        0 <= p < prog.len(),
        p <= usize::MAX,
        forall|q: int|
            0 <= q < p ==> {
                let raw = #[trigger] prog[q]@;
                &&& class_of(opcode_of(raw)) == class::ALU64 || class_of(opcode_of(raw)) == class::ALU
                &&& dst_of(raw) <= 10
                &&& dst_of(raw) != r
            },
    ensures
        types[p] is Some,
        types[p]->Some_0.len() == NUM_REGS,
        types[p]->Some_0[r as int] == RegType::Uninit,
    decreases p,
{
    if p == 0 {
        assert(types[0]->Some_0[r as int] == entry_types()[r as int] || types[0]->Some_0[r as int]
            == RegType::Uninit);
    } else {
        let q = p - 1;
        lemma_prefix_keeps_unwritten(prog, types, r, q);
        let raw = prog[q]@;
        assert(class_of(opcode_of(raw)) == class::ALU64 || class_of(opcode_of(raw)) == class::ALU);
        let t = types[q]->Some_0;
        assert(closed_at(prog, types, q));
        let res = transfer(prog, q as usize, t);
        assert(q as usize == q && (q + 1) as usize == p);
        assert(res is Ok);
        assert(res->Ok_0.1 == seq![p as usize]);
        let succ = res->Ok_0.1[0];
        assert(succ == p);
        let out = res->Ok_0.0;
        assert(out[r as int] == t[r as int]);
        assert(types[p]->Some_0[r as int] == out[r as int] || types[p]->Some_0[r as int]
            == RegType::Uninit);
    }
}

/// A conditional jump that compares with a register which no instruction
/// before it writes is refused: when the instructions before `k` are
/// arithmetic of either class, none of them writing the register `r`
/// (other than the stack pointer) that the conditional jump at `k` takes as
/// its operand, the program has no typing, so `TypeChecker::check` refuses
/// it.
pub proof fn lemma_unwritten_operand_refused(prog: Seq<Insn>, k: usize)
    requires
        k < prog.len(),
        class_of(opcode_of(prog[k as int]@)) == class::JMP || class_of(opcode_of(prog[k as int]@))
            == class::JMP32,
        code_of(opcode_of(prog[k as int]@)) != op::JA,
        code_of(opcode_of(prog[k as int]@)) != op::CALL,
        code_of(opcode_of(prog[k as int]@)) != op::EXIT,
        source_of(opcode_of(prog[k as int]@)) == src::REG,
        dst_of(prog[k as int]@) <= 10,
        src_of(prog[k as int]@) < 10,
        forall|q: int|
            0 <= q < k ==> {
                let raw = #[trigger] prog[q]@;
                &&& class_of(opcode_of(raw)) == class::ALU64 || class_of(opcode_of(raw)) == class::ALU
                &&& dst_of(raw) <= 10
                &&& dst_of(raw) != src_of(prog[k as int]@)
            },
    ensures
        !typable(prog),
{
    if typable(prog) {
        let types = choose|types: Seq<Option<Seq<RegType>>>| #[trigger] is_typing(prog, types);
        let r = src_of(prog[k as int]@);
        lemma_prefix_keeps_unwritten(prog, types, r, k as int);
        assert(closed_at(prog, types, k as int));
        lemma_branch_reads_registers(prog, k, types[k as int]->Some_0);
    }
}

/// Arithmetic other than a move demands an initialized destination and,
/// when the source register is the operand, an initialized source; it
/// refuses pointers; otherwise the destination becomes a number.
pub proof fn lemma_arith_reads_registers(prog: Seq<Insn>, pc: usize, s: Seq<RegType>)
    requires
        pc < prog.len(),
        s.len() == NUM_REGS,
        class_of(opcode_of(prog[pc as int]@)) == class::ALU64 || class_of(opcode_of(prog[pc as int]@))
            == class::ALU,
        code_of(opcode_of(prog[pc as int]@)) != op::MOV,
        code_of(opcode_of(prog[pc as int]@)) != op::RSH,
        dst_of(prog[pc as int]@) <= 10,
        src_of(prog[pc as int]@) <= 10,
    ensures
        ({
            let raw = prog[pc as int]@;
            let d = dst_of(raw);
            let r = src_of(raw);
            let by_reg = source_of(opcode_of(raw)) == src::REG;
            let is_ptr = |t: RegType| t == RegType::PtrToStack || t == RegType::PtrToMap;
            &&& s[d as int] == RegType::Uninit ==> transfer(prog, pc, s) == Err::<
                (Seq<RegType>, Seq<usize>),
                EbpfError,
            >(EbpfError::UseBeforeInit { pc, reg: d })
            &&& s[d as int] != RegType::Uninit && by_reg && s[r as int] == RegType::Uninit ==> transfer(
                prog,
                pc,
                s,
            ) == Err::<(Seq<RegType>, Seq<usize>), EbpfError>(EbpfError::UseBeforeInit { pc, reg: r })
            &&& s[d as int] != RegType::Uninit && (!by_reg || s[r as int] != RegType::Uninit) && (is_ptr(
                s[d as int],
            ) || (by_reg && is_ptr(s[r as int]))) ==> transfer(prog, pc, s) == Err::<
                (Seq<RegType>, Seq<usize>),
                EbpfError,
            >(EbpfError::InvalidPtrArithmetic { pc })
            &&& s[d as int] == RegType::Scalar && (!by_reg || s[r as int] == RegType::Scalar) && pc + 1
                < prog.len() ==> transfer(prog, pc, s) == Ok::<(Seq<RegType>, Seq<usize>), EbpfError>(
                (s.update(d as int, RegType::Scalar), seq![(pc + 1) as usize]),
            )
        }),
{
    let opc = opcode_of(prog[pc as int]@);
    assert(code_of(opc) == (opc >> 4u8) & 0x0f);
    assert(((opc >> 4u8) & 0x0f) != 7 ==> (opc & 0xf0) != 0x70) by (bit_vector);
    let raw = prog[pc as int]@;
    let d = dst_of(raw);
    let r = src_of(raw);
    assert(!is_mov_op(code_of(opc), opc));
    assert(source_of(opc) == src::REG || source_of(opc) == src::IMM) by {
        assert(((opc >> 3u8) & 0x01) == 0 || ((opc >> 3u8) & 0x01) == 1) by (bit_vector);
    }
    if s[d as int] == RegType::Scalar && (source_of(opc) != src::REG || s[r as int] == RegType::Scalar) && pc + 1 < prog.len() {
        assert(types_after(s, raw, pc) == Ok::<Seq<RegType>, EbpfError>(s.update(d as int, RegType::Scalar)));
        assert(successors_of(prog.len(), raw, pc) == Ok::<Seq<usize>, EbpfError>(seq![(pc + 1) as usize]));
    }
}

/// The instructions that write a register give it its type: a move of an
/// immediate makes the destination a number, a move of a register copies
/// the source's type and demands that it be initialized, a load makes the
/// destination a number, and a call makes r0 a number and r1 to r5
/// uninitialized; nothing else changes and the next instruction follows.
pub proof fn lemma_writes_set_types(prog: Seq<Insn>, pc: usize, s: Seq<RegType>)
    requires
        pc < prog.len(),
        pc + 1 < prog.len(),
        s.len() == NUM_REGS,
        dst_of(prog[pc as int]@) <= 10,
        src_of(prog[pc as int]@) <= 10,
    ensures
        ({
            let raw = prog[pc as int]@;
            let opc = opcode_of(raw);
            let cls = class_of(opc);
            let d = dst_of(raw);
            let r = src_of(raw);
            let next = seq![(pc + 1) as usize];
            let arith = cls == class::ALU64 || cls == class::ALU;
            &&& arith && code_of(opc) == op::MOV && source_of(opc) == src::IMM ==> transfer(prog, pc, s)
                == Ok::<(Seq<RegType>, Seq<usize>), EbpfError>((s.update(d as int, RegType::Scalar), next))
            &&& arith && code_of(opc) == op::MOV && source_of(opc) == src::REG && s[r as int]
                == RegType::Uninit ==> transfer(prog, pc, s) == Err::<(Seq<RegType>, Seq<usize>), EbpfError>(
                EbpfError::UseBeforeInit { pc, reg: r },
            )
            &&& arith && code_of(opc) == op::MOV && source_of(opc) == src::REG && s[r as int]
                != RegType::Uninit ==> transfer(prog, pc, s) == Ok::<(Seq<RegType>, Seq<usize>), EbpfError>(
                (s.update(d as int, s[r as int]), next),
            )
            &&& cls == class::LDX && (s[r as int] == RegType::PtrToStack || s[r as int] == RegType::PtrToMap)
                ==> transfer(prog, pc, s) == Ok::<(Seq<RegType>, Seq<usize>), EbpfError>(
                (s.update(d as int, RegType::Scalar), next),
            )
            &&& (cls == class::JMP || cls == class::JMP32) && code_of(opc) == op::CALL ==> {
                &&& transfer(prog, pc, s) is Ok
                &&& transfer(prog, pc, s)->Ok_0.1 == next
                &&& transfer(prog, pc, s)->Ok_0.0.len() == NUM_REGS
                &&& forall|i: int|
                    0 <= i < NUM_REGS ==> #[trigger] transfer(prog, pc, s)->Ok_0.0[i] == if i == 0 {
                        RegType::Scalar
                    } else if 1 <= i <= 5 {
                        RegType::Uninit
                    } else {
                        s[i]
                    }
            }
        }),
{
    let raw = prog[pc as int]@;
    let opc = opcode_of(raw);
    assert(code_of(opc) == (opc >> 4u8) & 0x0f);
    assert(source_of(opc) == src::REG || source_of(opc) == src::IMM) by {
        assert(((opc >> 3u8) & 0x01) == 0 || ((opc >> 3u8) & 0x01) == 1) by (bit_vector);
    }
}

/// An unconditional jump keeps every type and has its target as its one
/// successor, which must lie in the program; a wide load makes its
/// destination a number and is followed by the instruction after its second
/// half, which must exist; any other instruction of the load class is
/// refused.
pub proof fn lemma_jumps_and_wide_loads(prog: Seq<Insn>, pc: usize, s: Seq<RegType>)
    requires
        pc < prog.len() <= usize::MAX,
        s.len() == NUM_REGS,
        dst_of(prog[pc as int]@) <= 10,
    ensures
        ({
            let raw = prog[pc as int]@;
            let opc = opcode_of(raw);
            let cls = class_of(opc);
            let t = pc + 1 + off_of(raw);
            let ja = (cls == class::JMP || cls == class::JMP32) && code_of(opc) == op::JA;
            &&& ja && 0 <= t < prog.len() ==> transfer(prog, pc, s) == Ok::<(Seq<RegType>, Seq<usize>), EbpfError>(
                (s, seq![t as usize]),
            )
            &&& ja && prog.len() <= t <= usize::MAX ==> transfer(prog, pc, s) == Err::<(Seq<RegType>, Seq<usize>), EbpfError>(
                EbpfError::InvalidJumpTarget { pc, target: t as usize },
            )
            &&& cls == class::LD && is_wide_raw(raw) && pc + 2 < prog.len() ==> transfer(prog, pc, s) == Ok::<
                (Seq<RegType>, Seq<usize>),
                EbpfError,
            >((s.update(dst_of(raw) as int, RegType::Scalar), seq![(pc + 2) as usize]))
            &&& cls == class::LD && is_wide_raw(raw) && prog.len() <= pc + 2 <= usize::MAX ==> transfer(prog, pc, s) == Err::<
                (Seq<RegType>, Seq<usize>),
                EbpfError,
            >(EbpfError::InvalidJumpTarget { pc, target: (pc + 2) as usize })
            &&& cls == class::LD && !is_wide_raw(raw) && opc != 0x18 ==> transfer(prog, pc, s) == Err::<
                (Seq<RegType>, Seq<usize>),
                EbpfError,
            >(EbpfError::InvalidInstruction { pc })
        }),
{
}

/// `exit` demands an initialized r0.
pub proof fn lemma_exit_reads_r0(prog: Seq<Insn>, pc: usize, s: Seq<RegType>)
    requires
        pc < prog.len(),
        s.len() == NUM_REGS,
        class_of(opcode_of(prog[pc as int]@)) == class::JMP,
        code_of(opcode_of(prog[pc as int]@)) == op::EXIT,
    ensures
        s[0] == RegType::Uninit ==> transfer(prog, pc, s) == Err::<(Seq<RegType>, Seq<usize>), EbpfError>(
            EbpfError::UseBeforeInit { pc, reg: 0 },
        ),
        s[0] != RegType::Uninit ==> transfer(prog, pc, s) == Ok::<(Seq<RegType>, Seq<usize>), EbpfError>(
            (s, Seq::empty()),
        ),
{
}

/// A load needs an initialized pointer as its base: an uninitialized base is
/// a read before a write and a number is no address. A store needs the same
/// of its destination, and a register store an initialized source.
pub proof fn lemma_memory_needs_pointer(prog: Seq<Insn>, pc: usize, s: Seq<RegType>)
    requires
        pc < prog.len(),
        s.len() == NUM_REGS,
        dst_of(prog[pc as int]@) <= 10,
        src_of(prog[pc as int]@) <= 10,
    ensures
        ({
            let raw = prog[pc as int]@;
            let cls = class_of(opcode_of(raw));
            let d = dst_of(raw);
            let r = src_of(raw);
            &&& cls == class::LDX && s[r as int] == RegType::Uninit ==> transfer(prog, pc, s) == Err::<
                (Seq<RegType>, Seq<usize>),
                EbpfError,
            >(EbpfError::UseBeforeInit { pc, reg: r })
            &&& cls == class::LDX && s[r as int] == RegType::Scalar ==> transfer(prog, pc, s) == Err::<
                (Seq<RegType>, Seq<usize>),
                EbpfError,
            >(EbpfError::TypeMismatch { pc })
            &&& (cls == class::ST || cls == class::STX) && s[d as int] == RegType::Uninit ==> transfer(
                prog,
                pc,
                s,
            ) == Err::<(Seq<RegType>, Seq<usize>), EbpfError>(EbpfError::UseBeforeInit { pc, reg: d })
            &&& (cls == class::ST || cls == class::STX) && s[d as int] == RegType::Scalar ==> transfer(
                prog,
                pc,
                s,
            ) == Err::<(Seq<RegType>, Seq<usize>), EbpfError>(EbpfError::TypeMismatch { pc })
            &&& cls == class::STX && (s[d as int] == RegType::PtrToStack || s[d as int] == RegType::PtrToMap)
                && s[r as int] == RegType::Uninit ==> transfer(prog, pc, s) == Err::<
                (Seq<RegType>, Seq<usize>),
                EbpfError,
            >(EbpfError::UseBeforeInit { pc, reg: r })
        }),
{
}

/// The fields of an instruction decoded from its eight little-endian bytes
/// `b`: the opcode is `b[0]`, the destination register the low and the
/// source register the high four bits of `b[1]`, the offset the signed
/// 16-bit number in `b[2..4]` and the immediate the signed 32-bit number in
/// `b[4..8]`, each least significant byte first.
pub proof fn lemma_instruction_fields(b: Seq<u8>)
    requires
        b.len() == 8,
    ensures
        ({
            let raw = le_value(b) as u64;
            &&& opcode_of(raw) == b[0]
            &&& dst_of(raw) == b[1] % 16
            &&& src_of(raw) == b[1] / 16
            &&& off_of(raw) == (b[2] + 256 * b[3] as int) as u16 as i16
            &&& imm_of(raw) == (b[4] + 256 * (b[5] + 256 * (b[6] + 256 * b[7] as int))) as u32 as i32
        }),
{
    lemma_le_value_bytes(b);
    let (b0, b1, b2, b3, b4, b5, b6, b7) = (b[0], b[1], b[2], b[3], b[4], b[5], b[6], b[7]);
    let lo: u16 = (b2 + 256 * b3 as int) as u16;
    let hi: u32 = (b4 + 256 * (b5 + 256 * (b6 + 256 * b7 as int))) as u32;
    let raw: u64 = le_value(b) as u64;
    assert(raw == b0 as u64 + 256 * b1 as u64 + 0x1_0000 * lo as u64 + 0x1_0000_0000 * hi as u64) by (nonlinear_arith)
        requires
            le_value(b) == b0 + 256 * (b1 + 256 * (b2 + 256 * (b3 + 256 * (b4 + 256 * (b5 + 256 * (b6
                + 256 * b7 as int)))))),
            lo == b2 + 256 * b3 as int,
            hi == b4 + 256 * (b5 + 256 * (b6 + 256 * b7 as int)),
            raw == le_value(b) as u64,
            le_value(b) < 0x1_0000_0000_0000_0000,
    {
    }
    assert(((raw & 0xff) as u8) == b0 && (((raw >> 8) & 0x0f) as u8) == b1 % 16 && (((raw >> 12) & 0x0f)
        as u8) == b1 / 16 && ((raw >> 16) & 0xffff) as u16 == lo && ((raw >> 32) & 0xffff_ffff) as u32 == hi)
        by (bit_vector)
        requires
            raw == b0 as u64 + 256 * b1 as u64 + 0x1_0000 * lo as u64 + 0x1_0000_0000 * hi as u64,
    ;
}

/// A load of the register-relative address `a = src + off` reads 1, 2, 4
/// or 8 bytes of the stack (codes 0 to 3), the first byte the least
/// significant, into the destination register; an address whose bytes do
/// not all lie in the stack (and that a `usize` can hold) faults with that
/// address.
pub proof fn lemma_load_reads_little_endian(env: VmEnv, s: VmState)
    requires
        s.pc < env.prog.len(),
        s.regs.len() == NUM_REGS,
        s.stack.len() == STACK_SIZE,
        !is_wide_raw(env.prog[s.pc as int]@),
        class_of(opcode_of(env.prog[s.pc as int]@)) == class::LDX,
        code_of(opcode_of(env.prog[s.pc as int]@)) <= 3,
        dst_of(env.prog[s.pc as int]@) < 10,
        src_of(env.prog[s.pc as int]@) <= 10,
        i64::MIN <= s.regs[src_of(env.prog[s.pc as int]@) as int] as i64 + off_of(env.prog[s.pc as int]@)
            <= i64::MAX,
    ensures
        ({
            let raw = env.prog[s.pc as int]@;
            let code = code_of(opcode_of(raw));
            let n: int = if code == 3 { 8 } else if code == 2 { 4 } else if code == 1 { 2 } else { 1 };
            let a: int = s.regs[src_of(raw) as int] as i64 + off_of(raw);
            let m = s.stack;
            let f = (s.pc + 1) as usize;
            let d = dst_of(raw) as int;
            &&& (a < 0 || (a + n > STACK_SIZE && a <= usize::MAX)) ==> step(env, s) == Outcome::Fault(
                EbpfError::MemoryFault { pc: s.pc, addr: a as i64 as u64 },
            )
            &&& (0 <= a && a + n <= STACK_SIZE && code == 0) ==> step(env, s) == Outcome::Next(
                VmState { regs: s.regs.update(d, m[a] as u64), pc: f, ..s },
            )
            &&& (0 <= a && a + n <= STACK_SIZE && code == 1) ==> step(env, s) == Outcome::Next(
                VmState { regs: s.regs.update(d, (m[a] + 256 * m[a + 1]) as u64), pc: f, ..s },
            )
            &&& (0 <= a && a + n <= STACK_SIZE && code == 2) ==> step(env, s) == Outcome::Next(
                VmState {
                    regs: s.regs.update(d, (m[a] + 256 * (m[a + 1] + 256 * (m[a + 2] + 256 * m[a + 3] as int))) as u64),
                    pc: f,
                    ..s
                },
            )
            &&& (0 <= a && a + n <= STACK_SIZE && code == 3) ==> step(env, s) == Outcome::Next(
                VmState {
                    regs: s.regs.update(
                        d,
                        (m[a] + 256 * (m[a + 1] + 256 * (m[a + 2] + 256 * (m[a + 3] + 256 * (m[a + 4] + 256 * (m[a
                            + 5] + 256 * (m[a + 6] + 256 * m[a + 7] as int))))))) as u64,
                    ),
                    pc: f,
                    ..s
                },
            )
        }),
{
    let raw = env.prog[s.pc as int]@;
    let base = s.regs[src_of(raw) as int];
    let off = off_of(raw);
    assert(mem_addr(base, off) == base as i64 + off);
    let code = code_of(opcode_of(raw));
    let n: int = if code == 3 { 8 } else if code == 2 { 4 } else if code == 1 { 2 } else { 1 };
    let a: int = base as i64 + off;
    if 0 <= a && a + n <= STACK_SIZE {
        let x = s.stack.subrange(a, a + n);
        lemma_le_value_bytes(x);
    }
}

/// A run starts with every register 0 but the frame pointer r10, which
/// holds the stack size 512, with 512 zero bytes of stack, at pc 0 and with
/// no call pending. It returns r0 at an `exit` with no call pending, stops
/// with the error of a faulting instruction, goes on from the state an
/// instruction leads to, and stops with `InvalidPc { pc: usize::MAX, bound:
/// len }` once its budget of 1,000,000 instructions is spent.
pub proof fn lemma_run_shape(env: VmEnv, s: VmState, fuel: nat, replies: Seq<Reply>)
    ensures
        initial_state().regs.len() == 11,
        forall|i: int| 0 <= i < 11 ==> #[trigger] initial_state().regs[i] == if i == 10 { 512u64 } else { 0u64 },
        initial_state().stack.len() == 512,
        forall|i: int| 0 <= i < 512 ==> #[trigger] initial_state().stack[i] == 0u8,
        initial_state().pc == 0,
        initial_state().calls.len() == 0,
        EXEC_LIMIT == 1_000_000,
        run_from(env, s, 0, replies) == Some(
            (Err::<u64, EbpfError>(EbpfError::InvalidPc { pc: usize::MAX, bound: env.prog.len() as usize }), s),
        ),
        step(env, s) is Exit ==> run_from(env, s, fuel + 1, replies) == Some((Ok::<u64, EbpfError>(s.regs[0]), s)),
        step(env, s) matches Outcome::Fault(e) ==> run_from(env, s, fuel + 1, replies) == Some(
            (Err::<u64, EbpfError>(e), s),
        ),
        step(env, s) matches Outcome::Next(t) ==> run_from(env, s, fuel + 1, replies) == run_from(
            env,
            t,
            fuel,
            replies,
        ),
{
}

/// A `call` with immediate `id` goes, in this order: with maps registered,
/// ids 1, 2 and 3 ask the map whose handle is in r1 to look up the key in
/// r2, to store r3 under the key in r2, or to delete the key in r2 (a handle
/// past the last map faults); a registered helper gets r1 to r5; an id that
/// is no instruction of the program fails as an unknown helper while fewer
/// than eight calls are pending; with eight pending the call stack is
/// exhausted; otherwise the program calls its own instruction `id` (a
/// non-negative immediate), pushing the return address `pc + 1`. Every outside call resumes at `pc + 1`.
pub proof fn lemma_call_dispatch(env: VmEnv, s: VmState)
    requires
        s.pc < env.prog.len(),
        s.regs.len() == NUM_REGS,
        !is_wide_raw(env.prog[s.pc as int]@),
        class_of(opcode_of(env.prog[s.pc as int]@)) == class::JMP,
        code_of(opcode_of(env.prog[s.pc as int]@)) == op::CALL,
    ensures
        ({
            let raw = env.prog[s.pc as int]@;
            let id = imm_of(raw) as u32;
            let resume = VmState { pc: (s.pc + 1) as usize, ..s };
            let maps = s.maps.len() > 0;
            let map_op = maps && (id == 1 || id == 2 || id == 3);
            let bad_handle = s.regs[1] as usize >= s.maps.len();
            &&& map_op && bad_handle ==> step(env, s) == Outcome::Fault(
                EbpfError::InvalidMapHandle { pc: s.pc },
            )
            &&& maps && id == 1 && !bad_handle ==> step(env, s) == Outcome::MapLookup {
                handle: s.regs[1],
                key: s.regs[2],
                resume,
            }
            &&& maps && id == 2 && !bad_handle ==> step(env, s) == Outcome::MapUpdate {
                handle: s.regs[1],
                key: s.regs[2],
                val: s.regs[3],
                resume,
            }
            &&& maps && id == 3 && !bad_handle ==> step(env, s) == Outcome::MapDelete {
                handle: s.regs[1],
                key: s.regs[2],
                resume,
            }
            &&& !map_op && env.helpers@.contains(id) ==> (step(env, s) matches Outcome::Helper {
                args,
                resume: r,
                ..
            } && args == (s.regs[1], s.regs[2], s.regs[3], s.regs[4], s.regs[5]) && r == resume)
            &&& !map_op && !env.helpers@.contains(id) && id >= env.prog.len() && s.calls.len() < 8
                ==> step(env, s) == Outcome::Fault(EbpfError::HelperNotFound { id })
            &&& !map_op && !env.helpers@.contains(id) && s.calls.len() >= 8 ==> step(env, s)
                == Outcome::Fault(EbpfError::CallStackExhausted)
            &&& !map_op && !env.helpers@.contains(id) && id < env.prog.len() && id < 0x8000_0000
                && s.calls.len() < 8 ==> step(env, s) == Outcome::Next(
                VmState { calls: s.calls.push((s.pc + 1) as usize), pc: id as usize, ..s },
            )
        }),
{
    let raw = env.prog[s.pc as int]@;
    let imm = imm_of(raw);
    assert((imm as u32) < 0x8000_0000u32 ==> imm as usize == (imm as u32) as usize) by (bit_vector);
}

/// A wide load puts into its destination the 64-bit number whose upper
/// half is the second half's immediate and whose lower half is its own
/// immediate, and moves past both halves; it faults when the second half is
/// missing or the destination is the frame pointer.
pub proof fn lemma_wide_load_value(env: VmEnv, s: VmState)
    requires
        s.pc < env.prog.len(),
        s.regs.len() == NUM_REGS,
        is_wide_raw(env.prog[s.pc as int]@),
        dst_of(env.prog[s.pc as int]@) <= 10,
    ensures
        ({
            let lo = env.prog[s.pc as int]@;
            let d = dst_of(lo);
            &&& s.pc + 1 >= env.prog.len() ==> step(env, s) == Outcome::Fault(
                EbpfError::InvalidPc { pc: s.pc, bound: env.prog.len() as usize },
            )
            &&& s.pc + 1 < env.prog.len() && d == 10 ==> step(env, s) == Outcome::Fault(
                EbpfError::MemoryFault { pc: s.pc, addr: 0 },
            )
            &&& s.pc + 1 < env.prog.len() && d < 10 ==> step(env, s) == Outcome::Next(
                VmState {
                    regs: s.regs.update(
                        d as int,
                        (imm_of(env.prog[s.pc + 1]@) as u32 * 0x1_0000_0000 + imm_of(lo) as u32) as u64,
                    ),
                    pc: (s.pc + 2) as usize,
                    ..s
                },
            )
        }),
{
    if s.pc + 1 < env.prog.len() {
        let a = imm_of(env.prog[s.pc + 1]@) as u32;
        let b = imm_of(env.prog[s.pc as int]@) as u32;
        assert(((a as u64) << 32u64) | (b as u64) == (a * 0x1_0000_0000 + b) as u64) by (bit_vector);
    }
}

/// Byte `i` of the `n` low bytes of `v`, least significant first, is
/// `v / 256^i` modulo 256.
proof fn lemma_le_bytes_at(v: nat, n: nat, i: nat)
    requires
        i < n,
    ensures
        le_bytes(v, n).len() == n,
        le_bytes(v, n)[i as int] == ((v / pow256(i)) % 256) as u8,
    decreases n,
{
    lemma_le_bytes_len(v, n);
    let m = (n - 1) as nat;
    lemma_le_bytes_push(v, m);
    lemma_le_bytes_len(v, m);
    if i < m {
        lemma_le_bytes_at(v, m, i);
    }
}

/// A store of `v` (the sign-extended immediate for `ST`, the source
/// register for `STX`) at the address `a = dst + off` writes the 1, 2, 4 or
/// 8 low bytes of `v` (codes 0 to 3), least significant first, at `a`, and
/// changes no other byte, no register and nothing else but the pc, which
/// moves on by one; an address whose bytes do not all lie in the stack (and
/// that a `usize` can hold) faults with that address.
pub proof fn lemma_store_writes_little_endian(env: VmEnv, s: VmState)
    requires
        s.pc < env.prog.len(),
        s.regs.len() == NUM_REGS,
        s.stack.len() == STACK_SIZE,
        !is_wide_raw(env.prog[s.pc as int]@),
        class_of(opcode_of(env.prog[s.pc as int]@)) == class::ST || class_of(opcode_of(env.prog[s.pc as int]@))
            == class::STX,
        code_of(opcode_of(env.prog[s.pc as int]@)) <= 3,
        dst_of(env.prog[s.pc as int]@) <= 10,
        src_of(env.prog[s.pc as int]@) <= 10,
        i64::MIN <= s.regs[dst_of(env.prog[s.pc as int]@) as int] as i64 + off_of(env.prog[s.pc as int]@)
            <= i64::MAX,
    ensures
        ({
            let raw = env.prog[s.pc as int]@;
            let code = code_of(opcode_of(raw));
            let n: int = if code == 3 { 8 } else if code == 2 { 4 } else if code == 1 { 2 } else { 1 };
            let a: int = s.regs[dst_of(raw) as int] as i64 + off_of(raw);
            let v: u64 = if class_of(opcode_of(raw)) == class::ST {
                imm_of(raw) as u64
            } else {
                s.regs[src_of(raw) as int]
            };
            &&& (a < 0 || (a + n > STACK_SIZE && a <= usize::MAX)) ==> step(env, s) == Outcome::Fault(
                EbpfError::MemoryFault { pc: s.pc, addr: a as i64 as u64 },
            )
            &&& (0 <= a && a + n <= STACK_SIZE) ==> {
                &&& step(env, s) is Next
                &&& step(env, s) == Outcome::Next(
                    VmState { stack: step(env, s)->Next_0.stack, pc: (s.pc + 1) as usize, ..s },
                )
                &&& step(env, s)->Next_0.stack.len() == STACK_SIZE
                &&& forall|j: int|
                    0 <= j < STACK_SIZE ==> #[trigger] step(env, s)->Next_0.stack[j] == if a <= j < a + n {
                        ((v as nat / pow256((j - a) as nat)) % 256) as u8
                    } else {
                        s.stack[j]
                    }
            }
        }),
{
    let raw = env.prog[s.pc as int]@;
    let base = s.regs[dst_of(raw) as int];
    let off = off_of(raw);
    assert(mem_addr(base, off) == base as i64 + off);
    let code = code_of(opcode_of(raw));
    let n: int = if code == 3 { 8 } else if code == 2 { 4 } else if code == 1 { 2 } else { 1 };
    let a: int = base as i64 + off;
    let v: u64 = if class_of(opcode_of(raw)) == class::ST {
        imm_of(raw) as u64
    } else {
        s.regs[src_of(raw) as int]
    };
    if 0 <= a && a + n <= STACK_SIZE {
        let bytes = le_bytes(v as nat, n as nat);
        lemma_le_bytes_len(v as nat, n as nat);
        let t = step(env, s)->Next_0.stack;
        assert(t == write_bytes(s.stack, a, bytes));
        assert forall|j: int| 0 <= j < STACK_SIZE implies #[trigger] t[j] == if a <= j < a + n {
            ((v as nat / pow256((j - a) as nat)) % 256) as u8
        } else {
            s.stack[j]
        } by {
            if a <= j < a + n {
                lemma_le_bytes_at(v as nat, n as nat, (j - a) as nat);
            }
        }
    }
}

} // verus!
