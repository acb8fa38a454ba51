//! The interpreter: runs a program instruction by instruction, dispatching
//! helper calls and map operations, within an instruction budget.
use vstd::prelude::*;
use vstd::wrapping::usize_specs;

use crate::error::EbpfError;
use crate::helpers::{
    HelperTable, HELPER_MAP_DELETE_ELEM, HELPER_MAP_LOOKUP_ELEM, HELPER_MAP_UPDATE_ELEM, MAX_HELPERS,
};
use crate::insn::{dst_of, imm_of, is_wide_raw, off_of, opcode_of, src_of, wide_bits, Insn};
use crate::le::{le_bytes, le_value, load_le, lemma_le_bytes_len, lemma_le_bytes_push, pow256,
    lemma_pow256_monotonic, lemma_pow256_values};
use crate::map::{BpfMap, MapRegistry};
use crate::opcode::{class, class_of, code_of, op, source_of, src};
use crate::semantics::{
    initial_state, jump_target, mem_size, operand, pc_offset, resume_with, run_from, set_pc, set_reg,
    stack_window, step, step_alu, step_call, step_jmp, step_jmp32, step_ldx, step_store, step_wide,
    write_bytes, Outcome, Reply, VmEnv, VmState, CALL_STACK_LIMIT, EXEC_LIMIT, NUM_REGS, STACK_SIZE,
};

verus! {

const MAP_OP_SUCCESS: u64 = 0;
const MAP_OP_FAILURE: u64 = 1;

/// Whether the run goes on after an instruction.
enum Flow {
    Continue,
    Exit,
}

/// The machine state after an instruction agrees with its outcome: `r` says
/// whether the run goes on or stops, and `after` is the state it goes on in.
spec fn follows(o: Outcome, r: Result<Flow, EbpfError>, before: VmState, after: VmState) -> bool {
    match o {
        Outcome::Next(t) => r matches Ok(Flow::Continue) && after == t,
        Outcome::Exit => r matches Ok(Flow::Exit) && after == before,
        Outcome::Fault(e) => r == Err::<Flow, EbpfError>(e) && after == before,
        _ => r matches Ok(Flow::Continue) && exists|rep: Reply| resume_with(o, rep) == Some(after),
    }
}

pub struct EbpfVm<'a> {
    prog: &'a [Insn],
    regs: [u64; 11],
    stack: [u8; STACK_SIZE],
    pc: usize,
    calls: Vec<usize>,
    helper_table: HelperTable,
    map_registry: MapRegistry,
}

impl<'a> EbpfVm<'a> {
    /// The machine: registers, stack, pc, pending returns and maps.
    pub closed spec fn state(&self) -> VmState {
        VmState {
            regs: self.regs@,
            stack: self.stack@,
            pc: self.pc,
            calls: self.calls@,
            maps: self.map_registry.maps(),
        }
    }

    /// The program and the helpers.
    pub closed spec fn env(&self) -> VmEnv {
        VmEnv { prog: self.prog@, helpers: self.helper_table }
    }

    /// Eleven registers and a stack of `STACK_SIZE` bytes.
    pub proof fn lemma_state_shape(&self)
        ensures
            self.state().regs.len() == NUM_REGS,
            self.state().stack.len() == STACK_SIZE,
    {
    }

    /// A machine for `prog` in its initial state, with no helper and no map;
    /// an empty program is refused.
    pub fn new(prog: &'a [Insn]) -> (r: Result<Self, EbpfError>)
        ensures
            prog@.len() == 0 ==> r == Err::<Self, EbpfError>(EbpfError::ProgramEmpty),
            prog@.len() > 0 ==> (r matches Ok(vm) && vm.state() == initial_state() && vm.env().prog
                == prog@ && vm.env().helpers@ == Set::<u32>::empty()),
    {
        if prog.len() == 0 {
            return Err(EbpfError::ProgramEmpty);
        }
        let mut regs = [0u64; 11];
        regs[10] = STACK_SIZE as u64;
        let vm = Self {
            prog,
            regs,
            stack: [0u8; STACK_SIZE],
            pc: 0,
            calls: Vec::with_capacity(CALL_STACK_LIMIT),
            helper_table: HelperTable::new(),
            map_registry: MapRegistry::new(),
        };
        assert(vm.state().regs =~= initial_state().regs);
        assert(vm.state().stack =~= initial_state().stack);
        assert(vm.state().calls =~= initial_state().calls);
        assert(vm.state().maps =~= initial_state().maps);
        Ok(vm)
    }

    /// Makes `f` the helper that `call` reaches with `id`; `f` must accept
    /// any arguments, as a plain function does.
    pub fn register_helper<F: Fn(u64, u64, u64, u64, u64) -> u64 + 'static>(&mut self, id: u32, f: F)
        requires
            forall|a: (u64, u64, u64, u64, u64)| call_requires(f, a),
        ensures
            final(self).state() == old(self).state(),
            final(self).env().prog == old(self).env().prog,
            final(self).env().helpers@ == (if (id as int) < MAX_HELPERS {
                old(self).env().helpers@.insert(id)
            } else {
                old(self).env().helpers@
            }),
            (id as int) < MAX_HELPERS ==> forall|args: (u64, u64, u64, u64, u64), v: u64|
                #[trigger] final(self).env().helpers.helper(id).spec_invoke(args, v) == call_ensures(
                    f,
                    args,
                    v,
                ),
            forall|k: u32|
                k != id && old(self).env().helpers@.contains(k) ==> #[trigger] final(self).env().helpers.helper(k)
                    == old(self).env().helpers.helper(k),
    {
        self.helper_table.register(id, f);
    }

    /// Adds `map` to the map registry and returns its handle, the number of
    /// maps added before it.
    pub fn register_map(&mut self, map: Box<dyn BpfMap>) -> (r: u64)
        ensures
            final(self).state() == (VmState { maps: final(self).state().maps, ..old(self).state() }),
            final(self).state().maps == old(self).state().maps.push(map),
            final(self).state().maps.len() == old(self).state().maps.len() + 1,
            forall|i: int|
                0 <= i < old(self).state().maps.len() ==> #[trigger] final(self).state().maps[i] == old(
                    self,
                ).state().maps[i],
            r as nat == old(self).state().maps.len(),
            final(self).env() == old(self).env(),
    {
        proof {
            self.map_registry.lemma_maps_stored();
        }
        let ghost before = self.map_registry.maps@;
        let n = self.map_registry.maps.len();
        self.map_registry.maps.push(map);
        proof {
            self.map_registry.lemma_maps_stored();
            vstd::seq::axiom_seq_push_len(before, map);
            assert forall|i: int| 0 <= i < before.len() implies #[trigger] self.map_registry.maps@[i] == before[i] by {
                vstd::seq::axiom_seq_push_index_different(before, map, i);
            }
        }
        n as u64
    }

    /// Sets register `reg`; only r0..r9 can be set.
    pub fn set_reg(&mut self, reg: u8, val: u64) -> (r: Result<(), EbpfError>)
        ensures
            final(self).env() == old(self).env(),
            reg > 9 ==> r == Err::<(), EbpfError>(EbpfError::UnknownOpcode { pc: 0, opcode: reg })
                && final(self).state() == old(self).state(),
            reg <= 9 ==> r is Ok && final(self).state() == set_reg(old(self).state(), reg, val),
    {
        if reg > 9 {
            return Err(EbpfError::UnknownOpcode { pc: 0, opcode: reg });
        }
        self.regs[reg as usize] = val;
        Ok(())
    }

    /// The value of register `r`, one of r0..r10.
    pub fn reg(&self, r: u8) -> (v: u64)
        requires
            r <= 10,
        ensures
            v == self.state().regs[r as int],
    {
        self.regs[r as usize]
    }

    /// Runs the program from the current state until it exits, faults, or
    /// has executed the instruction budget. The result and the final state are
    /// those of `run_from` for some sequence of replies of the helpers and
    /// maps called; a program that calls none has exactly one.
    pub fn run(&mut self) -> (r: Result<u64, EbpfError>)
        ensures
            final(self).env() == old(self).env(),
            exists|replies: Seq<Reply>|
                run_from(old(self).env(), old(self).state(), EXEC_LIMIT as nat, replies) == Some(
                    (r, final(self).state()),
                ),
    {
        let ghost env = self.env();
        let ghost s0 = self.state();
        let ghost mut seen: Seq<Reply> = Seq::empty();
        let mut steps: usize = 0;
        proof {
            assert forall|fut: Seq<Reply>|
                #[trigger] run_from(env, s0, EXEC_LIMIT as nat, seen + fut) == run_from(
                    env,
                    self.state(),
                    (EXEC_LIMIT - steps) as nat,
                    fut,
                ) by {
                assert(seen + fut =~= fut);
            }
        }
        loop
            invariant
                self.env() == env,
                env == old(self).env(),
                s0 == old(self).state(),
                steps <= EXEC_LIMIT,
                self.regs@.len() == NUM_REGS,
                forall|fut: Seq<Reply>|
                    #[trigger] run_from(env, s0, EXEC_LIMIT as nat, seen + fut) == run_from(
                        env,
                        self.state(),
                        (EXEC_LIMIT - steps) as nat,
                        fut,
                    ),
            decreases EXEC_LIMIT - steps,
        {
            let ghost cur = self.state();
            let ghost fuel = (EXEC_LIMIT - steps) as nat;
            proof {
                assert(seen + Seq::<Reply>::empty() =~= seen);
                assert(run_from(env, s0, EXEC_LIMIT as nat, seen + Seq::<Reply>::empty())
                    == run_from(env, cur, fuel, Seq::<Reply>::empty()));
                assert(run_from(env, s0, EXEC_LIMIT as nat, seen) == run_from(
                    env,
                    cur,
                    fuel,
                    Seq::<Reply>::empty(),
                ));
            }
            if steps >= EXEC_LIMIT {
                return Err(EbpfError::InvalidPc { pc: usize::MAX, bound: self.prog.len() });
            }
            if self.pc >= self.prog.len() {
                return Err(EbpfError::InvalidPc { pc: self.pc, bound: self.prog.len() });
            }
            assert(self.prog@.len() <= usize::MAX);
            let insn = self.prog[self.pc];
            let result = if insn.is_wide() {
                self.handle_wide(&insn)
            } else {
                let opcode = insn.opcode();
                let cls = opcode.class();
                if cls == class::ALU64 {
                    self.handle_alu(&insn, false)
                } else if cls == class::ALU {
                    self.handle_alu(&insn, true)
                } else if cls == class::JMP {
                    self.handle_jmp(&insn)
                } else if cls == class::JMP32 {
                    self.handle_jmp32(&insn)
                } else if cls == class::LDX {
                    self.handle_ldx(&insn)
                } else if cls == class::ST {
                    self.handle_st(&insn)
                } else if cls == class::STX {
                    self.handle_stx(&insn)
                } else {
                    Err(EbpfError::UnknownOpcode { pc: self.pc, opcode: opcode.raw() })
                }
            };
            let ghost o = step(env, cur);
            assert(follows(o, result, cur, self.state()));
            match result {
                Ok(Flow::Continue) => {},
                Ok(Flow::Exit) => {
                    return Ok(self.regs[0]);
                },
                Err(e) => {
                    return Err(e);
                },
            }
            proof {
                if o is Next {
                    assert forall|fut: Seq<Reply>|
                        #[trigger] run_from(env, s0, EXEC_LIMIT as nat, seen + fut) == run_from(
                            env,
                            self.state(),
                            (fuel - 1) as nat,
                            fut,
                        ) by {
                        assert(run_from(env, cur, fuel, fut) == run_from(
                            env,
                            self.state(),
                            (fuel - 1) as nat,
                            fut,
                        ));
                    }
                } else {
                    let rep = choose|rep: Reply| resume_with(o, rep) == Some(self.state());
                    let old_seen = seen;
                    seen = seen.push(rep);
                    assert forall|fut: Seq<Reply>|
                        #[trigger] run_from(env, s0, EXEC_LIMIT as nat, seen + fut) == run_from(
                            env,
                            self.state(),
                            (fuel - 1) as nat,
                            fut,
                        ) by {
                        let rest = seq![rep] + fut;
                        assert(seen + fut =~= old_seen + rest);
                        assert(rest.drop_first() =~= fut);
                        assert(run_from(env, s0, EXEC_LIMIT as nat, old_seen + rest) == run_from(
                            env,
                            cur,
                            fuel,
                            rest,
                        ));
                    }
                }
            }
            steps = steps + 1;
        }
    }

    fn handle_wide(&mut self, insn: &Insn) -> (r: Result<Flow, EbpfError>)
        requires
            old(self).pc < old(self).prog@.len() <= usize::MAX,
            old(self).prog@[old(self).pc as int] == *insn,
            is_wide_raw(insn@),
        ensures
            final(self).env() == old(self).env(),
            follows(step_wide(old(self).env(), old(self).state(), insn@), r, old(self).state(), final(self).state()),
    {
        let tail_pc = self.pc + 1;
        if tail_pc >= self.prog.len() {
            return Err(EbpfError::InvalidPc { pc: self.pc, bound: self.prog.len() });
        }
        let dst = insn.dst();
        if dst == 10 {
            return Err(EbpfError::MemoryFault { pc: self.pc, addr: 0 });
        }
        let value = Insn::wide_imm(insn, &self.prog[tail_pc]);
        proof {
            let b = wide_bits(insn@, self.prog@[tail_pc as int]@);
            assert((b as i64) as u64 == b) by (bit_vector);
        }
        self.regs[dst as usize] = value as u64;
        self.pc = self.pc + 2;
        assert(self.state() == set_pc(set_reg(old(self).state(), dst, wide_bits(insn@, old(self).prog@[tail_pc as int]@)), (old(self).pc + 2) as usize));
        Ok(Flow::Continue)
    }

    fn handle_alu(&mut self, insn: &Insn, is32: bool) -> (r: Result<Flow, EbpfError>)
        requires
            old(self).pc < old(self).prog@.len() <= usize::MAX,
        ensures
            final(self).env() == old(self).env(),
            follows(step_alu(old(self).state(), insn@, is32), r, old(self).state(), final(self).state()),
    {
        let opcode = insn.opcode();
        let raw = opcode.raw();
        let pc = self.pc;
        let dst_reg = insn.dst();
        if dst_reg == 10 {
            return Err(EbpfError::MemoryFault { pc, addr: 0 });
        }
        let code = opcode.code();
        if code > op::ARSH {
            return Err(EbpfError::UnknownOpcode { pc, opcode: raw });
        }
        let dst_val = self.regs[dst_reg as usize];
        let rhs = if opcode.source() == src::REG {
            self.regs[insn.src() as usize]
        } else {
            insn.imm() as i64 as u64
        };
        assert(rhs == operand(old(self).state(), insn@));
        let result: u64 = if is32 {
            let dst32 = dst_val as u32;
            let rhs32 = rhs as u32;
            if code == op::ADD {
                dst32.wrapping_add(rhs32) as u64
            } else if code == op::SUB {
                dst32.wrapping_sub(rhs32) as u64
            } else if code == op::MUL {
                dst32.wrapping_mul(rhs32) as u64
            } else if code == op::DIV {
                if rhs32 == 0 {
                    return Err(EbpfError::DivisionByZero { pc });
                }
                (dst32 / rhs32) as u64
            } else if code == op::MOD {
                if rhs32 == 0 {
                    return Err(EbpfError::DivisionByZero { pc });
                }
                (dst32 % rhs32) as u64
            } else if code == op::OR {
                (dst32 | rhs32) as u64
            } else if code == op::AND {
                (dst32 & rhs32) as u64
            } else if code == op::XOR {
                (dst32 ^ rhs32) as u64
            } else if code == op::MOV {
                rhs32 as u64
            } else if code == op::LSH {
                dst32.wrapping_shl((rhs32 & 63) as u32) as u64
            } else if code == op::RSH {
                dst32.wrapping_shr((rhs32 & 63) as u32) as u64
            } else if code == op::ARSH {
                ((dst32 as i32).wrapping_shr((rhs32 & 63) as u32) as u32) as u64
            } else {
                0u32.wrapping_sub(dst32) as u64
            }
        } else {
            if code == op::ADD {
                dst_val.wrapping_add(rhs)
            } else if code == op::SUB {
                dst_val.wrapping_sub(rhs)
            } else if code == op::MUL {
                dst_val.wrapping_mul(rhs)
            } else if code == op::DIV {
                if rhs == 0 {
                    return Err(EbpfError::DivisionByZero { pc });
                }
                dst_val / rhs
            } else if code == op::MOD {
                if rhs == 0 {
                    return Err(EbpfError::DivisionByZero { pc });
                }
                dst_val % rhs
            } else if code == op::OR {
                dst_val | rhs
            } else if code == op::AND {
                dst_val & rhs
            } else if code == op::XOR {
                dst_val ^ rhs
            } else if code == op::MOV {
                rhs
            } else if code == op::LSH {
                dst_val.wrapping_shl((rhs & 63) as u32)
            } else if code == op::RSH {
                dst_val.wrapping_shr((rhs & 63) as u32)
            } else if code == op::ARSH {
                (dst_val as i64).wrapping_shr((rhs & 63) as u32) as u64
            } else {
                0u64.wrapping_sub(dst_val)
            }
        };
        self.regs[dst_reg as usize] = result;
        self.pc = pc + 1;
        assert(self.state() == set_pc(set_reg(old(self).state(), dst_reg, result), (pc + 1) as usize));
        Ok(Flow::Continue)
    }

    /// `pc` moved by `off`, wrapping around.
    fn pc_with_off(pc: usize, off: i16) -> (r: usize)
        ensures
            r == pc_offset(pc, off),
    {
        let delta = off as i32;
        if delta >= 0 {
            pc.wrapping_add(delta as usize)
        } else {
            pc.wrapping_sub((-delta) as usize)
        }
    }

    fn handle_call(&mut self, insn: &Insn) -> (r: Result<Flow, EbpfError>)
        requires
            old(self).pc < old(self).prog@.len() <= usize::MAX,
        ensures
            final(self).env() == old(self).env(),
            follows(step_call(old(self).env(), old(self).state(), insn@), r, old(self).state(), final(self).state()),
    {
        proof {
            self.map_registry.lemma_count();
        }
        let pc = self.pc;
        let helper_id = insn.imm() as u32;
        if helper_id == HELPER_MAP_LOOKUP_ELEM && self.map_registry.len() > 0 {
            let handle = self.regs[1];
            let key = self.regs[2];
            if handle as usize >= self.map_registry.len() {
                return Err(EbpfError::InvalidMapHandle { pc });
            }
            proof {
                self.map_registry.lemma_count();
            }
            let found = self.map_registry.lookup(handle, key);
            self.regs[0] = found.unwrap_or(MAP_OP_SUCCESS);
            self.pc = pc + 1;
            assert(resume_with(step_call(old(self).env(), old(self).state(), insn@), Reply::Found(found)) == Some(self.state()));
            Ok(Flow::Continue)
        } else if helper_id == HELPER_MAP_UPDATE_ELEM && self.map_registry.len() > 0 {
            let handle = self.regs[1];
            let key = self.regs[2];
            let val = self.regs[3];
            if handle as usize >= self.map_registry.len() {
                return Err(EbpfError::InvalidMapHandle { pc });
            }
            proof {
                self.map_registry.lemma_count();
            }
            let done = self.map_registry.update(handle, key, val);
            self.regs[0] = if done { MAP_OP_SUCCESS } else { MAP_OP_FAILURE };
            self.pc = pc + 1;
            proof {
                self.map_registry.lemma_count();
                assert(resume_with(
                    step_call(old(self).env(), old(self).state(), insn@),
                    Reply::Done(done, self.state().maps),
                ) == Some(self.state()));
            }
            Ok(Flow::Continue)
        } else if helper_id == HELPER_MAP_DELETE_ELEM && self.map_registry.len() > 0 {
            let handle = self.regs[1];
            let key = self.regs[2];
            if handle as usize >= self.map_registry.len() {
                return Err(EbpfError::InvalidMapHandle { pc });
            }
            proof {
                self.map_registry.lemma_count();
            }
            let done = self.map_registry.delete(handle, key);
            self.regs[0] = if done { MAP_OP_SUCCESS } else { MAP_OP_FAILURE };
            self.pc = pc + 1;
            proof {
                self.map_registry.lemma_count();
                assert(resume_with(
                    step_call(old(self).env(), old(self).state(), insn@),
                    Reply::Done(done, self.state().maps),
                ) == Some(self.state()));
            }
            Ok(Flow::Continue)
        } else {
            match self.helper_table.call(
                helper_id,
                self.regs[1],
                self.regs[2],
                self.regs[3],
                self.regs[4],
                self.regs[5],
            ) {
                Some(ret) => {
                    self.regs[0] = ret;
                    self.pc = pc + 1;
                    assert(resume_with(step_call(old(self).env(), old(self).state(), insn@), Reply::Word(ret)) == Some(self.state()));
                    Ok(Flow::Continue)
                },
                None => {
                    if helper_id as usize >= self.prog.len() && self.calls.len() < CALL_STACK_LIMIT {
                        return Err(EbpfError::HelperNotFound { id: helper_id });
                    }
                    if self.calls.len() >= CALL_STACK_LIMIT {
                        return Err(EbpfError::CallStackExhausted);
                    }
                    self.calls.push(pc + 1);
                    self.pc = insn.imm() as usize;
                    Ok(Flow::Continue)
                },
            }
        }
    }

    fn handle_jmp(&mut self, insn: &Insn) -> (r: Result<Flow, EbpfError>)
        requires
            old(self).pc < old(self).prog@.len() <= usize::MAX,
        ensures
            final(self).env() == old(self).env(),
            follows(step_jmp(old(self).env(), old(self).state(), insn@), r, old(self).state(), final(self).state()),
    {
        let opcode = insn.opcode();
        let raw = opcode.raw();
        let pc = self.pc;
        let code = opcode.code();
        if code == 0x0e || code == 0x0f {
            return Err(EbpfError::UnknownOpcode { pc, opcode: raw });
        }
        if code == op::CALL {
            return self.handle_call(insn);
        }
        if code == op::EXIT {
            return match self.calls.pop() {
                Some(ret_pc) => {
                    self.pc = ret_pc;
                    Ok(Flow::Continue)
                },
                None => Ok(Flow::Exit),
            };
        }
        let dst = self.regs[insn.dst() as usize];
        let rhs = if opcode.source() == src::REG {
            self.regs[insn.src() as usize]
        } else {
            insn.imm() as i64 as u64
        };
        let take = if code == op::JA {
            true
        } else if code == op::JEQ {
            dst == rhs
        } else if code == op::JNE {
            dst != rhs
        } else if code == op::JGT {
            dst > rhs
        } else if code == op::JGE {
            dst >= rhs
        } else if code == 0x0a {
            dst < rhs
        } else if code == 0x0b {
            dst <= rhs
        } else if code == op::JSGT {
            (dst as i64) > (rhs as i64)
        } else if code == op::JSGE {
            (dst as i64) >= (rhs as i64)
        } else if code == 0x0c {
            (dst as i64) < (rhs as i64)
        } else if code == 0x0d {
            (dst as i64) <= (rhs as i64)
        } else {
            (dst & rhs) != 0
        };
        if take {
            self.pc = Self::pc_with_off(pc, insn.off()).wrapping_add(1);
        } else {
            self.pc = pc + 1;
        }
        Ok(Flow::Continue)
    }

    fn handle_jmp32(&mut self, insn: &Insn) -> (r: Result<Flow, EbpfError>)
        requires
            old(self).pc < old(self).prog@.len() <= usize::MAX,
        ensures
            final(self).env() == old(self).env(),
            follows(step_jmp32(old(self).state(), insn@), r, old(self).state(), final(self).state()),
    {
        let opcode = insn.opcode();
        let raw = opcode.raw();
        let pc = self.pc;
        let code = opcode.code();
        if code == op::CALL || code == op::EXIT || code == 0x0e || code == 0x0f {
            return Err(EbpfError::UnknownOpcode { pc, opcode: raw });
        }
        let dst = self.regs[insn.dst() as usize] as u32;
        let rhs = if opcode.source() == src::REG {
            self.regs[insn.src() as usize] as u32
        } else {
            insn.imm() as u32
        };
        let take = if code == op::JA {
            true
        } else if code == op::JEQ {
            dst == rhs
        } else if code == op::JNE {
            dst != rhs
        } else if code == op::JGT {
            dst > rhs
        } else if code == op::JGE {
            dst >= rhs
        } else if code == 0x0a {
            dst < rhs
        } else if code == 0x0b {
            dst <= rhs
        } else if code == op::JSGT {
            (dst as i32) > (rhs as i32)
        } else if code == op::JSGE {
            (dst as i32) >= (rhs as i32)
        } else if code == 0x0c {
            (dst as i32) < (rhs as i32)
        } else if code == 0x0d {
            (dst as i32) <= (rhs as i32)
        } else {
            (dst & rhs) != 0
        };
        if take {
            self.pc = Self::pc_with_off(pc, insn.off()).wrapping_add(1);
        } else {
            self.pc = pc + 1;
        }
        Ok(Flow::Continue)
    }

    /// The access width that the code of a memory instruction selects.
    fn access_size(&self, insn: &Insn) -> (r: Result<usize, EbpfError>)
        ensures
            match mem_size(code_of(opcode_of(insn@))) {
                Some(size) => r == Ok::<usize, EbpfError>(size),
                None => r == Err::<usize, EbpfError>(
                    EbpfError::UnknownOpcode { pc: self.pc, opcode: opcode_of(insn@) },
                ),
            },
    {
        let opcode = insn.opcode();
        let code = opcode.code();
        if code == 0x03 {
            Ok(8)
        } else if code == 0x02 {
            Ok(4)
        } else if code == 0x01 {
            Ok(2)
        } else if code == 0x00 {
            Ok(1)
        } else {
            Err(EbpfError::UnknownOpcode { pc: self.pc, opcode: opcode.raw() })
        }
    }

    /// Where `size` bytes at `addr` lie in the stack, as a start and an end.
    fn stack_window(&self, addr: i64, size: usize) -> (r: Result<(usize, usize), EbpfError>)
        requires
            size <= 8,
        ensures
            match stack_window(addr, size) {
                Some(start) => r == Ok::<(usize, usize), EbpfError>((start, (start + size) as usize)),
                None => r == Err::<(usize, usize), EbpfError>(
                    EbpfError::MemoryFault { pc: self.pc, addr: addr as u64 },
                ),
            },
    {
        if addr < 0 {
            return Err(EbpfError::MemoryFault { pc: self.pc, addr: addr as u64 });
        }
        let start = addr as usize;
        let end = match start.checked_add(size) {
            Some(end) => end,
            None => {
                return Err(EbpfError::MemoryFault { pc: self.pc, addr: addr as u64 });
            },
        };
        if end > STACK_SIZE {
            return Err(EbpfError::MemoryFault { pc: self.pc, addr: addr as u64 });
        }
        Ok((start, end))
    }

    fn handle_ldx(&mut self, insn: &Insn) -> (r: Result<Flow, EbpfError>)
        requires
            old(self).pc < old(self).prog@.len() <= usize::MAX,
        ensures
            final(self).env() == old(self).env(),
            follows(step_ldx(old(self).state(), insn@), r, old(self).state(), final(self).state()),
    {
        let pc = self.pc;
        let size = match self.access_size(insn) {
            Ok(size) => size,
            Err(e) => {
                return Err(e);
            },
        };
        let addr = (self.regs[insn.src() as usize] as i64).wrapping_add(insn.off() as i64);
        let (start, end) = match self.stack_window(addr, size) {
            Ok(w) => w,
            Err(e) => {
                return Err(e);
            },
        };
        if insn.dst() == 10 {
            return Err(EbpfError::MemoryFault { pc, addr: addr as u64 });
        }
        let value = load_le(self.stack.as_slice(), start, end - start);
        self.regs[insn.dst() as usize] = value;
        self.pc = pc + 1;
        assert(self.state() == set_pc(set_reg(old(self).state(), dst_of(insn@), value), (pc + 1) as usize));
        Ok(Flow::Continue)
    }

    /// Writes the `size` low bytes of `value`, least significant first, at
    /// `start` in the stack.
    fn write_stack(&mut self, start: usize, size: usize, value: u64)
        requires
            start + size <= STACK_SIZE,
        ensures
            final(self).env() == old(self).env(),
            final(self).state() == (VmState {
                stack: write_bytes(old(self).stack@, start as int, le_bytes(value as nat, size as nat)),
                ..old(self).state()
            }),
    {
        let mut w: u64 = value;
        let mut i: usize = 0;
        proof {
            lemma_pow256_values();
            lemma_le_bytes_len(value as nat, 0);
            assert(self.stack@ =~= write_bytes(old(self).stack@, start as int, le_bytes(value as nat, 0)));
        }
        while i < size
            invariant
                i <= size,
                start + size <= STACK_SIZE,
                w as nat == value as nat / pow256(i as nat),
                self.stack@ == write_bytes(old(self).stack@, start as int, le_bytes(value as nat, i as nat)),
                self.env() == old(self).env(),
                self.regs@ == old(self).regs@,
                self.pc == old(self).pc,
                self.calls@ == old(self).calls@,
                self.map_registry == old(self).map_registry,
            decreases size - i,
        {
            let ghost before = self.stack@;
            proof {
                lemma_le_bytes_push(value as nat, i as nat);
                lemma_le_bytes_len(value as nat, i as nat);
                lemma_pow256_monotonic(0, i as nat);
                vstd::arithmetic::div_mod::lemma_div_denominator(value as int, pow256(i as nat) as int, 256);
                assert(pow256((i + 1) as nat) == 256 * pow256(i as nat));
            }
            self.stack[start + i] = (w % 256) as u8;
            w = w / 256;
            i = i + 1;
            proof {
                lemma_le_bytes_len(value as nat, i as nat);
                assert(self.stack@ =~= write_bytes(old(self).stack@, start as int, le_bytes(value as nat, i as nat)));
            }
        }
        assert(self.state() == (VmState {
                stack: write_bytes(old(self).stack@, start as int, le_bytes(value as nat, size as nat)),
                ..old(self).state()
            }));
    }

    fn handle_st(&mut self, insn: &Insn) -> (r: Result<Flow, EbpfError>)
        requires
            old(self).pc < old(self).prog@.len() <= usize::MAX,
        ensures
            final(self).env() == old(self).env(),
            follows(step_store(old(self).state(), insn@, imm_of(insn@) as u64), r, old(self).state(), final(self).state()),
    {
        let pc = self.pc;
        let size = match self.access_size(insn) {
            Ok(size) => size,
            Err(e) => {
                return Err(e);
            },
        };
        let addr = (self.regs[insn.dst() as usize] as i64).wrapping_add(insn.off() as i64);
        let (start, end) = match self.stack_window(addr, size) {
            Ok(w) => w,
            Err(e) => {
                return Err(e);
            },
        };
        let value = insn.imm() as u64;
        self.write_stack(start, end - start, value);
        self.pc = pc + 1;
        Ok(Flow::Continue)
    }

    fn handle_stx(&mut self, insn: &Insn) -> (r: Result<Flow, EbpfError>)
        requires
            old(self).pc < old(self).prog@.len() <= usize::MAX,
        ensures
            final(self).env() == old(self).env(),
            follows(step_store(old(self).state(), insn@, old(self).state().regs[src_of(insn@) as int]), r, old(self).state(), final(self).state()),
    {
        let pc = self.pc;
        let size = match self.access_size(insn) {
            Ok(size) => size,
            Err(e) => {
                return Err(e);
            },
        };
        let addr = (self.regs[insn.dst() as usize] as i64).wrapping_add(insn.off() as i64);
        let (start, end) = match self.stack_window(addr, size) {
            Ok(w) => w,
            Err(e) => {
                return Err(e);
            },
        };
        let value = self.regs[insn.src() as usize];
        self.write_stack(start, end - start, value);
        self.pc = pc + 1;
        Ok(Flow::Continue)
    }
}

} // verus!
