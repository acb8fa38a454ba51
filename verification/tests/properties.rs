use ebpf_vm::opcode::{class, op, src, Opcode};
use ebpf_vm::{
    ArrayMap, BpfHashMap, BpfMap, EbpfError, EbpfVm, ElfError, HelperTable, Insn, InsnError,
    MapRegistry, RegType, TypeChecker, Verifier,
};

fn assemble(opcode: Opcode, dst: u8, src_reg: u8, off: i16, imm: i32) -> u64 {
    ((imm as u32 as u64) << 32)
        | ((off as u16 as u64) << 16)
        | ((src_reg as u64) << 12)
        | ((dst as u64) << 8)
        | (opcode.raw() as u64)
}

fn prog(insns: &[u64]) -> Vec<Insn> {
    insns.iter().map(|r| Insn::from_raw(*r).unwrap()).collect()
}

fn run(insns: &[u64]) -> Result<u64, EbpfError> {
    let program = prog(insns);
    let mut vm = EbpfVm::new(&program).unwrap();
    vm.run()
}

fn exit() -> u64 {
    assemble(Opcode::new(class::JMP, src::IMM, op::EXIT), 0, 0, 0, 0)
}

fn mov64_imm(dst: u8, imm: i32) -> u64 {
    assemble(Opcode::new(class::ALU64, src::IMM, op::MOV), dst, 0, 0, imm)
}

fn lddw(dst: u8, value: u64) -> [u64; 2] {
    [
        assemble(Opcode::new(class::LD, src::IMM, op::LDDW), dst, 0, 0, value as u32 as i32),
        assemble(Opcode::new(class::LD, src::IMM, op::LDDW), 0, 0, 0, (value >> 32) as u32 as i32),
    ]
}

fn store_then_load(size_code: u8, value: u64) -> Result<u64, EbpfError> {
    let wide = lddw(1, value);
    run(&[
        wide[0],
        wide[1],
        assemble(Opcode::new(class::STX, src::REG, size_code), 10, 1, -8, 0),
        assemble(Opcode::new(class::LDX, src::REG, size_code), 0, 10, -8, 0),
        exit(),
    ])
}

#[test]
fn opcode_fields_round_trip() {
    for c in 0..8u8 {
        for s in 0..2u8 {
            for k in 0..16u8 {
                let opc = Opcode::new(c, s, k);
                assert_eq!(opc.class(), c);
                assert_eq!(opc.source(), s);
                assert_eq!(opc.code(), k);
                assert_eq!(opc.raw(), (k << 4) | (s << 3) | c);
                assert_eq!(Opcode::from(opc.raw()), opc);
                assert_eq!(u8::from(opc), opc.raw());
            }
        }
    }
}

#[test]
fn opcode_class_predicates() {
    assert!(Opcode::new(class::ALU64, src::IMM, op::ADD).is_alu64());
    assert!(!Opcode::new(class::ALU, src::IMM, op::ADD).is_alu64());
    assert!(Opcode::new(class::JMP, src::IMM, op::JA).is_jmp());
    assert!(Opcode::new(class::JMP32, src::REG, op::JEQ).is_jmp());
    assert!(!Opcode::new(class::ALU, src::IMM, op::ADD).is_jmp());
    assert!(Opcode::new(class::LD, src::IMM, op::LDDW).is_load());
    assert!(Opcode::new(class::LDX, src::REG, 0x03).is_load());
    assert!(!Opcode::new(class::ST, src::IMM, 0x03).is_load());
    assert!(Opcode::new(class::ST, src::IMM, 0x03).is_store());
    assert!(Opcode::new(class::STX, src::REG, 0x03).is_store());
    assert!(!Opcode::new(class::LDX, src::REG, 0x03).is_store());
}

#[test]
fn insn_fields_and_round_trip() {
    let raw = assemble(Opcode::new(class::ALU64, src::REG, op::ADD), 3, 7, -2, -5);
    let insn = Insn::from_raw(raw).unwrap();
    assert_eq!(insn.raw(), raw);
    assert_eq!(u64::from(insn), raw);
    assert_eq!(insn.dst(), 3);
    assert_eq!(insn.src(), 7);
    assert_eq!(insn.off(), -2);
    assert_eq!(insn.imm(), -5);
    assert_eq!(insn.opcode(), Opcode::new(class::ALU64, src::REG, op::ADD));
    assert!(!insn.is_wide());
    assert_eq!(Insn::from_bytes(raw.to_le_bytes()), Ok(insn));
    assert_eq!(Insn::try_from(raw), Ok(insn));
    assert_eq!(Insn::try_from(raw.to_le_bytes()), Ok(insn));
}

#[test]
fn insn_rejects_bad_registers() {
    let bad_dst = 0x0000_0000_0000_0b07u64;
    let bad_src = 0x0000_0000_0000_f107u64;
    assert_eq!(Insn::from_raw(bad_dst), Err(InsnError::InvalidDst(11)));
    assert_eq!(Insn::from_raw(bad_src), Err(InsnError::InvalidSrc(15)));
    assert_eq!(Insn::from_bytes(bad_dst.to_le_bytes()), Err(InsnError::InvalidDst(11)));
    let both = 0x0000_0000_0000_ffb7u64;
    assert_eq!(Insn::from_raw(both), Err(InsnError::InvalidDst(15)));
    assert_eq!(EbpfError::from(InsnError::InvalidSrc(12)), EbpfError::Insn(InsnError::InvalidSrc(12)));
}

#[test]
fn wide_immediate_joins_halves() {
    let wide = lddw(2, 0x1234_5678_9abc_def0);
    let lo = Insn::from_raw(wide[0]).unwrap();
    let hi = Insn::from_raw(wide[1]).unwrap();
    assert!(lo.is_wide());
    assert_eq!(Insn::wide_imm(&lo, &hi) as u64, 0x1234_5678_9abc_def0);
}

#[test]
fn stack_store_reads_back_low_bytes() {
    let value = 0x1122_3344_5566_7788u64;
    assert_eq!(store_then_load(0x03, value), Ok(value));
    assert_eq!(store_then_load(0x02, value), Ok(0x5566_7788));
    assert_eq!(store_then_load(0x01, value), Ok(0x7788));
    assert_eq!(store_then_load(0x00, value), Ok(0x88));
}

#[test]
fn stack_store_is_little_endian() {
    let wide = lddw(1, 0x0102_0304_0506_0708);
    let ret = run(&[
        wide[0],
        wide[1],
        assemble(Opcode::new(class::STX, src::REG, 0x03), 10, 1, -8, 0),
        assemble(Opcode::new(class::LDX, src::REG, 0x00), 0, 10, -8, 0),
        exit(),
    ]);
    assert_eq!(ret, Ok(0x08));
}

#[test]
fn run_of_call_free_program_is_repeatable() {
    let program = prog(&[mov64_imm(0, 5), assemble(Opcode::new(class::ALU64, src::IMM, op::MUL), 0, 0, 0, 9), exit()]);
    let mut a = EbpfVm::new(&program).unwrap();
    let mut b = EbpfVm::new(&program).unwrap();
    assert_eq!(a.run(), Ok(45));
    assert_eq!(b.run(), Ok(45));
}

#[test]
fn run_stops_at_the_instruction_budget() {
    let program = prog(&[assemble(Opcode::new(class::JMP, src::IMM, op::JA), 0, 0, -1, 0)]);
    let mut vm = EbpfVm::new(&program).unwrap();
    assert_eq!(vm.run(), Err(EbpfError::InvalidPc { pc: usize::MAX, bound: 1 }));
}

#[test]
fn vm_registers_and_setter() {
    let program = prog(&[exit()]);
    let mut vm = EbpfVm::new(&program).unwrap();
    assert_eq!(vm.reg(10), 512);
    assert_eq!(vm.reg(0), 0);
    assert_eq!(vm.set_reg(3, 77), Ok(()));
    assert_eq!(vm.reg(3), 77);
    assert_eq!(vm.set_reg(10, 1), Err(EbpfError::UnknownOpcode { pc: 0, opcode: 10 }));
    assert_eq!(vm.reg(10), 512);
    assert_eq!(vm.set_reg(0, 9), Ok(()));
    assert_eq!(vm.run(), Ok(9));
}

#[test]
fn vm_refuses_empty_program() {
    assert!(matches!(EbpfVm::new(&[]), Err(EbpfError::ProgramEmpty)));
}

#[test]
fn vm_errors() {
    assert_eq!(
        run(&[mov64_imm(0, 1), assemble(Opcode::new(class::ALU64, src::IMM, op::DIV), 0, 0, 0, 0), exit()]),
        Err(EbpfError::DivisionByZero { pc: 1 })
    );
    assert_eq!(run(&[mov64_imm(0, 1)]), Err(EbpfError::InvalidPc { pc: 1, bound: 1 }));
    assert_eq!(
        run(&[assemble(Opcode::new(class::JMP, src::IMM, 0x0e), 0, 0, 0, 0)]),
        Err(EbpfError::UnknownOpcode { pc: 0, opcode: 0xe5 })
    );
    assert_eq!(
        run(&[assemble(Opcode::new(class::JMP, src::IMM, op::CALL), 0, 0, 0, 99), exit()]),
        Err(EbpfError::HelperNotFound { id: 99 })
    );
    assert_eq!(
        run(&[assemble(Opcode::new(class::LDX, src::REG, 0x03), 0, 10, 0, 0), exit()]),
        Err(EbpfError::MemoryFault { pc: 0, addr: 512 })
    );
}

#[test]
fn map_handle_out_of_range_is_refused() {
    let program = prog(&[
        mov64_imm(1, 3),
        mov64_imm(2, 0),
        assemble(Opcode::new(class::JMP, src::IMM, op::CALL), 0, 0, 0, 1),
        exit(),
    ]);
    let mut vm = EbpfVm::new(&program).unwrap();
    assert_eq!(vm.register_map(Box::new(ArrayMap::new(4))), 0);
    assert_eq!(vm.run(), Err(EbpfError::InvalidMapHandle { pc: 2 }));
}

#[test]
fn error_kinds() {
    assert_eq!(EbpfError::Insn(InsnError::InvalidDst(11)).kind(), "decode");
    assert_eq!(EbpfError::DivisionByZero { pc: 0 }.kind(), "arithmetic");
    assert_eq!(EbpfError::InvalidPc { pc: 0, bound: 0 }.kind(), "control-flow");
    assert_eq!(EbpfError::UnknownOpcode { pc: 0, opcode: 0 }.kind(), "decode");
    assert_eq!(EbpfError::BackEdge { pc: 0 }.kind(), "control-flow");
    assert_eq!(EbpfError::UnreachableInstruction { pc: 0 }.kind(), "control-flow");
    assert_eq!(EbpfError::InvalidJumpTarget { pc: 0, target: 0 }.kind(), "control-flow");
    assert_eq!(EbpfError::FallthroughEnd { pc: 0 }.kind(), "control-flow");
    assert_eq!(EbpfError::StackOverflow { pc: 0 }.kind(), "memory");
    assert_eq!(EbpfError::MemoryFault { pc: 0, addr: 0 }.kind(), "memory");
    assert_eq!(EbpfError::CallStackExhausted.kind(), "control-flow");
    assert_eq!(EbpfError::ProgramEmpty.kind(), "program");
    assert_eq!(EbpfError::InvalidMapHandle { pc: 0 }.kind(), "memory");
    assert_eq!(EbpfError::HelperNotFound { id: 0 }.kind(), "control-flow");
    assert_eq!(EbpfError::UseBeforeInit { pc: 0, reg: 0 }.kind(), "type");
    assert_eq!(EbpfError::InvalidPtrArithmetic { pc: 0 }.kind(), "type");
    assert_eq!(EbpfError::TypeMismatch { pc: 0 }.kind(), "type");
    assert_eq!(EbpfError::InvalidInstruction { pc: 0 }.kind(), "decode");
}

#[test]
fn elf_error_kinds() {
    assert_eq!(ElfError::TooShort.kind(), "too-short");
    assert_eq!(ElfError::InvalidShentsize.kind(), "invalid-shentsize");
    assert_eq!(ElfError::BadInstruction { index: 3 }.kind(), "bad-instruction");
}

#[test]
fn join_is_commutative_and_idempotent() {
    let all = [RegType::Uninit, RegType::Scalar, RegType::PtrToStack, RegType::PtrToMap];
    for a in all {
        assert_eq!(RegType::join(a, a), a);
        for b in all {
            assert_eq!(RegType::join(a, b), RegType::join(b, a));
            for c in all {
                assert_eq!(
                    RegType::join(RegType::join(a, b), c),
                    RegType::join(a, RegType::join(b, c))
                );
            }
        }
    }
    assert_eq!(RegType::join(RegType::Scalar, RegType::PtrToStack), RegType::Uninit);
    assert_eq!(RegType::join(RegType::Uninit, RegType::Scalar), RegType::Uninit);
}

#[test]
fn type_checker_errors() {
    let empty: Vec<Insn> = Vec::new();
    assert_eq!(TypeChecker::new(&empty).check(), Err(EbpfError::ProgramEmpty));
    let bad = prog(&[assemble(Opcode::new(class::LD, src::REG, 0x02), 0, 0, 0, 0), exit()]);
    assert_eq!(TypeChecker::new(&bad).check(), Err(EbpfError::InvalidInstruction { pc: 0 }));
    let jump_out = prog(&[mov64_imm(0, 0), assemble(Opcode::new(class::JMP, src::IMM, op::JA), 0, 0, 5, 0)]);
    assert_eq!(
        TypeChecker::new(&jump_out).check(),
        Err(EbpfError::InvalidJumpTarget { pc: 1, target: 7 })
    );
}

#[test]
fn verifier_accepts_forward_program() {
    let program = prog(&[
        mov64_imm(0, 0),
        assemble(Opcode::new(class::JMP, src::IMM, op::JEQ), 0, 0, 1, 0),
        mov64_imm(0, 1),
        exit(),
    ]);
    let mut verifier = Verifier::new(&program).unwrap();
    assert_eq!(verifier.verify(), Ok(()));
}

#[test]
fn verifier_errors() {
    let out_of_range = prog(&[assemble(Opcode::new(class::JMP, src::IMM, op::JA), 0, 0, 4, 0), exit()]);
    assert_eq!(
        Verifier::new(&out_of_range).unwrap().verify(),
        Err(EbpfError::InvalidJumpTarget { pc: 0, target: 5 })
    );
    let dead = prog(&[exit(), exit()]);
    assert_eq!(
        Verifier::new(&dead).unwrap().verify(),
        Err(EbpfError::UnreachableInstruction { pc: 1 })
    );
    let unknown = prog(&[assemble(Opcode::new(class::JMP32, src::IMM, op::EXIT), 0, 0, 0, 0)]);
    assert_eq!(
        Verifier::new(&unknown).unwrap().verify(),
        Err(EbpfError::UnknownOpcode { pc: 0, opcode: 0x96 })
    );
}

#[test]
fn array_map_laws() {
    let mut m = ArrayMap::new(4);
    assert_eq!(m.lookup(2), None);
    assert!(m.update(2, 40));
    assert_eq!(m.lookup(2), Some(40));
    assert_eq!(m.lookup(1), None);
    assert!(m.update(2, 41));
    assert_eq!(m.lookup(2), Some(41));
    assert!(!m.update(4, 1));
    assert_eq!(m.lookup(4), None);
    assert!(m.delete(2));
    assert_eq!(m.lookup(2), None);
    assert!(!m.delete(2));
    assert!(!m.delete(9));
    let mut empty = ArrayMap::new(0);
    assert!(!empty.update(0, 1));
    assert_eq!(empty.lookup(0), None);
}

#[test]
fn hash_map_laws() {
    let mut m = BpfHashMap::with_capacity(8);
    assert_eq!(m.lookup(5), None);
    assert!(m.update(5, 50));
    assert_eq!(m.lookup(5), Some(50));
    assert!(m.update(5, 51));
    assert_eq!(m.lookup(5), Some(51));
    assert!(m.update(13, 130));
    assert!(m.update(21, 210));
    assert_eq!(m.lookup(13), Some(130));
    assert_eq!(m.lookup(21), Some(210));
    assert!(m.update(29, 290));
    // Four entries fill half of the eight slots: every update is refused,
    // even one of a key that is there.
    assert!(!m.update(37, 370));
    assert!(!m.update(5, 52));
    assert_eq!(m.lookup(5), Some(51));
    assert_eq!(m.lookup(37), None);
    assert!(m.delete(13));
    assert_eq!(m.lookup(13), None);
    assert!(!m.delete(13));
    assert_eq!(m.lookup(21), Some(210));
    assert!(m.update(37, 370));
    assert_eq!(m.lookup(37), Some(370));
}

#[test]
fn map_registry_handles() {
    let mut reg = MapRegistry::new();
    assert_eq!(reg.len(), 0);
    assert_eq!(reg.register(Box::new(ArrayMap::new(2))), 0);
    assert_eq!(reg.register(Box::new(BpfHashMap::with_capacity(4))), 1);
    assert_eq!(reg.len(), 2);
    assert!(reg.update(0, 1, 10));
    assert!(reg.update(1, 1, 20));
    assert_eq!(reg.lookup(0, 1), Some(10));
    assert_eq!(reg.lookup(1, 1), Some(20));
    assert_eq!(reg.lookup(2, 1), None);
    assert!(!reg.update(2, 1, 1));
    assert!(!reg.delete(2, 1));
    assert!(reg.delete(0, 1));
    assert_eq!(reg.lookup(0, 1), None);
    assert_eq!(reg.len(), 2);
}

fn triple(a: u64, b: u64, c: u64, _d: u64, _e: u64) -> u64 {
    a * 100 + b * 10 + c
}

#[test]
fn helper_table_dispatch() {
    let mut table = HelperTable::new();
    assert_eq!(table.call(7, 1, 2, 3, 4, 5), None);
    table.register(7, triple);
    assert_eq!(table.call(7, 1, 2, 3, 4, 5), Some(123));
    table.register(255, |a, _b, _c, _d, e| a + e);
    assert_eq!(table.call(255, 1, 2, 3, 4, 5), Some(6));
    table.register(256, triple);
    assert_eq!(table.call(256, 1, 2, 3, 4, 5), None);
    assert_eq!(table.call(8, 1, 2, 3, 4, 5), None);
}

#[test]
fn elf_bad_instruction_index() {
    // A header, then one good and one bad word as .text, then the tables.
    let words = [exit(), 0x0000_0000_0000_0c95u64];
    let buf = build_elf(&words);
    assert!(matches!(ebpf_vm::ElfLoader::load(&buf), Err(ElfError::BadInstruction { index: 1 })));
    let good = build_elf(&[mov64_imm(0, 3), exit()]);
    let insns = ebpf_vm::ElfLoader::load(&good).unwrap();
    assert_eq!(insns.len(), 2);
    assert_eq!(insns[0].raw(), mov64_imm(0, 3));
    assert_eq!(insns[1].raw(), exit());
}

#[test]
fn elf_header_errors() {
    let mut buf = build_elf(&[exit()]);
    buf[58] = 40;
    assert!(matches!(ebpf_vm::ElfLoader::load(&buf), Err(ElfError::InvalidShentsize)));
    let words = build_elf(&[exit()]);
    assert!(matches!(ebpf_vm::ElfLoader::load(&words[..63]), Err(ElfError::TooShort)));
}

fn build_elf(text: &[u64]) -> Vec<u8> {
    let strtab: &[u8] = b"\0.text\0";
    let text_bytes: Vec<u8> = text.iter().flat_map(|w| w.to_le_bytes()).collect();
    let text_off = 64usize;
    let strtab_off = text_off + text_bytes.len();
    let shoff = strtab_off + strtab.len();
    let mut buf = vec![0u8; 64];
    buf[0..4].copy_from_slice(&[0x7f, 0x45, 0x4c, 0x46]);
    buf[4] = 2;
    buf[5] = 1;
    buf[18..20].copy_from_slice(&247u16.to_le_bytes());
    buf[40..48].copy_from_slice(&(shoff as u64).to_le_bytes());
    buf[58..60].copy_from_slice(&64u16.to_le_bytes());
    buf[60..62].copy_from_slice(&3u16.to_le_bytes());
    buf[62..64].copy_from_slice(&2u16.to_le_bytes());
    buf.extend_from_slice(&text_bytes);
    buf.extend_from_slice(strtab);
    let mut section = |name: u32, off: usize, size: usize| {
        let mut h = vec![0u8; 64];
        h[0..4].copy_from_slice(&name.to_le_bytes());
        h[24..32].copy_from_slice(&(off as u64).to_le_bytes());
        h[32..40].copy_from_slice(&(size as u64).to_le_bytes());
        buf.extend_from_slice(&h);
    };
    section(0, 0, 0);
    section(1, text_off, text_bytes.len());
    section(0, strtab_off, strtab.len());
    buf
}

#[test]
fn accepted_program_runs_to_its_end() {
    let program = prog(&[
        mov64_imm(0, 7),
        assemble(Opcode::new(class::JMP, src::IMM, op::JGT), 0, 0, 2, 3),
        mov64_imm(0, 1),
        assemble(Opcode::new(class::JMP, src::IMM, op::JA), 0, 0, 1, 0),
        mov64_imm(0, 2),
        exit(),
    ]);
    let mut verifier = Verifier::new(&program).unwrap();
    assert_eq!(verifier.verify(), Ok(()));
    let mut vm = EbpfVm::new(&program).unwrap();
    assert_eq!(vm.run(), Ok(2));
}

#[test]
fn elf_header_overflow_is_detected() {
    let good = build_elf(&[exit()]);
    assert!(!ebpf_vm::ElfLoader::header_overflows(&good));
    let mut bad = good.clone();
    bad[40..48].copy_from_slice(&(u64::MAX - 10).to_le_bytes());
    bad[62..64].copy_from_slice(&0u16.to_le_bytes());
    assert!(ebpf_vm::ElfLoader::header_overflows(&bad));
    assert!(!ebpf_vm::ElfLoader::header_overflows(&good[..10]));
}
