//! Register type checking: a forward data-flow analysis over the register
//! types `uninitialized | scalar | pointer to stack | pointer to map`, which
//! rejects reads of uninitialized registers, arithmetic on pointers, and
//! memory accesses through scalars.
use vstd::prelude::*;
use std::collections::VecDeque;

use crate::error::EbpfError;
use crate::insn::{dst_of, is_wide_raw, off_of, opcode_of, regs_in_range, src_of, Insn};
use crate::opcode::{class, class_of, code_of, op, source_of, src};
use crate::semantics::NUM_REGS;

verus! {

#[derive(Clone, Copy, PartialEq, Eq, Structural, Debug)]
pub enum RegType {
    Uninit,
    Scalar,
    PtrToStack,
    PtrToMap,
}

/// The type of a register reached with type `a` on one path and `b` on another.
pub open spec fn join_type(a: RegType, b: RegType) -> RegType {
    if a == b {
        a
    } else {
        RegType::Uninit
    }
}

/// A pointer type.
pub open spec fn ptr_type(r: RegType) -> bool {
    r == RegType::PtrToStack || r == RegType::PtrToMap
}

impl RegType {
    pub fn join(a: RegType, b: RegType) -> (r: RegType)
        ensures
            r == join_type(a, b),
    {
        if a == b {
            a
        } else {
            RegType::Uninit
        }
    }
}

fn is_ptr(r: RegType) -> (b: bool)
    ensures
        b == ptr_type(r),
{
    match r {
        RegType::PtrToStack | RegType::PtrToMap => true,
        _ => false,
    }
}

/// Joining is commutative, idempotent and associative, and its result is
/// either argument or `Uninit`.
pub proof fn lemma_join_laws(a: RegType, b: RegType, c: RegType)
    ensures
        join_type(a, b) == join_type(b, a),
        join_type(a, a) == a,
        join_type(join_type(a, b), c) == join_type(a, join_type(b, c)),
        join_type(a, b) == a || join_type(a, b) == RegType::Uninit,
        join_type(a, RegType::Uninit) == RegType::Uninit,
{
}

const NUM_REGS_U8: u8 = 11;
const ENTRY_PC: usize = 0;
const REG_R0: u8 = 0;
const REG_R1: u8 = 1;
const REG_R5: u8 = 5;
const REG_R10: u8 = 10;
const OPCODE_OP_MASK: u8 = 0xf0;
const OPCODE_MOV_ALT: u8 = 0x70;
const OPCODE_LDDW_ALT: u8 = 0x18;

/// The register types at the entry: r10 points to the stack, the rest is
/// uninitialized.
pub open spec fn entry_types() -> Seq<RegType> {
    Seq::new(NUM_REGS as nat, |i: int| if i == 10 { RegType::PtrToStack } else { RegType::Uninit })
}

/// `t` says no more than `s`: each register has the type it has in `s`, or
/// none.
pub open spec fn no_more_than(t: Seq<RegType>, s: Seq<RegType>) -> bool {
    &&& t.len() == NUM_REGS
    &&& s.len() == NUM_REGS
    &&& forall|r: int| 0 <= r < NUM_REGS ==> #[trigger] t[r] == s[r] || t[r] == RegType::Uninit
}

/// Each register's join of its types in `a` and `b`.
pub open spec fn join_types(a: Seq<RegType>, b: Seq<RegType>) -> Seq<RegType> {
    Seq::new(NUM_REGS as nat, |r: int| join_type(a[r], b[r]))
}

/// Opcodes the checker treats as moves.
pub open spec fn is_mov_op(code: u8, raw: u8) -> bool {
    code == op::MOV || (raw & 0xf0) == 0x70
}

/// Opcodes the checker treats as 64-bit immediate loads.
pub open spec fn is_lddw_op(raw: u64) -> bool {
    is_wide_raw(raw) || opcode_of(raw) == 0x18
}

/// The register types after the instruction `raw` at `pc` runs on types `s`,
/// or the type error it has.
pub open spec fn types_after(s: Seq<RegType>, raw: u64, pc: usize) -> Result<Seq<RegType>, EbpfError> {
    let opc = opcode_of(raw);
    let cls = class_of(opc);
    let code = code_of(opc);
    let source = source_of(opc);
    let dst = dst_of(raw);
    let sr = src_of(raw);
    if cls == class::ALU64 || cls == class::ALU {
        if is_mov_op(code, opc) {
            if source == src::IMM {
                Ok(s.update(dst as int, RegType::Scalar))
            } else if s[sr as int] == RegType::Uninit {
                Err(EbpfError::UseBeforeInit { pc, reg: sr })
            } else {
                Ok(s.update(dst as int, s[sr as int]))
            }
        } else if source == src::IMM {
            if s[dst as int] == RegType::Uninit {
                Err(EbpfError::UseBeforeInit { pc, reg: dst })
            } else if ptr_type(s[dst as int]) {
                Err(EbpfError::InvalidPtrArithmetic { pc })
            } else {
                Ok(s.update(dst as int, RegType::Scalar))
            }
        } else if s[dst as int] == RegType::Uninit {
            Err(EbpfError::UseBeforeInit { pc, reg: dst })
        } else if s[sr as int] == RegType::Uninit {
            Err(EbpfError::UseBeforeInit { pc, reg: sr })
        } else if ptr_type(s[dst as int]) || ptr_type(s[sr as int]) {
            Err(EbpfError::InvalidPtrArithmetic { pc })
        } else {
            Ok(s.update(dst as int, RegType::Scalar))
        }
    } else if cls == class::JMP || cls == class::JMP32 {
        if code == op::EXIT {
            if s[0] == RegType::Uninit {
                Err(EbpfError::UseBeforeInit { pc, reg: 0 })
            } else {
                Ok(s)
            }
        } else if code == op::CALL {
            Ok(
                s.update(0, RegType::Scalar).update(1, RegType::Uninit).update(2, RegType::Uninit).update(
                    3,
                    RegType::Uninit,
                ).update(4, RegType::Uninit).update(5, RegType::Uninit),
            )
        } else if code == op::JA {
            Ok(s)
        } else if s[dst as int] == RegType::Uninit {
            Err(EbpfError::UseBeforeInit { pc, reg: dst })
        } else if source == src::REG && s[sr as int] == RegType::Uninit {
            Err(EbpfError::UseBeforeInit { pc, reg: sr })
        } else {
            Ok(s)
        }
    } else if cls == class::LDX {
        if s[sr as int] == RegType::Uninit {
            Err(EbpfError::UseBeforeInit { pc, reg: sr })
        } else if s[sr as int] == RegType::Scalar {
            Err(EbpfError::TypeMismatch { pc })
        } else {
            Ok(s.update(dst as int, RegType::Scalar))
        }
    } else if cls == class::ST || cls == class::STX {
        if s[dst as int] == RegType::Uninit {
            Err(EbpfError::UseBeforeInit { pc, reg: dst })
        } else if s[dst as int] == RegType::Scalar {
            Err(EbpfError::TypeMismatch { pc })
        } else if cls == class::STX && s[sr as int] == RegType::Uninit {
            Err(EbpfError::UseBeforeInit { pc, reg: sr })
        } else {
            Ok(s)
        }
    } else if !is_lddw_op(raw) {
        Err(EbpfError::InvalidInstruction { pc })
    } else {
        Ok(s.update(dst as int, RegType::Scalar))
    }
}

/// `u` as a successor of `pc` in a program of `len` instructions.
pub open spec fn succ_check(len: nat, pc: usize, u: usize) -> Result<Seq<usize>, EbpfError> {
    if u >= len {
        Err(EbpfError::InvalidJumpTarget { pc, target: u })
    } else {
        Ok(seq![u])
    }
}

/// Two successors, checked in order.
pub open spec fn succ_pair(len: nat, pc: usize, u: usize, v: usize) -> Result<Seq<usize>, EbpfError> {
    if u >= len {
        Err(EbpfError::InvalidJumpTarget { pc, target: u })
    } else if v >= len {
        Err(EbpfError::InvalidJumpTarget { pc, target: v })
    } else {
        Ok(seq![u, v])
    }
}

/// The successors the checker follows from the instruction `raw` at `pc`.
pub open spec fn successors_of(len: nat, raw: u64, pc: usize) -> Result<Seq<usize>, EbpfError> {
    let opc = opcode_of(raw);
    let cls = class_of(opc);
    let code = code_of(opc);
    let next = (pc + 1) as usize;
    let target = (pc + 1 + off_of(raw)) as usize;
    if cls == class::JMP || cls == class::JMP32 {
        if code == op::EXIT {
            Ok(Seq::empty())
        } else if code == op::CALL {
            succ_check(len, pc, next)
        } else if code == op::JA {
            succ_check(len, pc, target)
        } else {
            succ_pair(len, pc, next, target)
        }
    } else if cls == class::LD {
        succ_check(len, pc, (pc + 2) as usize)
    } else {
        succ_check(len, pc, next)
    }
}

/// What checking the instruction at `pc` on types `s` gives: the types after
/// it and its successors, or the error found.
pub open spec fn transfer(prog: Seq<Insn>, pc: usize, s: Seq<RegType>) -> Result<
    (Seq<RegType>, Seq<usize>),
    EbpfError,
> {
    let raw = prog[pc as int]@;
    match types_after(s, raw, pc) {
        Err(e) => Err(e),
        Ok(out) => match successors_of(prog.len(), raw, pc) {
            Err(e) => Err(e),
            Ok(ss) => Ok((out, ss)),
        },
    }
}

/// `types` gives register types to instructions such that the entry's types
/// say no more than the entry state, every typed instruction checks, and its
/// successors are typed with types that say no more than what it produces.
pub open spec fn is_typing(prog: Seq<Insn>, types: Seq<Option<Seq<RegType>>>) -> bool {
    &&& types.len() == prog.len()
    &&& prog.len() > 0
    &&& types[0] is Some
    &&& no_more_than(types[0]->Some_0, entry_types())
    &&& forall|p: int|
        #![trigger types[p]]
        0 <= p < types.len() && types[p] is Some ==> closed_at(prog, types, p)
}

/// The instruction at `p` checks with its types, and each successor has
/// types that say no more than what it produces.
pub open spec fn closed_at(prog: Seq<Insn>, types: Seq<Option<Seq<RegType>>>, p: int) -> bool {
    &&& transfer(prog, p as usize, types[p]->Some_0) is Ok
    &&& forall|j: int|
        #![trigger transfer(prog, p as usize, types[p]->Some_0)->Ok_0.1[j]]
        0 <= j < transfer(prog, p as usize, types[p]->Some_0)->Ok_0.1.len() ==> {
            let q = transfer(prog, p as usize, types[p]->Some_0)->Ok_0.1[j];
            &&& 0 <= q < types.len()
            &&& types[q as int] is Some
            &&& no_more_than(types[q as int]->Some_0, transfer(prog, p as usize, types[p]->Some_0)->Ok_0.0)
        }
}

/// The register types the checker starts from: the entry state at the
/// entry and nothing elsewhere.
pub open spec fn initial_types(n: nat) -> Seq<Option<Seq<RegType>>> {
    Seq::new(n, |i: int| if i == 0 { Some(entry_types()) } else { None })
}

/// The types and the queue after the instruction that produced `out` hands
/// it to its successors `succ` from the `k`-th on, in order: a successor
/// seen for the first time takes `out` and is queued; one whose types change
/// by the join with `out` takes the join and is queued again.
pub open spec fn propagate(
    sv: Seq<Option<Seq<RegType>>>,
    w: Seq<usize>,
    out: Seq<RegType>,
    succ: Seq<usize>,
    k: nat,
) -> (Seq<Option<Seq<RegType>>>, Seq<usize>)
    decreases succ.len() - k,
{
    if k >= succ.len() {
        (sv, w)
    } else {
        let q = succ[k as int];
        match sv[q as int] {
            None => propagate(sv.update(q as int, Some(out)), w.push(q), out, succ, k + 1),
            Some(ex) => if join_types(ex, out) != ex {
                propagate(sv.update(q as int, Some(join_types(ex, out))), w.push(q), out, succ, k + 1)
            } else {
                propagate(sv, w, out, succ, k + 1)
            },
        }
    }
}

/// The outcome of checking with types `sv` and the queue `w`, taking the
/// queued instructions first in, first out, for at most `fuel` of them: the
/// first error that an instruction reports, or `Ok` once the queue is empty.
pub open spec fn check_from(prog: Seq<Insn>, sv: Seq<Option<Seq<RegType>>>, w: Seq<usize>, fuel: nat) -> Result<
    (),
    EbpfError,
>
    decreases fuel,
{
    if w.len() == 0 || fuel == 0 {
        Ok(())
    } else {
        let pc = w[0];
        match transfer(prog, pc, sv[pc as int]->Some_0) {
            Err(e) => Err(e),
            Ok((out, succ)) => {
                let (sv2, w2) = propagate(sv, w.drop_first(), out, succ, 0);
                check_from(prog, sv2, w2, (fuel - 1) as nat)
            },
        }
    }
}

/// The checker's verdict on `prog`: checking from the entry with enough
/// steps to empty the queue.
pub open spec fn check_result(prog: Seq<Insn>) -> Result<(), EbpfError> {
    check_from(
        prog,
        initial_types(prog.len()),
        seq![0usize],
        2 * potential_sum(initial_types(prog.len())) + 1,
    )
}

/// Some assignment of register types makes the program check.
pub open spec fn typable(prog: Seq<Insn>) -> bool {
    exists|types: Seq<Option<Seq<RegType>>>| #[trigger] is_typing(prog, types)
}

/// `no_more_than` is transitive.
proof fn lemma_no_more_than_trans(a: Seq<RegType>, b: Seq<RegType>, c: Seq<RegType>)
    requires
        no_more_than(a, b),
        no_more_than(b, c),
    ensures
        no_more_than(a, c),
{
    assert forall|r: int| 0 <= r < NUM_REGS implies #[trigger] a[r] == c[r] || a[r] == RegType::Uninit by {
        assert(a[r] == b[r] || a[r] == RegType::Uninit);
        assert(b[r] == c[r] || b[r] == RegType::Uninit);
    }
}

/// The join says no more than either side, and whatever says no more than
/// both sides says no more than the join.
proof fn lemma_join_bounds(a: Seq<RegType>, b: Seq<RegType>, t: Seq<RegType>)
    requires
        a.len() == NUM_REGS,
        b.len() == NUM_REGS,
    ensures
        no_more_than(join_types(a, b), a),
        no_more_than(join_types(a, b), b),
        no_more_than(t, a) && no_more_than(t, b) ==> no_more_than(t, join_types(a, b)),
{
    let j = join_types(a, b);
    assert forall|r: int| 0 <= r < NUM_REGS implies #[trigger] j[r] == a[r] || j[r] == RegType::Uninit by {}
    assert forall|r: int| 0 <= r < NUM_REGS implies #[trigger] j[r] == b[r] || j[r] == RegType::Uninit by {}
    if no_more_than(t, a) && no_more_than(t, b) {
        assert forall|r: int| 0 <= r < NUM_REGS implies #[trigger] t[r] == j[r] || t[r] == RegType::Uninit by {
            assert(t[r] == a[r] || t[r] == RegType::Uninit);
            assert(t[r] == b[r] || t[r] == RegType::Uninit);
        }
    }
}

/// Checking an instruction on types that say more never fails where checking
/// on types that say less succeeds; it follows the same successors and
/// produces types that say at least as much.
proof fn lemma_transfer_monotonic(prog: Seq<Insn>, pc: usize, s: Seq<RegType>, t: Seq<RegType>)
    requires
        pc < prog.len(),
        regs_in_range(prog[pc as int]@),
        no_more_than(t, s),
        transfer(prog, pc, t) is Ok,
    ensures
        transfer(prog, pc, s) is Ok,
        transfer(prog, pc, s)->Ok_0.1 == transfer(prog, pc, t)->Ok_0.1,
        no_more_than(transfer(prog, pc, t)->Ok_0.0, transfer(prog, pc, s)->Ok_0.0),
{
    let raw = prog[pc as int]@;
    let dst = dst_of(raw) as int;
    let sr = src_of(raw) as int;
    assert(t[dst] == s[dst] || t[dst] == RegType::Uninit);
    assert(t[sr] == s[sr] || t[sr] == RegType::Uninit);
    assert(t[0] == s[0] || t[0] == RegType::Uninit);
    let ot = types_after(t, raw, pc)->Ok_0;
    let os = types_after(s, raw, pc)->Ok_0;
    assert forall|r: int| 0 <= r < NUM_REGS implies #[trigger] ot[r] == os[r] || ot[r] == RegType::Uninit by {
        assert(t[r] == s[r] || t[r] == RegType::Uninit);
    }
}

/// The types after an instruction cover the same registers.
proof fn lemma_types_after_len(s: Seq<RegType>, raw: u64, pc: usize)
    requires
        s.len() == NUM_REGS,
        regs_in_range(raw),
        types_after(s, raw, pc) is Ok,
    ensures
        types_after(s, raw, pc)->Ok_0.len() == NUM_REGS,
{
}

/// The number of registers with a known type.
pub open spec fn known(s: Seq<RegType>) -> nat
    decreases s.len(),
{
    if s.len() == 0 {
        0
    } else {
        known(s.drop_last()) + if s.last() == RegType::Uninit { 0nat } else { 1nat }
    }
}

/// Types that say no more know no more registers, and strictly fewer when
/// they differ.
proof fn lemma_known_decreases(t: Seq<RegType>, s: Seq<RegType>, n: nat)
    requires
        t.len() == s.len() == n,
        forall|r: int| 0 <= r < n ==> #[trigger] t[r] == s[r] || t[r] == RegType::Uninit,
    ensures
        known(t) <= known(s) <= n,
        t != s ==> known(t) < known(s),
    decreases n,
{
    if n > 0 {
        let t2 = t.drop_last();
        let s2 = s.drop_last();
        assert forall|r: int| 0 <= r < n - 1 implies #[trigger] t2[r] == s2[r] || t2[r] == RegType::Uninit by {
            assert(t[r] == s[r] || t[r] == RegType::Uninit);
        }
        lemma_known_decreases(t2, s2, (n - 1) as nat);
        assert(t.last() == s.last() || t.last() == RegType::Uninit);
        if t != s && t2 =~= s2 {
            assert(t.last() != s.last()) by {
                if t.last() == s.last() {
                    assert(t =~= s2.push(s.last()));
                    assert(s =~= s2.push(s.last()));
                }
            }
        }
    } else {
        assert(t =~= s);
    }
}

/// What an instruction's state may still lose: 12 when untyped, else the
/// number of registers with a known type.
pub open spec fn potential(o: Option<Seq<RegType>>) -> nat {
    match o {
        None => 12,
        Some(s) => known(s),
    }
}

pub open spec fn potential_sum(states: Seq<Option<Seq<RegType>>>) -> nat
    decreases states.len(),
{
    if states.len() == 0 {
        0
    } else {
        potential_sum(states.drop_last()) + potential(states.last())
    }
}

/// Changing one state changes the sum by the change of its potential.
proof fn lemma_potential_update(states: Seq<Option<Seq<RegType>>>, i: int, x: Option<Seq<RegType>>)
    requires
        0 <= i < states.len(),
    ensures
        potential_sum(states.update(i, x)) + potential(states[i]) == potential_sum(states) + potential(x),
    decreases states.len(),
{
    let u = states.update(i, x);
    if i == states.len() - 1 {
        assert(u.drop_last() =~= states.drop_last());
    } else {
        lemma_potential_update(states.drop_last(), i, x);
        assert(u.drop_last() =~= states.drop_last().update(i, x));
    }
}

/// Each typed instruction of `weak` says no more than in `strong`, and every
/// instruction typed in `strong` is typed in `weak`.
pub open spec fn weaker_states(weak: Seq<Option<Seq<RegType>>>, strong: Seq<Option<Seq<RegType>>>) -> bool {
    &&& weak.len() == strong.len()
    &&& forall|q: int|
        #![trigger strong[q]]
        0 <= q < strong.len() && strong[q] is Some ==> weak[q] is Some && no_more_than(
            weak[q]->Some_0,
            strong[q]->Some_0,
        )
}

/// The instructions waiting to be checked again are typed.
#[verifier::opaque]
spec fn queue_ok(prog: Seq<Insn>, sv: Seq<Option<Seq<RegType>>>, w: Seq<usize>) -> bool {
    forall|i: int| 0 <= i < w.len() ==> #[trigger] w[i] < prog.len() && sv[w[i] as int] is Some
}

/// Every typed instruction that does not wait, other than `x`, is closed.
#[verifier::opaque]
spec fn closed_except(prog: Seq<Insn>, sv: Seq<Option<Seq<RegType>>>, w: Seq<usize>, x: int) -> bool {
    forall|p: int|
        #![trigger sv[p]]
        0 <= p < prog.len() && sv[p] is Some && !w.contains(p as usize) && p != x ==> closed_at(
            prog,
            sv,
            p,
        )
}

/// Every typing says no more than the states computed so far.
#[verifier::opaque]
spec fn below_typings(prog: Seq<Insn>, sv: Seq<Option<Seq<RegType>>>) -> bool {
    forall|types: Seq<Option<Seq<RegType>>>| #[trigger] is_typing(prog, types) ==> weaker_states(types, sv)
}

/// The computed states have a type per register, and the entry's state says
/// no more than the entry types.
spec fn states_wf(prog: Seq<Insn>, sv: Seq<Option<Seq<RegType>>>) -> bool {
    &&& sv.len() == prog.len()
    &&& 0 < prog.len() < usize::MAX
    &&& sv[0] is Some
    &&& no_more_than(sv[0]->Some_0, entry_types())
    &&& forall|q: int| #![trigger sv[q]] 0 <= q < sv.len() && sv[q] is Some ==> sv[q]->Some_0.len() == NUM_REGS
}

/// A closed instruction stays closed when the other states only say less.
proof fn lemma_closed_weaken(
    prog: Seq<Insn>,
    sv: Seq<Option<Seq<RegType>>>,
    sv2: Seq<Option<Seq<RegType>>>,
    p: int,
)
    requires
        closed_at(prog, sv, p),
        weaker_states(sv2, sv),
        0 <= p < sv.len(),
        sv2[p] == sv[p],
    ensures
        closed_at(prog, sv2, p),
{
    let tr = transfer(prog, p as usize, sv[p]->Some_0);
    assert forall|j: int| 0 <= j < tr->Ok_0.1.len() implies {
        let q = #[trigger] tr->Ok_0.1[j];
        &&& 0 <= q < sv2.len()
        &&& sv2[q as int] is Some
        &&& no_more_than(sv2[q as int]->Some_0, tr->Ok_0.0)
    } by {
        let q = tr->Ok_0.1[j];
        assert(sv[q as int] is Some);
        lemma_no_more_than_trans(sv2[q as int]->Some_0, sv[q as int]->Some_0, tr->Ok_0.0);
    }
}

/// No typing exists when checking an instruction on states that every
/// typing says no more than fails.
proof fn lemma_error_untypable(prog: Seq<Insn>, sv: Seq<Option<Seq<RegType>>>, pc: usize)
    requires
        below_typings(prog, sv),
        states_wf(prog, sv),
        pc < prog.len(),
        sv[pc as int] is Some,
        regs_in_range(prog[pc as int]@),
        transfer(prog, pc, sv[pc as int]->Some_0) is Err,
    ensures
        !typable(prog),
{
    reveal(below_typings);
    if typable(prog) {
        let types = choose|types: Seq<Option<Seq<RegType>>>| #[trigger] is_typing(prog, types);
        assert(weaker_states(types, sv));
        assert(sv[pc as int] is Some);
        assert(types[pc as int] is Some);
        assert(closed_at(prog, types, pc as int));
        lemma_transfer_monotonic(prog, pc, sv[pc as int]->Some_0, types[pc as int]->Some_0);
    }
}

/// Giving successor `q` of `pc` the state `x`, which says no more than what
/// `pc` produces and no more than `q`'s state so far, keeps every typing below
/// the states.
proof fn lemma_update_below(
    prog: Seq<Insn>,
    sv: Seq<Option<Seq<RegType>>>,
    pc: usize,
    s0: Seq<RegType>,
    q: usize,
    x: Seq<RegType>,
)
    requires
        below_typings(prog, sv),
        pc < prog.len(),
        sv.len() == prog.len(),
        q < prog.len(),
        regs_in_range(prog[pc as int]@),
        transfer(prog, pc, s0) is Ok,
        transfer(prog, pc, s0)->Ok_0.1.contains(q),
        forall|types: Seq<Option<Seq<RegType>>>|
            #[trigger] is_typing(prog, types) ==> types[pc as int] is Some && no_more_than(
                types[pc as int]->Some_0,
                s0,
            ),
        forall|t: Seq<RegType>|
            no_more_than(t, transfer(prog, pc, s0)->Ok_0.0) && (sv[q as int] is Some ==> no_more_than(
                t,
                sv[q as int]->Some_0,
            )) ==> #[trigger] no_more_than(t, x),
    ensures
        below_typings(prog, sv.update(q as int, Some(x))),
{
    reveal(below_typings);
    let sv2 = sv.update(q as int, Some(x));
    assert forall|types: Seq<Option<Seq<RegType>>>| #[trigger] is_typing(prog, types) implies weaker_states(
        types,
        sv2,
    ) by {
        assert(weaker_states(types, sv));
        let tp = types[pc as int]->Some_0;
        assert(closed_at(prog, types, pc as int));
        lemma_transfer_monotonic(prog, pc, s0, tp);
        let succ = transfer(prog, pc, tp)->Ok_0.1;
        let j = choose|j: int| 0 <= j < succ.len() && succ[j] == q;
        assert(types[q as int] is Some);
        let tq = types[q as int]->Some_0;
        lemma_no_more_than_trans(tq, transfer(prog, pc, tp)->Ok_0.0, transfer(prog, pc, s0)->Ok_0.0);
        assert(no_more_than(tq, x));
        assert forall|r: int|
            #![trigger sv2[r]]
            0 <= r < sv2.len() && sv2[r] is Some implies types[r] is Some && no_more_than(
                types[r]->Some_0,
                sv2[r]->Some_0,
            ) by {
            if r != q {
                assert(sv[r] is Some);
            }
        }
    }
}

/// What holds while the successors of `pc` are given their states: the
/// successors handled so far say no more than what `pc` produces, unless `pc`
/// waits to be checked again.
spec fn pc_progress(
    sv: Seq<Option<Seq<RegType>>>,
    w: Seq<usize>,
    pc: usize,
    s0: Seq<RegType>,
    out: Seq<RegType>,
    ss: Seq<usize>,
    k: int,
) -> bool {
    ||| w.contains(pc)
    ||| {
        &&& sv[pc as int] == Some(s0)
        &&& forall|j: int|
            #![trigger ss[j]]
            0 <= j < k ==> sv[ss[j] as int] is Some && no_more_than(sv[ss[j] as int]->Some_0, out)
    }
}

/// The successors found by checking an instruction lie inside the program.
proof fn lemma_successors_in_range(prog: Seq<Insn>, pc: usize, s: Seq<RegType>)
    requires
        transfer(prog, pc, s) is Ok,
    ensures
        forall|j: int|
            0 <= j < transfer(prog, pc, s)->Ok_0.1.len() ==> #[trigger] transfer(prog, pc, s)->Ok_0.1[j]
                < prog.len(),
{
}

/// Taking the first waiting instruction out of the queue.
proof fn lemma_pop(prog: Seq<Insn>, sv: Seq<Option<Seq<RegType>>>, w: Seq<usize>)
    requires
        queue_ok(prog, sv, w),
        closed_except(prog, sv, w, -1),
        w.len() > 0,
        prog.len() < usize::MAX,
    ensures
        w[0] < prog.len(),
        sv[w[0] as int] is Some,
        queue_ok(prog, sv, w.subrange(1, w.len() as int)),
        closed_except(prog, sv, w.subrange(1, w.len() as int), w[0] as int),
{
    reveal(queue_ok);
    reveal(closed_except);
    let rest = w.subrange(1, w.len() as int);
    assert(w[0] < prog.len());
    assert forall|i: int| 0 <= i < rest.len() implies #[trigger] rest[i] < prog.len() && sv[rest[i] as int] is Some by {
        assert(rest[i] == w[i + 1]);
    }
    assert forall|p: int|
        #![trigger sv[p]]
        0 <= p < prog.len() && sv[p] is Some && !rest.contains(p as usize) && p != w[0] as int implies closed_at(prog, sv, p) by {
        assert(!w.contains(p as usize)) by {
            if w.contains(p as usize) {
                let i = choose|i: int| 0 <= i < w.len() && w[i] == p as usize;
                if i > 0 {
                    assert(rest[i - 1] == p as usize);
                }
            }
        }
    }
}

/// Every typing says no more than the state of the instruction being checked.
proof fn lemma_typings_below_at(prog: Seq<Insn>, sv: Seq<Option<Seq<RegType>>>, pc: usize)
    requires
        below_typings(prog, sv),
        pc < sv.len(),
        sv[pc as int] is Some,
    ensures
        forall|types: Seq<Option<Seq<RegType>>>|
            #[trigger] is_typing(prog, types) ==> types[pc as int] is Some && no_more_than(
                types[pc as int]->Some_0,
                sv[pc as int]->Some_0,
            ),
{
    reveal(below_typings);
    assert forall|types: Seq<Option<Seq<RegType>>>| #[trigger] is_typing(prog, types) implies types[pc as int] is Some
        && no_more_than(types[pc as int]->Some_0, sv[pc as int]->Some_0) by {
        assert(weaker_states(types, sv));
        assert(sv[pc as int] is Some);
    }
}

/// Giving successor `ss[k]` of `pc` the state `x`, which says no more than
/// what `pc` produces and strictly less than the successor's state so far, and
/// queueing it.
proof fn lemma_step_update(
    prog: Seq<Insn>,
    sv: Seq<Option<Seq<RegType>>>,
    w: Seq<usize>,
    pc: usize,
    s0: Seq<RegType>,
    k: int,
    x: Seq<RegType>,
)
    requires
        pc < prog.len(),
        regs_in_range(prog[pc as int]@),
        s0.len() == NUM_REGS,
        transfer(prog, pc, s0) is Ok,
        0 <= k < transfer(prog, pc, s0)->Ok_0.1.len(),
        states_wf(prog, sv),
        queue_ok(prog, sv, w),
        below_typings(prog, sv),
        closed_except(prog, sv, w, pc as int),
        forall|types: Seq<Option<Seq<RegType>>>|
            #[trigger] is_typing(prog, types) ==> types[pc as int] is Some && no_more_than(
                types[pc as int]->Some_0,
                s0,
            ),
        pc_progress(sv, w, pc, s0, transfer(prog, pc, s0)->Ok_0.0, transfer(prog, pc, s0)->Ok_0.1, k),
        ({
            let q = transfer(prog, pc, s0)->Ok_0.1[k];
            &&& no_more_than(x, transfer(prog, pc, s0)->Ok_0.0)
            &&& sv[q as int] is Some ==> no_more_than(x, sv[q as int]->Some_0) && x != sv[q as int]->Some_0
            &&& forall|t: Seq<RegType>|
                no_more_than(t, transfer(prog, pc, s0)->Ok_0.0) && (sv[q as int] is Some ==> no_more_than(
                    t,
                    sv[q as int]->Some_0,
                )) ==> #[trigger] no_more_than(t, x)
        }),
    ensures
        ({
            let q = transfer(prog, pc, s0)->Ok_0.1[k];
            let sv2 = sv.update(q as int, Some(x));
            let w2 = w.push(q);
            &&& states_wf(prog, sv2)
            &&& queue_ok(prog, sv2, w2)
            &&& below_typings(prog, sv2)
            &&& closed_except(prog, sv2, w2, pc as int)
            &&& pc_progress(sv2, w2, pc, s0, transfer(prog, pc, s0)->Ok_0.0, transfer(prog, pc, s0)->Ok_0.1, k + 1)
            &&& weaker_states(sv2, sv)
            &&& 2 * potential_sum(sv2) + w2.len() < 2 * potential_sum(sv) + w.len()
        }),
{
    let tr = transfer(prog, pc, s0)->Ok_0;
    let out = tr.0;
    let ss = tr.1;
    let q = ss[k];
    lemma_successors_in_range(prog, pc, s0);
    assert(q < prog.len());
    let sv2 = sv.update(q as int, Some(x));
    let w2 = w.push(q);
    lemma_update_below(prog, sv, pc, s0, q, x);
    // the new state is weaker than the old one
    assert(weaker_states(sv2, sv)) by {
        assert forall|r: int|
            #![trigger sv[r]]
            0 <= r < sv.len() && sv[r] is Some implies sv2[r] is Some && no_more_than(sv2[r]->Some_0, sv[r]->Some_0) by {
            if r != q {
                assert(sv[r]->Some_0.len() == NUM_REGS);
                assert forall|i: int| 0 <= i < NUM_REGS implies #[trigger] sv[r]->Some_0[i] == sv[r]->Some_0[i]
                    || sv[r]->Some_0[i] == RegType::Uninit by {}
            }
        }
    }
    assert(states_wf(prog, sv2)) by {
        if q == 0 {
            lemma_no_more_than_trans(x, sv[0]->Some_0, entry_types());
        }
        assert forall|r: int| #![trigger sv2[r]] 0 <= r < sv2.len() && sv2[r] is Some implies sv2[r]->Some_0.len() == NUM_REGS by {
            if r != q {
                assert(sv[r] is Some);
            }
        }
    }
    assert(queue_ok(prog, sv2, w2)) by {
        reveal(queue_ok);
        assert forall|i: int| 0 <= i < w2.len() implies #[trigger] w2[i] < prog.len() && sv2[w2[i] as int] is Some by {
            if i < w.len() {
                assert(w2[i] == w[i]);
                assert(sv[w[i] as int] is Some);
            }
        }
    }
    assert(closed_except(prog, sv2, w2, pc as int)) by {
        reveal(closed_except);
        assert forall|p: int|
            #![trigger sv2[p]]
            0 <= p < prog.len() && sv2[p] is Some && !w2.contains(p as usize) && p != pc as int implies closed_at(prog, sv2, p) by {
            assert(w2[w.len() as int] == q);
            assert(p != q as int);
            assert(sv[p] is Some);
            assert(!w.contains(p as usize)) by {
                if w.contains(p as usize) {
                    let i = choose|i: int| 0 <= i < w.len() && w[i] == p as usize;
                    assert(w2[i] == p as usize);
                }
            }
            assert(closed_at(prog, sv, p));
            lemma_closed_weaken(prog, sv, sv2, p);
        }
    }
    assert(pc_progress(sv2, w2, pc, s0, out, ss, k + 1)) by {
        if !w2.contains(pc) {
            assert(!w.contains(pc)) by {
                if w.contains(pc) {
                    let i = choose|i: int| 0 <= i < w.len() && w[i] == pc;
                    assert(w2[i] == pc);
                }
            }
            assert(q != pc) by {
                assert(w2[w.len() as int] == q);
            }
            assert forall|j: int|
                #![trigger ss[j]]
                0 <= j < k + 1 implies sv2[ss[j] as int] is Some && no_more_than(sv2[ss[j] as int]->Some_0, out) by {
                if j < k && ss[j] != q {
                    assert(sv[ss[j] as int] is Some);
                } else if j < k {
                    assert(sv[ss[j] as int] is Some);
                }
            }
        }
    }
    // the potential drops
    lemma_potential_update(sv, q as int, Some(x));
    if sv[q as int] is Some {
        assert forall|r: int| 0 <= r < NUM_REGS implies #[trigger] x[r] == sv[q as int]->Some_0[r] || x[r] == RegType::Uninit by {
            assert(no_more_than(x, sv[q as int]->Some_0));
        }
        lemma_known_decreases(x, sv[q as int]->Some_0, NUM_REGS as nat);
    } else {
        assert forall|r: int| 0 <= r < NUM_REGS implies #[trigger] x[r] == x[r] || x[r] == RegType::Uninit by {}
        lemma_known_decreases(x, x, NUM_REGS as nat);
    }
}

/// Leaving successor `ss[k]` of `pc` as it is, when its state already says no
/// more than what `pc` produces.
proof fn lemma_step_same(
    sv: Seq<Option<Seq<RegType>>>,
    w: Seq<usize>,
    pc: usize,
    s0: Seq<RegType>,
    out: Seq<RegType>,
    ss: Seq<usize>,
    k: int,
)
    requires
        0 <= k < ss.len(),
        pc_progress(sv, w, pc, s0, out, ss, k),
        sv[ss[k] as int] is Some,
        no_more_than(sv[ss[k] as int]->Some_0, out),
    ensures
        pc_progress(sv, w, pc, s0, out, ss, k + 1),
{
    if !w.contains(pc) {
        assert forall|j: int|
            #![trigger ss[j]]
            0 <= j < k + 1 implies sv[ss[j] as int] is Some && no_more_than(sv[ss[j] as int]->Some_0, out) by {}
    }
}

/// Once all successors of `pc` are handled, `pc` is closed or waits.
proof fn lemma_close_pc(prog: Seq<Insn>, sv: Seq<Option<Seq<RegType>>>, w: Seq<usize>, pc: usize, s0: Seq<RegType>)
    requires
        pc < prog.len(),
        sv.len() == prog.len(),
        transfer(prog, pc, s0) is Ok,
        closed_except(prog, sv, w, pc as int),
        pc_progress(
            sv,
            w,
            pc,
            s0,
            transfer(prog, pc, s0)->Ok_0.0,
            transfer(prog, pc, s0)->Ok_0.1,
            transfer(prog, pc, s0)->Ok_0.1.len() as int,
        ),
    ensures
        closed_except(prog, sv, w, -1),
{
    reveal(closed_except);
    lemma_successors_in_range(prog, pc, s0);
    if !w.contains(pc) {
        let tr = transfer(prog, pc, s0)->Ok_0;
        assert forall|j: int| 0 <= j < tr.1.len() implies {
            let q = #[trigger] tr.1[j];
            &&& 0 <= q < sv.len()
            &&& sv[q as int] is Some
            &&& no_more_than(sv[q as int]->Some_0, tr.0)
        } by {
            assert(tr.1[j] == tr.1[j]);
        }
        assert(closed_at(prog, sv, pc as int));
    }
}

/// With nothing waiting, the computed states are a typing.
proof fn lemma_done_typing(prog: Seq<Insn>, sv: Seq<Option<Seq<RegType>>>)
    requires
        states_wf(prog, sv),
        closed_except(prog, sv, Seq::empty(), -1),
    ensures
        is_typing(prog, sv),
        typable(prog),
{
    reveal(closed_except);
    assert forall|p: int| #![trigger sv[p]] 0 <= p < sv.len() && sv[p] is Some implies closed_at(prog, sv, p) by {
        assert(!Seq::<usize>::empty().contains(p as usize));
    }
    assert(is_typing(prog, sv));
}

/// The register types at an instruction.
struct RegState([RegType; NUM_REGS]);

impl View for RegState {
    type V = Seq<RegType>;

    closed spec fn view(&self) -> Seq<RegType> {
        self.0@
    }
}

impl Clone for RegState {
    fn clone(&self) -> (r: Self)
        ensures
            r@ == self@,
    {
        Self(self.0)
    }
}

impl RegState {
    spec fn wf(&self) -> bool {
        self@.len() == NUM_REGS
    }

    /// The entry state.
    fn new() -> (r: Self)
        ensures
            r@ == entry_types(),
    {
        let mut regs = [RegType::Uninit; NUM_REGS];
        regs[usize::from(REG_R10)] = RegType::PtrToStack;
        let r = Self(regs);
        assert(r@ =~= entry_types());
        r
    }

    fn get(&self, reg: u8) -> (t: RegType)
        requires
            reg < NUM_REGS_U8,
        ensures
            t == self@[reg as int],
    {
        self.0[usize::from(reg)]
    }

    fn set(&mut self, reg: u8, ty: RegType)
        requires
            reg < NUM_REGS_U8,
        ensures
            final(self)@ == old(self)@.update(reg as int, ty),
    {
        self.0[usize::from(reg)] = ty;
    }

    /// Joins `other` into these types, register by register.
    fn join_with(&mut self, other: &RegState)
        ensures
            final(self)@ == join_types(old(self)@, other@),
    {
        let mut idx = ENTRY_PC;
        while idx < NUM_REGS
            invariant
                idx <= NUM_REGS,
                self@.len() == NUM_REGS,
                other@.len() == NUM_REGS,
                forall|r: int| 0 <= r < idx ==> self@[r] == join_type(old(self)@[r], other@[r]),
                forall|r: int| idx <= r < NUM_REGS ==> self@[r] == old(self)@[r],
            decreases NUM_REGS - idx,
        {
            let j = RegType::join(self.0[idx], other.0[idx]);
            self.0[idx] = j;
            idx = idx + 1;
        }
        assert(self@ =~= join_types(old(self)@, other@));
    }

    fn eq_state(&self, other: &RegState) -> (b: bool)
        ensures
            b == (self@ == other@),
    {
        let mut idx = ENTRY_PC;
        while idx < NUM_REGS
            invariant
                idx <= NUM_REGS,
                self@.len() == NUM_REGS,
                other@.len() == NUM_REGS,
                forall|r: int| 0 <= r < idx ==> self@[r] == other@[r],
            decreases NUM_REGS - idx,
        {
            if self.0[idx] != other.0[idx] {
                return false;
            }
            idx = idx + 1;
        }
        assert(self@ =~= other@);
        true
    }
}

/// The states as sequences of register types.
spec fn view_states(v: Seq<Option<RegState>>) -> Seq<Option<Seq<RegType>>> {
    Seq::new(
        v.len(),
        |i: int|
            match v[i] {
                Some(r) => Some(r@),
                None => None,
            },
    )
}

pub struct TypeChecker<'a> {
    prog: &'a [Insn],
}

impl<'a> TypeChecker<'a> {
    /// The program checked.
    pub closed spec fn prog(&self) -> Seq<Insn> {
        self.prog@
    }

    #[verifier::type_invariant]
    closed spec fn inv(self) -> bool {
        self.prog@.len() < usize::MAX
    }

    /// A checker for `prog`, which has fewer than `usize::MAX` instructions,
    /// as every slice of instructions has.
    pub fn new(prog: &'a [Insn]) -> (r: Self)
        requires
            prog@.len() < usize::MAX,
        ensures
            r.prog() == prog@,
    {
        Self { prog }
    }

    /// Computes the register types at every instruction reachable from the
    /// entry, joining the types that meet; fails with the first error found.
    /// The result is `Ok` exactly when some assignment of register types makes
    /// the program check; an error is one that some instruction reports on
    /// some register types.
    pub fn check(&self) -> (r: Result<(), EbpfError>)
        ensures
            self.prog().len() == 0 ==> r == Err::<(), EbpfError>(EbpfError::ProgramEmpty),
            self.prog().len() > 0 ==> (r is Ok <==> typable(self.prog())),
            self.prog().len() > 0 ==> r == check_result(self.prog()),
            self.prog().len() > 0 ==> (r matches Err(e) ==> exists|pc: usize, s: Seq<RegType>|
                pc < self.prog().len() && s.len() == NUM_REGS && #[trigger] transfer(self.prog(), pc, s)
                    == Err::<(Seq<RegType>, Seq<usize>), EbpfError>(e)),
    {
        if self.prog.len() == 0 {
            return Err(EbpfError::ProgramEmpty);
        }
        proof {
            use_type_invariant(self);
        }
        let n = self.prog.len();
        let ghost prog = self.prog@;
        let mut states: Vec<Option<RegState>> = Vec::new();
        while states.len() < n
            invariant
                states@.len() <= n,
                forall|i: int| 0 <= i < states@.len() ==> #[trigger] states@[i] is None,
            decreases n - states@.len(),
        {
            states.push(None);
        }
        let mut worklist: VecDeque<usize> = VecDeque::new();
        states.set(ENTRY_PC, Some(RegState::new()));
        worklist.push_back(ENTRY_PC);
        proof {
            let sv = view_states(states@);
            assert(sv[0] == Some(entry_types()));
            assert forall|i: int| 0 <= i < NUM_REGS implies #[trigger] entry_types()[i] == entry_types()[i]
                || entry_types()[i] == RegType::Uninit by {}
            assert(states_wf(prog, sv)) by {
                assert forall|q: int| #![trigger sv[q]] 0 <= q < sv.len() && sv[q] is Some implies sv[q]->Some_0.len() == NUM_REGS by {
                    if q != 0 {
                        assert(states@[q] is None);
                    }
                }
            }
            assert(queue_ok(prog, sv, worklist@)) by {
                reveal(queue_ok);
            }
            assert(closed_except(prog, sv, worklist@, -1)) by {
                reveal(closed_except);
                assert forall|p: int|
                    #![trigger sv[p]]
                    0 <= p < prog.len() && sv[p] is Some && !worklist@.contains(p as usize) && p != -1 implies closed_at(prog, sv, p) by {
                    if p == 0 {
                        assert(worklist@[0] == 0);
                    } else {
                        assert(states@[p] is None);
                    }
                }
            }
            assert(below_typings(prog, sv)) by {
                reveal(below_typings);
                assert forall|types: Seq<Option<Seq<RegType>>>| #[trigger] is_typing(prog, types) implies weaker_states(types, sv) by {
                    assert forall|q: int|
                        #![trigger sv[q]]
                        0 <= q < sv.len() && sv[q] is Some implies types[q] is Some && no_more_than(types[q]->Some_0, sv[q]->Some_0) by {
                        if q != 0 {
                            assert(states@[q] is None);
                        }
                    }
                }
            }
        }
        let ghost mut fuel: nat = 2 * potential_sum(initial_types(n as nat)) + 1;
        proof {
            assert(view_states(states@) =~= initial_types(n as nat));
            assert(worklist@ =~= seq![0usize]);
        }
        loop
            invariant
                n == prog.len(),
                prog == self.prog@,
                check_from(prog, view_states(states@), worklist@, fuel) == check_result(prog),
                fuel >= 2 * potential_sum(view_states(states@)) + worklist@.len(),
                states_wf(prog, view_states(states@)),
                queue_ok(prog, view_states(states@), worklist@),
                closed_except(prog, view_states(states@), worklist@, -1),
                below_typings(prog, view_states(states@)),
            decreases 2 * potential_sum(view_states(states@)) + worklist@.len(),
        {
            let ghost sv0 = view_states(states@);
            let ghost w0 = worklist@;
            let pc = match worklist.pop_front() {
                Some(pc) => pc,
                None => {
                    proof {
                        assert(w0 =~= Seq::<usize>::empty());
                        lemma_done_typing(prog, sv0);
                    }
                    return Ok(());
                },
            };
            proof {
                lemma_pop(prog, sv0, w0);
                assert(worklist@ == w0.subrange(1, w0.len() as int));
            }
            let cur = match &states[pc] {
                Some(st) => st.clone(),
                None => {
                    proof {
                        assert(sv0[pc as int] is Some);
                    }
                    return Err(EbpfError::ProgramEmpty);
                },
            };
            let ghost s0 = cur@;
            let insn_ok = self.prog[pc].regs_valid();
            proof {
                assert(sv0[pc as int] == Some(s0));
                lemma_typings_below_at(prog, sv0, pc);
            }
            let (out, successors) = match self.apply_insn(pc, &cur) {
                Ok(res) => res,
                Err(e) => {
                    proof {
                        lemma_error_untypable(prog, sv0, pc);
                        assert(transfer(prog, pc, s0) == Err::<(Seq<RegType>, Seq<usize>), EbpfError>(e));
                        assert(w0[0] == pc);
                        assert(check_from(prog, sv0, w0, fuel) == Err::<(), EbpfError>(e));
                    }
                    return Err(e);
                },
            };
            proof {
                lemma_successors_in_range(prog, pc, s0);
                lemma_types_after_len(s0, prog[pc as int]@, pc);
            }
            let ghost w1 = worklist@;
            let mut k: usize = 0;
            while k < successors.len()
                invariant
                    propagate(view_states(states@), worklist@, out@, successors@, k as nat) == propagate(
                        sv0,
                        w1,
                        out@,
                        successors@,
                        0,
                    ),
                    n == prog.len(),
                    prog == self.prog@,
                    pc < n,
                    regs_in_range(prog[pc as int]@),
                    s0.len() == NUM_REGS,
                    transfer(prog, pc, s0) is Ok,
                    successors@ == transfer(prog, pc, s0)->Ok_0.1,
                    out@ == transfer(prog, pc, s0)->Ok_0.0,
                    out@.len() == NUM_REGS,
                    k <= successors@.len(),
                    forall|j: int| 0 <= j < successors@.len() ==> #[trigger] successors@[j] < n,
                    states_wf(prog, view_states(states@)),
                    queue_ok(prog, view_states(states@), worklist@),
                    below_typings(prog, view_states(states@)),
                    closed_except(prog, view_states(states@), worklist@, pc as int),
                    forall|types: Seq<Option<Seq<RegType>>>|
                        #[trigger] is_typing(prog, types) ==> types[pc as int] is Some && no_more_than(
                            types[pc as int]->Some_0,
                            s0,
                        ),
                    pc_progress(view_states(states@), worklist@, pc, s0, out@, successors@, k as int),
                    2 * potential_sum(view_states(states@)) + worklist@.len() < 2 * potential_sum(sv0)
                        + w0.len(),
                decreases successors@.len() - k,
            {
                let succ = successors[k];
                let ghost sv = view_states(states@);
                let ghost w = worklist@;
                let existing: Option<RegState> = match &states[succ] {
                    Some(e) => Some(e.clone()),
                    None => None,
                };
                match existing {
                    None => {
                        proof {
                            assert forall|i: int| 0 <= i < NUM_REGS implies #[trigger] out@[i] == out@[i]
                                || out@[i] == RegType::Uninit by {}
                            assert forall|t: Seq<RegType>| no_more_than(t, out@) && (sv[succ as int] is Some ==> no_more_than(
                                t,
                                sv[succ as int]->Some_0,
                            )) implies #[trigger] no_more_than(t, out@) by {}
                            lemma_step_update(prog, sv, w, pc, s0, k as int, out@);
                        }
                        states.set(succ, Some(out.clone()));
                        worklist.push_back(succ);
                        proof {
                            assert(view_states(states@) =~= sv.update(succ as int, Some(out@)));
                        }
                    },
                    Some(ex) => {
                        let mut joined = ex.clone();
                        joined.join_with(&out);
                        proof {
                            lemma_join_bounds(ex@, out@, ex@);
                            assert(sv[succ as int] == Some(ex@));
                        }
                        if !ex.eq_state(&joined) {
                            proof {
                                assert forall|t: Seq<RegType>| no_more_than(t, out@) && (sv[succ as int] is Some ==> no_more_than(
                                    t,
                                    sv[succ as int]->Some_0,
                                )) implies #[trigger] no_more_than(t, joined@) by {
                                    lemma_join_bounds(ex@, out@, t);
                                }
                                lemma_step_update(prog, sv, w, pc, s0, k as int, joined@);
                            }
                            let ghost jv = joined@;
                            states.set(succ, Some(joined));
                            worklist.push_back(succ);
                            proof {
                                assert(view_states(states@) =~= sv.update(succ as int, Some(jv)));
                            }
                        } else {
                            proof {
                                lemma_step_same(sv, w, pc, s0, out@, successors@, k as int);
                            }
                        }
                    },
                }
                k = k + 1;
            }
            proof {
                lemma_close_pc(prog, view_states(states@), worklist@, pc, s0);
                assert(w0[0] == pc);
                assert(w1 == w0.drop_first());
                assert(check_from(prog, sv0, w0, fuel) == check_from(
                    prog,
                    view_states(states@),
                    worklist@,
                    (fuel - 1) as nat,
                ));
                fuel = (fuel - 1) as nat;
            }
        }
    }

    fn is_mov(code: u8, raw: u8) -> (b: bool)
        ensures
            b == is_mov_op(code, raw),
    {
        code == op::MOV || (raw & OPCODE_OP_MASK) == OPCODE_MOV_ALT
    }

    fn is_lddw(insn: Insn) -> (b: bool)
        ensures
            b == is_lddw_op(insn@),
    {
        insn.is_wide() || insn.opcode().raw() == OPCODE_LDDW_ALT
    }

    fn push_successor(&self, pc: usize, successor: usize, successors: &mut Vec<usize>) -> (r: Result<(), EbpfError>)
        ensures
            successor >= self.prog@.len() ==> r == Err::<(), EbpfError>(EbpfError::InvalidJumpTarget { pc, target: successor })
                && final(successors)@ == old(successors)@,
            successor < self.prog@.len() ==> r is Ok && final(successors)@ == old(successors)@.push(successor),
    {
        if successor >= self.prog.len() {
            return Err(EbpfError::InvalidJumpTarget { pc, target: successor });
        }
        successors.push(successor);
        Ok(())
    }

    /// Checks the instruction at `pc` on the types in `state`, giving the
    /// types after it and its successors.
    fn apply_insn(&self, pc: usize, state: &RegState) -> (r: Result<(RegState, Vec<usize>), EbpfError>)
        requires
            pc < self.prog@.len(),
            state@.len() == NUM_REGS,
        ensures
            match transfer(self.prog@, pc, state@) {
                Ok((o, ss)) => r matches Ok((out, v)) && out@ == o && v@ == ss,
                Err(e) => r matches Err(e2) && e2 == e,
            },
    {
        proof {
            use_type_invariant(self);
        }
        let insn = self.prog[pc];
        let opcode = insn.opcode();
        let dst = insn.dst();
        let src_reg = insn.src();
        let mut out = state.clone();
        let mut successors: Vec<usize> = Vec::new();
        let cls = opcode.class();
        let next_pc = pc + 1;
        let target_wide: i128 = (pc as i128) + 1 + (insn.off() as i128);
        let target = target_wide as usize;
        assert(target == (pc + 1 + off_of(insn@)) as usize);
        assert(self.prog@.len() == self.prog.len());
        if cls == class::ALU64 || cls == class::ALU {
            let opcode_src = opcode.source();
            if Self::is_mov(opcode.code(), opcode.raw()) {
                if opcode_src == src::IMM {
                    out.set(dst, RegType::Scalar);
                } else {
                    let src_ty = state.get(src_reg);
                    if src_ty == RegType::Uninit {
                        return Err(EbpfError::UseBeforeInit { pc, reg: src_reg });
                    }
                    out.set(dst, src_ty);
                }
            } else if opcode_src == src::IMM {
                let dst_ty = state.get(dst);
                if dst_ty == RegType::Uninit {
                    return Err(EbpfError::UseBeforeInit { pc, reg: dst });
                }
                if is_ptr(dst_ty) {
                    return Err(EbpfError::InvalidPtrArithmetic { pc });
                }
                out.set(dst, RegType::Scalar);
            } else {
                let dst_ty = state.get(dst);
                if dst_ty == RegType::Uninit {
                    return Err(EbpfError::UseBeforeInit { pc, reg: dst });
                }
                let src_ty = state.get(src_reg);
                if src_ty == RegType::Uninit {
                    return Err(EbpfError::UseBeforeInit { pc, reg: src_reg });
                }
                if is_ptr(dst_ty) || is_ptr(src_ty) {
                    return Err(EbpfError::InvalidPtrArithmetic { pc });
                }
                out.set(dst, RegType::Scalar);
            }
            self.push_successor(pc, next_pc, &mut successors)?;
        } else if cls == class::JMP || cls == class::JMP32 {
            if opcode.code() == op::EXIT {
                if state.get(REG_R0) == RegType::Uninit {
                    return Err(EbpfError::UseBeforeInit { pc, reg: REG_R0 });
                }
            } else if opcode.code() == op::CALL {
                out.set(REG_R0, RegType::Scalar);
                let mut reg = REG_R1;
                while reg <= REG_R5
                    invariant
                        REG_R1 <= reg <= REG_R5 + 1,
                        out@.len() == NUM_REGS,
                        forall|r: int| 0 <= r < NUM_REGS ==> #[trigger] out@[r] == (if r == 0 {
                            RegType::Scalar
                        } else if 1 <= r < reg {
                            RegType::Uninit
                        } else {
                            state@[r]
                        }),
                    decreases REG_R5 + 1 - reg,
                {
                    out.set(reg, RegType::Uninit);
                    reg = reg + 1;
                }
                assert(out@ =~= state@.update(0, RegType::Scalar).update(1, RegType::Uninit).update(
                    2,
                    RegType::Uninit,
                ).update(3, RegType::Uninit).update(4, RegType::Uninit).update(5, RegType::Uninit));
                self.push_successor(pc, next_pc, &mut successors)?;
            } else if opcode.code() == op::JA {
                self.push_successor(pc, target, &mut successors)?;
            } else {
                if state.get(dst) == RegType::Uninit {
                    return Err(EbpfError::UseBeforeInit { pc, reg: dst });
                }
                if opcode.source() == src::REG {
                    if state.get(src_reg) == RegType::Uninit {
                        return Err(EbpfError::UseBeforeInit { pc, reg: src_reg });
                    }
                }
                self.push_successor(pc, next_pc, &mut successors)?;
                self.push_successor(pc, target, &mut successors)?;
            }
        } else if cls == class::LDX {
            let base_ty = state.get(src_reg);
            if base_ty == RegType::Uninit {
                return Err(EbpfError::UseBeforeInit { pc, reg: src_reg });
            }
            if base_ty == RegType::Scalar {
                return Err(EbpfError::TypeMismatch { pc });
            }
            out.set(dst, RegType::Scalar);
            self.push_successor(pc, next_pc, &mut successors)?;
        } else if cls == class::ST || cls == class::STX {
            let base_ty = state.get(dst);
            if base_ty == RegType::Uninit {
                return Err(EbpfError::UseBeforeInit { pc, reg: dst });
            }
            if base_ty == RegType::Scalar {
                return Err(EbpfError::TypeMismatch { pc });
            }
            if cls == class::STX && state.get(src_reg) == RegType::Uninit {
                return Err(EbpfError::UseBeforeInit { pc, reg: src_reg });
            }
            self.push_successor(pc, next_pc, &mut successors)?;
        } else {
            if !Self::is_lddw(insn) {
                return Err(EbpfError::InvalidInstruction { pc });
            }
            out.set(dst, RegType::Scalar);
            let after_wide = pc + 2;
            self.push_successor(pc, after_wide, &mut successors)?;
        }
        assert(successors@ =~= successors_of(self.prog@.len(), insn@, pc)->Ok_0);
        Ok((out, successors))
    }
}

} // verus!
