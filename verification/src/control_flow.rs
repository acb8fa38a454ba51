//! Control-flow checking: every instruction must be reachable from the entry,
//! every jump must go forward and stay inside the program, and no path may
//! fall off its end.
use vstd::prelude::*;

use crate::error::EbpfError;
use crate::insn::{is_wide_raw, off_of, opcode_of, Insn};
use crate::opcode::{class, class_of, code_of, op};

verus! {

/// The conditional jump codes: JEQ..JSGE and JLT..JSLE.
pub open spec fn conditional_code(code: u8) -> bool {
    (op::JEQ <= code && code <= op::JSGE) || (0x0a <= code && code <= 0x0d)
}

/// The target of a jump at `pc` by `off`, if it lies ahead of `pc` inside a
/// program of `len` instructions.
pub open spec fn jump_check(len: nat, pc: usize, off: i16) -> Result<usize, EbpfError> {
    let t = pc + 1 + off;
    if t < 0 || t >= len {
        Err(EbpfError::InvalidJumpTarget { pc, target: t as usize })
    } else if t <= pc {
        Err(EbpfError::BackEdge { pc })
    } else {
        Ok(t as usize)
    }
}

/// The instruction after `pc`, if there is one.
pub open spec fn fall_through(len: nat, pc: usize) -> Result<usize, EbpfError> {
    if pc + 1 >= len {
        Err(EbpfError::FallthroughEnd { pc })
    } else {
        Ok((pc + 1) as usize)
    }
}

/// A conditional jump: its target, then the instruction after it.
pub open spec fn branch(len: nat, pc: usize, off: i16) -> Result<Seq<usize>, EbpfError> {
    match jump_check(len, pc, off) {
        Err(e) => Err(e),
        Ok(t) => match fall_through(len, pc) {
            Err(e) => Err(e),
            Ok(f) => Ok(seq![t, f]),
        },
    }
}

/// The successors of the instruction at `pc`, in the order they are
/// explored, or the defect found at `pc`.
pub open spec fn cfg_node(prog: Seq<Insn>, pc: usize) -> Result<Seq<usize>, EbpfError> {
    let len = prog.len();
    let raw = prog[pc as int]@;
    let opc = opcode_of(raw);
    let cls = class_of(opc);
    let code = code_of(opc);
    if is_wide_raw(raw) {
        if pc + 1 >= len {
            Err(EbpfError::InvalidJumpTarget { pc, target: (pc + 1) as usize })
        } else if pc + 2 < len {
            Ok(seq![(pc + 2) as usize])
        } else {
            Err(EbpfError::FallthroughEnd { pc })
        }
    } else if cls == class::JMP {
        if code == op::EXIT {
            Ok(Seq::empty())
        } else if code == op::JA {
            match jump_check(len, pc, off_of(raw)) {
                Ok(t) => Ok(seq![t]),
                Err(e) => Err(e),
            }
        } else if code == op::CALL {
            match fall_through(len, pc) {
                Ok(f) => Ok(seq![f]),
                Err(e) => Err(e),
            }
        } else if conditional_code(code) {
            branch(len, pc, off_of(raw))
        } else {
            Err(EbpfError::UnknownOpcode { pc, opcode: opc })
        }
    } else if cls == class::JMP32 {
        if conditional_code(code) {
            branch(len, pc, off_of(raw))
        } else {
            Err(EbpfError::UnknownOpcode { pc, opcode: opc })
        }
    } else {
        match fall_through(len, pc) {
            Ok(f) => Ok(seq![f]),
            Err(e) => Err(e),
        }
    }
}

/// `q` follows `p` in the control-flow graph.
pub open spec fn edge(prog: Seq<Insn>, p: usize, q: usize) -> bool {
    &&& p < prog.len()
    &&& cfg_node(prog, p) matches Ok(succ)
    &&& succ.contains(q)
}

/// `path` leads from the entry through instructions outside `skip`.
pub open spec fn is_path(prog: Seq<Insn>, skip: Set<int>, path: Seq<usize>) -> bool {
    &&& path.len() > 0
    &&& path[0] == 0
    &&& forall|i: int| 0 <= i < path.len() ==> #[trigger] path[i] < prog.len() && !skip.contains(
        path[i] as int,
    )
    &&& forall|i: int| 0 <= i < path.len() - 1 ==> edge(prog, #[trigger] path[i], path[i + 1])
}

/// `pc` can be reached from the entry without passing through `skip`.
pub open spec fn reachable(prog: Seq<Insn>, skip: Set<int>, pc: usize) -> bool {
    exists|path: Seq<usize>| #[trigger] is_path(prog, skip, path) && path.last() == pc
}

/// The instructions that can be reached without passing through `skip`.
pub open spec fn reach_set(prog: Seq<Insn>, skip: Set<int>) -> Set<int> {
    Set::new(|pc: int| 0 <= pc < prog.len() && reachable(prog, skip, pc as usize))
}

/// No instruction that can be reached has a defect.
pub open spec fn sound_cfg(prog: Seq<Insn>, skip: Set<int>) -> bool {
    forall|pc: usize| #[trigger] reachable(prog, skip, pc) ==> cfg_node(prog, pc) is Ok
}

/// Every instruction is in `skip` or can be reached.
pub open spec fn covered(prog: Seq<Insn>, skip: Set<int>) -> bool {
    forall|pc: usize| 0 <= pc < prog.len() ==> skip.contains(pc as int) || #[trigger] reachable(
        prog,
        skip,
        pc,
    )
}

/// Bit `b` of `w`.
pub open spec fn bit(w: u64, b: u64) -> bool {
    (w >> b) & 1 == 1
}

proof fn lemma_bit_set(w: u64, b: u64, c: u64)
    requires
        b < 64,
        c < 64,
    ensures
        bit(w | (1u64 << b), c) == (c == b || bit(w, c)),
{
    assert((((w | (1u64 << b)) >> c) & 1 == 1) == (c == b || ((w >> c) & 1 == 1))) by (bit_vector)
        requires
            b < 64,
            c < 64,
    ;
}

/// The defect that a failed check reports lies on a reachable instruction,
/// or, when the reachable part has none, is the first instruction that is
/// neither skipped nor reachable.
pub open spec fn explains(prog: Seq<Insn>, skip: Set<int>, e: EbpfError) -> bool {
    ||| exists|pc: usize| #[trigger] reachable(prog, skip, pc) && cfg_node(prog, pc) == Err::<
        Seq<usize>,
        EbpfError,
    >(e)
    ||| e matches EbpfError::UnreachableInstruction { pc } && sound_cfg(prog, skip) && pc
        < prog.len() && !skip.contains(pc as int) && !reachable(prog, skip, pc) && forall|q: usize|
        q < pc ==> skip.contains(q as int) || #[trigger] reachable(prog, skip, q)
}

/// The outcome of the depth-first search from the stack `stack`, taking the
/// last pending instruction first, for at most `fuel` steps: an instruction
/// already in `marks` is passed over; any other is marked and, unless it has
/// a defect, its successors are pushed in order. The first defect met is the
/// error.
pub open spec fn search_from(prog: Seq<Insn>, marks: Set<int>, stack: Seq<usize>, fuel: nat) -> Result<
    (),
    EbpfError,
>
    decreases fuel,
{
    if stack.len() == 0 || fuel == 0 {
        Ok(())
    } else {
        let pc = stack.last();
        if marks.contains(pc as int) {
            search_from(prog, marks, stack.drop_last(), (fuel - 1) as nat)
        } else {
            match cfg_node(prog, pc) {
                Err(e) => Err(e),
                Ok(succ) => search_from(
                    prog,
                    marks.insert(pc as int),
                    stack.drop_last() + succ,
                    (fuel - 1) as nat,
                ),
            }
        }
    }
}

/// The search from the entry, with steps enough to empty the stack.
pub open spec fn search_result(prog: Seq<Insn>, marks: Set<int>) -> Result<(), EbpfError> {
    search_from(prog, marks, seq![0usize], 3 * prog.len() + 1)
}

/// An instruction has at most two successors.
proof fn lemma_node_small(prog: Seq<Insn>, pc: usize)
    requires
        cfg_node(prog, pc) is Ok,
    ensures
        cfg_node(prog, pc)->Ok_0.len() <= 2,
{
}

/// `p` can be reached, has no defect, and each of its successors is in
/// `marks` or waits in `pending`.
pub open spec fn explored(prog: Seq<Insn>, skip: Set<int>, marks: Set<int>, pending: Seq<usize>, p: usize) -> bool {
    &&& reachable(prog, skip, p)
    &&& cfg_node(prog, p) is Ok
    &&& forall|j: int|
        0 <= j < cfg_node(prog, p)->Ok_0.len() ==> marks.contains(cfg_node(prog, p)->Ok_0[j] as int)
            || pending.contains(cfg_node(prog, p)->Ok_0[j])
}

/// A set of instructions that holds the entry and, for each instruction in it
/// outside `skip`, all its successors, holds every instruction on a path.
proof fn lemma_closed_set_holds_paths(
    prog: Seq<Insn>,
    skip: Set<int>,
    marks: Set<int>,
    path: Seq<usize>,
)
    requires
        is_path(prog, skip, path),
        marks.contains(0),
        forall|p: usize|
            #![trigger marks.contains(p as int)]
            marks.contains(p as int) && !skip.contains(p as int) ==> explored(
                prog,
                skip,
                marks,
                Seq::empty(),
                p,
            ),
    ensures
        marks.contains(path.last() as int),
    decreases path.len(),
{
    if path.len() > 1 {
        let prefix = path.drop_last();
        assert(is_path(prog, skip, prefix)) by {
            assert forall|i: int| 0 <= i < prefix.len() - 1 implies edge(
                prog,
                #[trigger] prefix[i],
                prefix[i + 1],
            ) by {
                assert(edge(prog, path[i], path[i + 1]));
            }
        }
        lemma_closed_set_holds_paths(prog, skip, marks, prefix);
        let p = path[path.len() - 2];
        assert(edge(prog, p, path.last()));
        assert(!skip.contains(p as int));
        let succ = cfg_node(prog, p)->Ok_0;
        let j = choose|j: int| 0 <= j < succ.len() && succ[j] == path.last();
        assert(marks.contains(succ[j] as int));
    }
}

/// What holds while the reachable instructions are explored: each pending
/// instruction is the entry or a successor of an explored one, each explored
/// instruction is reachable and has no defect and its successors are marked or
/// pending, and the entry is marked or pending.
#[verifier::opaque]
spec fn search_inv(
    prog: Seq<Insn>,
    skip: Set<int>,
    marks: Set<int>,
    pending: Seq<usize>,
    preds: Seq<int>,
) -> bool {
    &&& prog.len() <= usize::MAX
    &&& preds.len() == pending.len()
    &&& forall|i: int|
        0 <= i < pending.len() ==> #[trigger] pending[i] < prog.len() && (if preds[i] == -1 {
            pending[i] == 0
        } else {
            0 <= preds[i] && marks.contains(preds[i]) && !skip.contains(preds[i]) && edge(
                prog,
                preds[i] as usize,
                pending[i],
            )
        })
    &&& forall|p: usize|
        #![trigger marks.contains(p as int)]
        marks.contains(p as int) && !skip.contains(p as int) ==> explored(prog, skip, marks, pending, p)
    &&& marks.contains(0) || pending.contains(0)
    &&& forall|p: int| #[trigger] marks.contains(p) ==> 0 <= p < prog.len()
}

/// Appending a step along an edge to a path gives a path.
proof fn lemma_path_extend(prog: Seq<Insn>, skip: Set<int>, path: Seq<usize>, q: usize)
    requires
        is_path(prog, skip, path),
        edge(prog, path.last(), q),
        q < prog.len(),
        !skip.contains(q as int),
    ensures
        is_path(prog, skip, path.push(q)),
{
    let longer = path.push(q);
    assert forall|i: int| 0 <= i < longer.len() - 1 implies edge(
        prog,
        #[trigger] longer[i],
        longer[i + 1],
    ) by {
        if i < path.len() - 1 {
            assert(edge(prog, path[i], path[i + 1]));
        }
    }
    assert forall|i: int| 0 <= i < longer.len() implies #[trigger] longer[i] < prog.len()
        && !skip.contains(longer[i] as int) by {
        if i < path.len() {
            assert(path[i] < prog.len() && !skip.contains(path[i] as int));
        }
    }
}

/// The last pending instruction, when not marked, can be reached.
proof fn lemma_search_reach(
    prog: Seq<Insn>,
    skip: Set<int>,
    marks: Set<int>,
    pending: Seq<usize>,
    preds: Seq<int>,
)
    requires
        search_inv(prog, skip, marks, pending, preds),
        skip.subset_of(marks),
        pending.len() > 0,
        !marks.contains(pending.last() as int),
    ensures
        reachable(prog, skip, pending.last()),
        pending.last() < prog.len(),
{
    reveal(search_inv);
    let i = pending.len() - 1;
    let pc = pending[i];
    assert(pc < prog.len());
    if preds[i] == -1 {
        let path = seq![0usize];
        assert(is_path(prog, skip, path));
    } else {
        let p = preds[i] as usize;
        assert(marks.contains(p as int));
        assert(explored(prog, skip, marks, pending, p));
        let path = choose|path: Seq<usize>| #[trigger] is_path(prog, skip, path) && path.last() == p;
        lemma_path_extend(prog, skip, path, pc);
        assert(path.push(pc).last() == pc);
    }
}

/// Pending instructions lie inside the program.
proof fn lemma_search_last(
    prog: Seq<Insn>,
    skip: Set<int>,
    marks: Set<int>,
    pending: Seq<usize>,
    preds: Seq<int>,
)
    requires
        search_inv(prog, skip, marks, pending, preds),
        pending.len() > 0,
    ensures
        pending.last() < prog.len(),
{
    reveal(search_inv);
    assert(pending[pending.len() - 1] < prog.len());
}

/// Dropping a pending instruction that is already marked keeps the invariant.
proof fn lemma_search_skip(
    prog: Seq<Insn>,
    skip: Set<int>,
    marks: Set<int>,
    pending: Seq<usize>,
    preds: Seq<int>,
)
    requires
        search_inv(prog, skip, marks, pending, preds),
        pending.len() > 0,
        marks.contains(pending.last() as int),
    ensures
        search_inv(prog, skip, marks, pending.drop_last(), preds.drop_last()),
{
    reveal(search_inv);
    let rest = pending.drop_last();
    let last = pending.len() - 1;
    assert forall|i: int| 0 <= i < rest.len() implies #[trigger] rest[i] < prog.len() && (if preds.drop_last()[i] == -1 {
        rest[i] == 0
    } else {
        0 <= preds.drop_last()[i] && marks.contains(preds.drop_last()[i]) && !skip.contains(preds.drop_last()[i]) && edge(
            prog,
            preds.drop_last()[i] as usize,
            rest[i],
        )
    }) by {
        assert(rest[i] == pending[i]);
    }
    assert forall|p: usize|
        #![trigger marks.contains(p as int)]
        marks.contains(p as int) && !skip.contains(p as int) implies explored(prog, skip, marks, rest, p) by {
        assert(explored(prog, skip, marks, pending, p));
        let succ = cfg_node(prog, p)->Ok_0;
        assert forall|j: int| 0 <= j < succ.len() implies marks.contains(succ[j] as int) || rest.contains(succ[j]) by {
            if !marks.contains(succ[j] as int) {
                let k = choose|k: int| 0 <= k < pending.len() && pending[k] == succ[j];
                assert(k != last);
                assert(rest[k] == succ[j]);
            }
        }
    }
    if !marks.contains(0) {
        let k = choose|k: int| 0 <= k < pending.len() && pending[k] == 0;
        assert(k != last);
        assert(rest[k] == 0);
    }
}

/// Marking the last pending instruction and pending its successors keeps
/// every marked instruction explored.
proof fn lemma_expand_explored(prog: Seq<Insn>, skip: Set<int>, marks: Set<int>, pending: Seq<usize>)
    requires
        pending.len() > 0,
        reachable(prog, skip, pending.last()),
        cfg_node(prog, pending.last()) is Ok,
        forall|p: usize|
            #![trigger marks.contains(p as int)]
            marks.contains(p as int) && !skip.contains(p as int) ==> explored(prog, skip, marks, pending, p),
    ensures
        ({
            let pc = pending.last();
            let marks2 = marks.insert(pc as int);
            let pending2 = pending.drop_last() + cfg_node(prog, pc)->Ok_0;
            forall|p: usize|
                #![trigger marks2.contains(p as int)]
                marks2.contains(p as int) && !skip.contains(p as int) ==> explored(prog, skip, marks2, pending2, p)
        }),
{
    let pc = pending.last();
    let succ = cfg_node(prog, pc)->Ok_0;
    let marks2 = marks.insert(pc as int);
    let rest = pending.drop_last();
    let pending2 = rest + succ;
    let last = pending.len() - 1;
    assert forall|p: usize|
        #![trigger marks2.contains(p as int)]
        marks2.contains(p as int) && !skip.contains(p as int) implies explored(prog, skip, marks2, pending2, p) by {
        let sp = cfg_node(prog, p)->Ok_0;
        if p == pc {
            assert forall|j: int| 0 <= j < sp.len() implies marks2.contains(sp[j] as int) || pending2.contains(sp[j]) by {
                assert(pending2[rest.len() + j] == sp[j]);
            }
        } else {
            assert(marks.contains(p as int));
            assert(explored(prog, skip, marks, pending, p));
            assert forall|j: int| 0 <= j < sp.len() implies marks2.contains(sp[j] as int) || pending2.contains(sp[j]) by {
                if !marks2.contains(sp[j] as int) {
                    let k = choose|k: int| 0 <= k < pending.len() && pending[k] == sp[j];
                    assert(k != last);
                    assert(pending2[k] == sp[j]);
                }
            }
        }
    }
}

/// Marking the last pending instruction and pending its successors keeps the
/// invariant.
#[verifier::spinoff_prover]
proof fn lemma_search_expand(
    prog: Seq<Insn>,
    skip: Set<int>,
    marks: Set<int>,
    pending: Seq<usize>,
    preds: Seq<int>,
)
    requires
        search_inv(prog, skip, marks, pending, preds),
        skip.subset_of(marks),
        pending.len() > 0,
        !marks.contains(pending.last() as int),
        reachable(prog, skip, pending.last()),
        pending.last() < prog.len(),
        cfg_node(prog, pending.last()) is Ok,
    ensures
        ({
            let pc = pending.last();
            let succ = cfg_node(prog, pc)->Ok_0;
            search_inv(
                prog,
                skip,
                marks.insert(pc as int),
                pending.drop_last() + succ,
                preds.drop_last() + Seq::new(succ.len(), |j: int| pc as int),
            )
        }),
{
    reveal(search_inv);
    let pc = pending.last();
    let succ = cfg_node(prog, pc)->Ok_0;
    let marks2 = marks.insert(pc as int);
    let rest = pending.drop_last();
    let pending2 = rest + succ;
    let preds2 = preds.drop_last() + Seq::new(succ.len(), |j: int| pc as int);
    let last = pending.len() - 1;
    assert(!skip.contains(pc as int));
    assert forall|i: int| 0 <= i < pending2.len() implies #[trigger] pending2[i] < prog.len() && (if preds2[i] == -1 {
        pending2[i] == 0
    } else {
        0 <= preds2[i] && marks2.contains(preds2[i]) && !skip.contains(preds2[i]) && edge(
            prog,
            preds2[i] as usize,
            pending2[i],
        )
    }) by {
        if i >= rest.len() {
            assert(pending2[i] == succ[i - rest.len()]);
            assert(succ.contains(pending2[i]));
        } else {
            assert(pending2[i] == pending[i]);
        }
    }
    lemma_expand_explored(prog, skip, marks, pending);
    if !marks2.contains(0) {
        let k = choose|k: int| 0 <= k < pending.len() && pending[k] == 0;
        assert(k != last);
        assert(pending2[k] == 0);
    }
}

/// With nothing pending, the marks are the skipped instructions and the
/// reachable ones, and no reachable instruction has a defect.
proof fn lemma_search_done(prog: Seq<Insn>, skip: Set<int>, marks: Set<int>, preds: Seq<int>)
    requires
        search_inv(prog, skip, marks, Seq::empty(), preds),
        skip.subset_of(marks),
    ensures
        sound_cfg(prog, skip),
        marks == skip.union(reach_set(prog, skip)),
{
    reveal(search_inv);
    assert forall|p: usize|
        #![trigger marks.contains(p as int)]
        marks.contains(p as int) && !skip.contains(p as int) implies explored(prog, skip, marks, Seq::empty(), p) by {}
    assert forall|pc: int| #[trigger] marks.contains(pc) == skip.union(reach_set(prog, skip)).contains(pc) by {
        if marks.contains(pc) && !skip.contains(pc) {
            let p = pc as usize;
            assert(marks.contains(p as int));
            assert(explored(prog, skip, marks, Seq::empty(), p));
        }
        if 0 <= pc < prog.len() && reachable(prog, skip, pc as usize) {
            let path = choose|path: Seq<usize>| #[trigger] is_path(prog, skip, path) && path.last() == pc as usize;
            lemma_closed_set_holds_paths(prog, skip, marks, path);
        }
    }
    assert(marks =~= skip.union(reach_set(prog, skip)));
    assert forall|pc: usize| #[trigger] reachable(prog, skip, pc) implies cfg_node(prog, pc) is Ok by {
        let path = choose|path: Seq<usize>| #[trigger] is_path(prog, skip, path) && path.last() == pc;
        lemma_closed_set_holds_paths(prog, skip, marks, path);
        assert(!skip.contains(path[path.len() - 1] as int));
        assert(marks.contains(pc as int));
        assert(explored(prog, skip, marks, Seq::empty(), pc));
    }
}

proof fn lemma_bit_zero(c: u64)
    ensures
        !bit(0, c),
{
    assert(((0u64 >> c) & 1 == 1) == false) by (bit_vector);
}

pub struct Verifier<'a> {
    prog: &'a [Insn],
    reachable: Vec<u64>,
}

impl<'a> Verifier<'a> {
    /// The program checked.
    pub closed spec fn prog(&self) -> Seq<Insn> {
        self.prog@
    }

    /// Whether `pc` is marked as reached.
    closed spec fn marked(&self, pc: int) -> bool {
        0 <= pc && pc / 64 < self.reachable@.len() && bit(self.reachable@[pc / 64], (pc % 64) as u64)
    }

    /// The instructions marked as reached.
    pub closed spec fn marks(&self) -> Set<int> {
        Set::new(|pc: int| 0 <= pc < self.prog@.len() && self.marked(pc))
    }

    /// The mark bitmap has a bit for every instruction.
    #[verifier::type_invariant]
    spec fn wf(&self) -> bool {
        &&& 0 < self.prog@.len() <= usize::MAX
        &&& self.reachable@.len() * 64 >= self.prog@.len()
    }

    /// A checker for `prog` with nothing marked; an empty program is refused.
    pub fn new(prog: &'a [Insn]) -> (r: Result<Self, EbpfError>)
        ensures
            prog@.len() == 0 ==> r == Err::<Self, EbpfError>(EbpfError::ProgramEmpty),
            prog@.len() > 0 ==> (r matches Ok(v) && v.prog() == prog@ && v.marks()
                == Set::<int>::empty()),
    {
        if prog.len() == 0 {
            return Err(EbpfError::ProgramEmpty);
        }
        let words = prog.len() / 64 + if prog.len() % 64 != 0 { 1 } else { 0 };
        let mut reachable: Vec<u64> = Vec::new();
        while reachable.len() < words
            invariant
                reachable@.len() <= words,
                forall|i: int| 0 <= i < reachable@.len() ==> reachable@[i] == 0,
            decreases words - reachable@.len(),
        {
            reachable.push(0);
        }
        assert(prog@.len() == prog.len());
        let v = Self { prog, reachable };
        assert forall|pc: int| !#[trigger] v.marks().contains(pc) by {
            if 0 <= pc < prog@.len() {
                lemma_bit_zero((pc % 64) as u64);
            }
        }
        assert(v.marks() =~= Set::<int>::empty());
        Ok(v)
    }

    fn bitmap_set(&mut self, pc: usize)
        requires
            pc < old(self).prog@.len(),
        ensures
            final(self).prog() == old(self).prog(),
            final(self).marks() == old(self).marks().insert(pc as int),
    {
        proof {
            use_type_invariant(&*self);
        }
        let ghost before = *self;
        let w = self.reachable[pc / 64];
        self.reachable[pc / 64] = w | (1u64 << ((pc % 64) as u64));
        assert forall|q: int| #[trigger] self.marks().contains(q) == before.marks().insert(
            pc as int,
        ).contains(q) by {
            if 0 <= q < self.prog@.len() {
                if q / 64 == pc / 64 {
                    lemma_bit_set(w, (pc % 64) as u64, (q % 64) as u64);
                }
            }
        }
        assert(self.marks() =~= before.marks().insert(pc as int));
    }

    fn bitmap_get(&self, pc: usize) -> (r: bool)
        requires
            pc < self.prog@.len(),
        ensures
            r == self.marks().contains(pc as int),
    {
        proof {
            use_type_invariant(self);
        }
        (self.reachable[pc / 64] >> ((pc % 64) as u64)) & 1 == 1
    }

    fn check_jump(&self, pc: usize, off: i16) -> (r: Result<usize, EbpfError>)
        ensures
            r == jump_check(self.prog@.len(), pc, off),
    {
        let target: i128 = pc as i128 + 1 + off as i128;
        if target < 0 || target >= self.prog.len() as i128 {
            return Err(EbpfError::InvalidJumpTarget { pc, target: target as usize });
        }
        let target = target as usize;
        if target <= pc {
            return Err(EbpfError::BackEdge { pc });
        }
        Ok(target)
    }

    fn is_conditional_jump(code: u8) -> (r: bool)
        ensures
            r == conditional_code(code),
    {
        (op::JEQ <= code && code <= op::JSGE) || (0x0a <= code && code <= 0x0d)
    }

    /// Checks every instruction reachable from the entry without passing
    /// through an instruction marked before, and marks them.
    fn build_reachability(&mut self) -> (r: Result<(), EbpfError>)
        ensures
            final(self).prog() == old(self).prog(),
            old(self).marks().subset_of(final(self).marks()),
            r is Ok ==> sound_cfg(old(self).prog(), old(self).marks()) && final(self).marks() == old(
                self,
            ).marks().union(reach_set(old(self).prog(), old(self).marks())),
            r matches Err(e) ==> exists|pc: usize|
                #[trigger] reachable(old(self).prog(), old(self).marks(), pc) && cfg_node(
                    old(self).prog(),
                    pc,
                ) == Err::<Seq<usize>, EbpfError>(e),
            r == search_result(old(self).prog(), old(self).marks()),
    {
        proof {
            use_type_invariant(&*self);
            self.lemma_marks_finite();
        }
        let ghost mut fuel: nat = 3 * self.prog@.len() + 1;
        let ghost prog = self.prog@;
        let ghost m0 = self.marks();
        let mut worklist: Vec<usize> = Vec::new();
        worklist.push(0);
        let ghost mut preds: Seq<int> = seq![-1];
        proof {
            reveal(search_inv);
            assert(worklist@[0] == 0);
        }
        loop
            invariant
                self.prog@ == prog,
                prog == old(self).prog(),
                m0 == old(self).marks(),
                m0.subset_of(self.marks()),
                search_inv(prog, m0, self.marks(), worklist@, preds),
                search_from(prog, self.marks(), worklist@, fuel) == search_result(prog, m0),
                self.marks().len() <= prog.len(),
                fuel >= 3 * (prog.len() - self.marks().len()) + worklist@.len(),
            decreases prog.len() - self.marks().len(), worklist@.len(),
        {
            proof {
                self.lemma_marks_finite();
            }
            let ghost before = self.marks();
            let ghost wl = worklist@;
            let ghost old_preds = preds;
            match worklist.pop() {
                None => {
                    proof {
                        assert(wl =~= Seq::<usize>::empty());
                        lemma_search_done(prog, m0, self.marks(), old_preds);
                    }
                    return Ok(());
                },
                Some(pc) => {
                    proof {
                        assert(wl.last() == pc);
                        assert(worklist@ =~= wl.drop_last());
                        preds = old_preds.drop_last();
                        lemma_search_last(prog, m0, before, wl, old_preds);
                    }
                    if self.bitmap_get(pc) {
                        proof {
                            lemma_search_skip(prog, m0, before, wl, old_preds);
                            assert(search_from(prog, before, wl, fuel) == search_from(
                                prog,
                                before,
                                worklist@,
                                (fuel - 1) as nat,
                            ));
                            fuel = (fuel - 1) as nat;
                        }
                        continue;
                    }
                    proof {
                        lemma_search_reach(prog, m0, before, wl, old_preds);
                    }
                    self.bitmap_set(pc);
                    let ghost rest = worklist@;
                    match self.explore(pc, &mut worklist) {
                        Ok(()) => {},
                        Err(e) => {
                            proof {
                                assert(search_from(prog, before, wl, fuel) == Err::<(), EbpfError>(e));
                            }
                            return Err(e);
                        },
                    }
                    proof {
                        let succ = cfg_node(prog, pc)->Ok_0;
                        lemma_node_small(prog, pc);
                        assert(search_from(prog, before, wl, fuel) == search_from(
                            prog,
                            before.insert(pc as int),
                            rest + succ,
                            (fuel - 1) as nat,
                        ));
                        fuel = (fuel - 1) as nat;
                        lemma_search_expand(prog, m0, before, wl, old_preds);
                        preds = old_preds.drop_last() + Seq::new(succ.len(), |j: int| pc as int);
                        assert(self.marks().len() == before.len() + 1);
                        self.lemma_marks_finite();
                    }
                },
            }
        }
    }

    /// The marks are a finite set of instructions.
    proof fn lemma_marks_finite(&self)
        ensures
            self.marks().finite(),
            self.marks().len() <= self.prog@.len(),
    {
        let range = Set::new(|pc: int| 0 <= pc < self.prog@.len());
        assert(range =~= vstd::set_lib::set_int_range(0, self.prog@.len() as int));
        vstd::set_lib::lemma_int_range(0, self.prog@.len() as int);
        vstd::set_lib::lemma_len_subset(self.marks(), range);
    }

    /// Reports the first instruction that is not marked.
    fn check_unreachable(&self) -> (r: Result<(), EbpfError>)
        ensures
            r is Ok <==> forall|pc: int| 0 <= pc < self.prog@.len() ==> self.marks().contains(pc),
            r matches Err(e) ==> e matches EbpfError::UnreachableInstruction { pc } && pc < self.prog@.len()
                && !self.marks().contains(pc as int) && forall|q: int| 0 <= q < pc ==> self.marks().contains(q),
    {
        proof {
            use_type_invariant(self);
        }
        let len = self.prog.len();
        let mut pc: usize = 0;
        while pc < len
            invariant
                len == self.prog@.len(),
                pc <= len,
                forall|q: int| 0 <= q < pc ==> self.marks().contains(q),
            decreases len - pc,
        {
            if !self.bitmap_get(pc) {
                return Err(EbpfError::UnreachableInstruction { pc });
            }
            pc = pc + 1;
        }
        Ok(())
    }

    /// Checks that every instruction is reached from the entry and that no
    /// reached instruction has a defect. Instructions marked by an earlier
    /// check are neither explored again nor reported.
    pub fn verify(&mut self) -> (r: Result<(), EbpfError>)
        ensures
            final(self).prog() == old(self).prog(),
            old(self).marks().subset_of(final(self).marks()),
            r is Ok <==> sound_cfg(old(self).prog(), old(self).marks()) && covered(
                old(self).prog(),
                old(self).marks(),
            ),
            r is Ok ==> forall|pc: int| 0 <= pc < old(self).prog().len() ==> #[trigger] final(self).marks().contains(pc),
            r matches Err(e) ==> explains(old(self).prog(), old(self).marks(), e),
            search_result(old(self).prog(), old(self).marks()) matches Err(e) ==> r == Err::<(), EbpfError>(e),
    {
        let ghost prog = self.prog@;
        let ghost m0 = self.marks();
        match self.build_reachability() {
            Ok(()) => {},
            Err(e) => {
                proof {
                    let pc = choose|pc: usize| #[trigger] reachable(prog, m0, pc) && cfg_node(prog, pc) == Err::<Seq<usize>, EbpfError>(e);
                    assert(!sound_cfg(prog, m0));
                }
                return Err(e);
            },
        }
        let r = self.check_unreachable();
        proof {
            assert(covered(prog, m0) <==> forall|pc: int| 0 <= pc < prog.len() ==> self.marks().contains(pc)) by {
                if covered(prog, m0) {
                    assert forall|pc: int| 0 <= pc < prog.len() implies self.marks().contains(pc) by {
                        let p = pc as usize;
                        assert(m0.contains(p as int) || reachable(prog, m0, p));
                        assert(m0.union(reach_set(prog, m0)).contains(pc));
                    }
                }
                if forall|pc: int| 0 <= pc < prog.len() ==> self.marks().contains(pc) {
                    assert forall|pc: usize| 0 <= pc < prog.len() implies m0.contains(pc as int) || #[trigger] reachable(prog, m0, pc) by {
                        assert(self.marks().contains(pc as int));
                        assert(m0.union(reach_set(prog, m0)).contains(pc as int));
                    }
                }
            }
            if r is Err {
                let pc = r->Err_0->UnreachableInstruction_pc;
                assert(!reachable(prog, m0, pc)) by {
                    assert(!self.marks().contains(pc as int));
                }
                assert forall|q: usize| q < pc implies m0.contains(q as int) || #[trigger] reachable(prog, m0, q) by {
                    assert(self.marks().contains(q as int));
                }
            }
        }
        r
    }

    /// Pushes the successors of `pc` on `worklist`, or reports its defect.
    fn explore(&self, pc: usize, worklist: &mut Vec<usize>) -> (r: Result<(), EbpfError>)
        requires
            pc < self.prog@.len(),
        ensures
            match cfg_node(self.prog@, pc) {
                Ok(succ) => r is Ok && final(worklist)@ == old(worklist)@ + succ,
                Err(e) => r == Err::<(), EbpfError>(e),
            },
    {
        let len = self.prog.len();
        let insn = &self.prog[pc];
        if insn.is_wide() {
            let tail = pc + 1;
            if tail >= len {
                return Err(EbpfError::InvalidJumpTarget { pc, target: tail });
            }
            let next = pc + 2;
            if next < len {
                worklist.push(next);
            } else {
                return Err(EbpfError::FallthroughEnd { pc });
            }
            assert(worklist@ =~= old(worklist)@ + seq![next]);
            return Ok(());
        }
        let opcode = insn.opcode();
        let raw = opcode.raw();
        let cls = opcode.class();
        let code = opcode.code();
        if cls == class::JMP {
            if code == op::EXIT {
                assert(worklist@ =~= old(worklist)@ + Seq::<usize>::empty());
                return Ok(());
            } else if code == op::JA {
                let target = self.check_jump(pc, insn.off())?;
                worklist.push(target);
                assert(worklist@ =~= old(worklist)@ + seq![target]);
                return Ok(());
            } else if code == op::CALL {
                let fall = pc + 1;
                if fall >= len {
                    return Err(EbpfError::FallthroughEnd { pc });
                }
                worklist.push(fall);
                assert(worklist@ =~= old(worklist)@ + seq![fall]);
                return Ok(());
            } else if !Self::is_conditional_jump(code) {
                return Err(EbpfError::UnknownOpcode { pc, opcode: raw });
            }
        } else if cls == class::JMP32 {
            if !Self::is_conditional_jump(code) {
                return Err(EbpfError::UnknownOpcode { pc, opcode: raw });
            }
        } else {
            let fall = pc + 1;
            if fall >= len {
                return Err(EbpfError::FallthroughEnd { pc });
            }
            worklist.push(fall);
            assert(worklist@ =~= old(worklist)@ + seq![fall]);
            return Ok(());
        }
        let target = self.check_jump(pc, insn.off())?;
        worklist.push(target);
        let fall = pc + 1;
        if fall >= len {
            return Err(EbpfError::FallthroughEnd { pc });
        }
        worklist.push(fall);
        assert(worklist@ =~= old(worklist)@ + seq![target, fall]);
        Ok(())
    }
}

/// The successors of an instruction without a defect lie ahead of it in
/// the program.
proof fn lemma_node_forward(prog: Seq<Insn>, p: usize, q: usize)
    requires
        p < prog.len() <= usize::MAX,
        cfg_node(prog, p) matches Ok(succ) && succ.contains(q),
    ensures
        p < q < prog.len(),
{
    let len = prog.len();
    let succ = cfg_node(prog, p)->Ok_0;
    let k = choose|k: int| 0 <= k < succ.len() && succ[k] == q;
    let raw = prog[p as int]@;
    let code = code_of(opcode_of(raw));
    let cls = class_of(opcode_of(raw));
    if is_wide_raw(raw) {
        assert(succ =~= seq![(p + 2) as usize]);
    } else if cls == class::JMP && code == op::JA {
        assert(succ =~= seq![jump_check(len, p, off_of(raw))->Ok_0]);
    } else if (cls == class::JMP && conditional_code(code)) || (cls == class::JMP32 && conditional_code(
        code,
    )) {
        assert(succ =~= seq![jump_check(len, p, off_of(raw))->Ok_0, (p + 1) as usize]);
    } else if cls == class::JMP && code == op::EXIT {
        assert(succ.len() == 0);
    } else {
        assert(succ =~= seq![(p + 1) as usize]);
    }
    assert(succ[k] == q);
}

/// In a program whose control flow the verifier accepts, every instruction
/// has its successors, and every edge leads forward to an instruction of the
/// program: no path loops and none runs off the end.
pub proof fn lemma_accepted_edges_forward(prog: Seq<Insn>, p: usize, q: usize)
    requires
        sound_cfg(prog, Set::empty()),
        covered(prog, Set::empty()),
        p < prog.len() <= usize::MAX,
    ensures
        cfg_node(prog, p) is Ok,
        edge(prog, p, q) ==> p < q < prog.len(),
{
    assert(!Set::<int>::empty().contains(p as int));
    assert(reachable(prog, Set::empty(), p));
    assert(cfg_node(prog, p) is Ok);
    if edge(prog, p, q) {
        lemma_node_forward(prog, p, q);
    }
}

} // verus!
