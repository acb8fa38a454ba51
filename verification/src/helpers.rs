//! Helper functions that programs reach with `call`, kept in a table by id.
use vstd::prelude::*;

verus! {

/// The shape of a helper: it takes r1..r5 and its result goes to r0.
pub type HelperFn = fn(u64, u64, u64, u64, u64) -> u64;

/// Number of slots in a helper table; ids at or above it are never registered.
pub const MAX_HELPERS: usize = 256;

pub const HELPER_MAP_LOOKUP_ELEM: u32 = 1;
pub const HELPER_MAP_UPDATE_ELEM: u32 = 2;
pub const HELPER_MAP_DELETE_ELEM: u32 = 3;

/// Something that can be called as a helper.
pub trait HelperCall {
    /// This helper may be called with the arguments r1..r5.
    spec fn spec_pre(&self, args: (u64, u64, u64, u64, u64)) -> bool;

    /// `r` is an answer that this helper may give to the arguments r1..r5.
    spec fn spec_invoke(&self, args: (u64, u64, u64, u64, u64), r: u64) -> bool;

    fn invoke(&self, r1: u64, r2: u64, r3: u64, r4: u64, r5: u64) -> (r: u64)
        requires
            self.spec_pre((r1, r2, r3, r4, r5)),
        ensures
            self.spec_invoke((r1, r2, r3, r4, r5), r),
    ;
}

/// Calls `f` on r1..r5: the result is one that `f` may give to exactly these
/// arguments.
fn apply_helper<F: Fn(u64, u64, u64, u64, u64) -> u64>(
    f: &F,
    r1: u64,
    r2: u64,
    r3: u64,
    r4: u64,
    r5: u64,
) -> (r: u64)
    requires
        call_requires(*f, (r1, r2, r3, r4, r5)),
    ensures
        call_ensures(*f, (r1, r2, r3, r4, r5), r),
{
    f(r1, r2, r3, r4, r5)
}

impl<F: Fn(u64, u64, u64, u64, u64) -> u64> HelperCall for F {
    open spec fn spec_pre(&self, args: (u64, u64, u64, u64, u64)) -> bool {
        call_requires(*self, args)
    }

    open spec fn spec_invoke(&self, args: (u64, u64, u64, u64, u64), r: u64) -> bool {
        call_ensures(*self, args, r)
    }

    fn invoke(&self, r1: u64, r2: u64, r3: u64, r4: u64, r5: u64) -> u64 {
        apply_helper(self, r1, r2, r3, r4, r5)
    }
}

/// Helpers by id: slot `id` holds the helper registered under `id`, if any;
/// the table grows up to the highest id registered.
pub struct HelperTable {
    table: Vec<Option<Box<dyn HelperCall>>>,
}

impl View for HelperTable {
    /// The ids that have a helper.
    type V = Set<u32>;

    closed spec fn view(&self) -> Set<u32> {
        Set::new(
            |id: u32|
                (id as int) < MAX_HELPERS && (id as int) < self.table@.len() && self.table@[id as int] is Some,
        )
    }
}

impl HelperTable {
    /// Every helper held may be called with any arguments.
    #[verifier::type_invariant]
    spec fn callable(self) -> bool {
        forall|i: int, a: (u64, u64, u64, u64, u64)|
            0 <= i < self.table@.len() && self.table@[i] is Some ==> #[trigger] self.table@[i]->Some_0.spec_pre(a)
    }

    /// A table holds no helper under an id at or above `MAX_HELPERS`.
    pub proof fn lemma_ids_below_max(&self)
        ensures
            forall|id: u32| #[trigger] self@.contains(id) ==> (id as int) < MAX_HELPERS,
    {
    }

    /// The helper registered under `id`, when `id` has one.
    pub closed spec fn helper(&self, id: u32) -> Box<dyn HelperCall> {
        self.table@[id as int]->Some_0
    }

    /// A table with no helper.
    pub fn new() -> (r: Self)
        ensures
            r@ == Set::<u32>::empty(),
    {
        let r = Self { table: Vec::new() };
        assert(r@ =~= Set::<u32>::empty());
        r
    }

    /// Registers `f` under `id`, replacing any helper there; ids at or above
    /// the table size are ignored. `f` must accept any arguments, as a plain
    /// function does.
    pub fn register<F: Fn(u64, u64, u64, u64, u64) -> u64 + 'static>(&mut self, id: u32, f: F)
        requires
            forall|a: (u64, u64, u64, u64, u64)| call_requires(f, a),
        ensures
            final(self)@ == (if (id as int) < MAX_HELPERS {
                old(self)@.insert(id)
            } else {
                old(self)@
            }),
            (id as int) < MAX_HELPERS ==> forall|args: (u64, u64, u64, u64, u64), v: u64|
                #[trigger] final(self).helper(id).spec_invoke(args, v) == call_ensures(f, args, v),
            forall|k: u32| k != id && old(self)@.contains(k) ==> #[trigger] final(self).helper(k) == old(self).helper(k),
    {
        proof {
            use_type_invariant(&*self);
        }
        let index = id as usize;
        if index >= MAX_HELPERS {
            return;
        }
        let ghost start = self.table@;
        let mut table: Vec<Option<Box<dyn HelperCall>>> = Vec::new();
        std::mem::swap(&mut table, &mut self.table);
        while table.len() <= index
            invariant
                index < MAX_HELPERS,
                table@.len() >= start.len(),
                forall|k: int| 0 <= k < start.len() ==> #[trigger] table@[k] == start[k],
                forall|k: int| start.len() <= k < table@.len() ==> #[trigger] table@[k] is None,
            decreases index + 1 - table@.len(),
        {
            let ghost before = table@;
            table.push(None);
            proof {
                vstd::seq::axiom_seq_push_len(before, None);
                assert forall|k: int| 0 <= k < before.len() implies #[trigger] table@[k] == before[k] by {
                    vstd::seq::axiom_seq_push_index_different(before, None, k);
                }
                vstd::seq::axiom_seq_push_index_same(before, None, before.len() as int);
            }
        }
        let b: Box<dyn HelperCall> = Box::new(f);
        let ghost before = table@;
        table.set(index, Some(b));
        proof {
            vstd::seq::axiom_seq_update_len(before, index as int, Some(b));
            vstd::seq::axiom_seq_update_same(before, index as int, Some(b));
            assert forall|k: int| 0 <= k < before.len() && k != index implies #[trigger] table@[k] == before[k] by {
                vstd::seq::axiom_seq_update_different(before, k, index as int, Some(b));
            }
        }
        self.table = table;
        proof {
            assert forall|k: u32| #[trigger] self@.contains(k) == old(self)@.insert(id).contains(k) by {
                if k != id && (k as int) < before.len() {
                    assert(self.table@[k as int] == before[k as int]);
                }
            }
            assert(self@ =~= old(self)@.insert(id));
            assert forall|k: u32| k != id && old(self)@.contains(k) implies #[trigger] self.helper(k) == old(self).helper(k) by {
                assert(self.table@[k as int] == before[k as int]);
            }
        }
    }

    /// Calls the helper registered under `id` with r1..r5, or returns `None`
    /// when there is none.
    pub fn call(&self, id: u32, r1: u64, r2: u64, r3: u64, r4: u64, r5: u64) -> (r: Option<u64>)
        ensures
            r is Some <==> self@.contains(id),
            r matches Some(v) ==> self.helper(id).spec_invoke((r1, r2, r3, r4, r5), v),
    {
        proof {
            use_type_invariant(self);
        }
        let index = id as usize;
        if index >= MAX_HELPERS || index >= self.table.len() {
            return None;
        }
        match &self.table[index] {
            Some(f) => Some(f.invoke(r1, r2, r3, r4, r5)),
            None => None,
        }
    }
}

} // verus!
