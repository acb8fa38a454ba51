//! An open-addressing hash map with linear probing and tombstones.
use vstd::prelude::*;
use vstd::arithmetic::div_mod::{lemma_mod_add_multiples_vanish, lemma_small_mod};
use vstd::wrapping::u64_specs;

use crate::map::BpfMap;

verus! {

/// The value under `key`.
pub open spec fn hash_lookup(m: Map<u64, u64>, key: u64) -> Option<u64> {
    if m.contains_key(key) {
        Some(m[key])
    } else {
        None
    }
}

/// The entries after storing `val` under `key` in a map of `capacity` slots,
/// and whether it was stored: an update is refused while the entries fill
/// half the slots or more, even for a key that is already there.
pub open spec fn hash_update(m: Map<u64, u64>, capacity: nat, key: u64, val: u64) -> (Map<u64, u64>, bool) {
    if m.len() * 2 < capacity {
        (m.insert(key, val), true)
    } else {
        (m, false)
    }
}

/// The entries after removing `key`, and whether it was there.
pub open spec fn hash_delete(m: Map<u64, u64>, key: u64) -> (Map<u64, u64>, bool) {
    (m.remove(key), m.contains_key(key))
}

const HASH_MULTIPLIER: u64 = 11400714819323198485u64;
const SHIFT_BITS: u32 = 32;
const LOAD_FACTOR_NUMERATOR: usize = 2;

#[derive(Clone, Copy)]
enum SlotState {
    Empty,
    Occupied,
    Deleted,
}

#[derive(Clone, Copy)]
struct Slot {
    key: u64,
    val: u64,
    state: SlotState,
}

impl Slot {
    /// A slot that has never held a key.
    fn empty() -> (r: Slot)
        ensures
            r.state is Empty,
    {
        Slot { key: 0, val: 0, state: SlotState::Empty }
    }
}

/// Slot `i` of `s` holds `key`.
spec fn has_key_at(s: Seq<Slot>, i: int, key: u64) -> bool {
    0 <= i < s.len() && s[i].state is Occupied && s[i].key == key
}

/// The entries of the occupied slots, in slot order.
spec fn slots_map(s: Seq<Slot>) -> Map<u64, u64>
    decreases s.len(),
{
    if s.len() == 0 {
        Map::empty()
    } else {
        let m = slots_map(s.drop_last());
        if s.last().state is Occupied {
            m.insert(s.last().key, s.last().val)
        } else {
            m
        }
    }
}

/// The number of occupied slots.
spec fn count_occupied(s: Seq<Slot>) -> nat
    decreases s.len(),
{
    if s.len() == 0 {
        0
    } else {
        count_occupied(s.drop_last()) + if s.last().state is Occupied {
            1nat
        } else {
            0nat
        }
    }
}

/// No key is held by two slots.
spec fn unique_keys(s: Seq<Slot>) -> bool {
    forall|i: int, j: int, k: u64| #[trigger] has_key_at(s, i, k) && #[trigger] has_key_at(s, j, k) ==> i == j
}

/// The home slot of `key` in a table of `n` slots.
spec fn hash_of(key: u64, n: nat) -> int {
    ((u64_specs::wrapping_mul(key, HASH_MULTIPLIER) >> 32u32) as int) % (n as int)
}

/// The `j`-th slot probed from `h` in a table of `n` slots.
spec fn probe(h: int, j: int, n: nat) -> int {
    (h + j) % (n as int)
}

/// None of the first `d` slots probed from `h` is empty.
spec fn clear(s: Seq<Slot>, h: int, d: int) -> bool {
    forall|j: int| 0 <= j < d ==> !(s[#[trigger] probe(h, j, s.len())].state is Empty)
}

/// The key in slot `i` is found by probing from its home slot: slot `i` is
/// probe `d` from there and no earlier probe meets an empty slot.
spec fn reached(s: Seq<Slot>, i: int, d: int) -> bool {
    let h = hash_of(s[i].key, s.len());
    0 <= d < s.len() && probe(h, d, s.len()) == i && clear(s, h, d)
}

/// Every occupied slot is reached from the home slot of its key.
spec fn chains(s: Seq<Slot>) -> bool {
    forall|i: int| 0 <= i < s.len() && s[i].state is Occupied ==> exists|d: int| #[trigger] reached(s, i, d)
}

/// The table laws that lookups rely on.
spec fn table_ok(s: Seq<Slot>) -> bool {
    unique_keys(s) && chains(s)
}

proof fn lemma_count_bound(s: Seq<Slot>)
    ensures
        count_occupied(s) <= s.len(),
    decreases s.len(),
{
    if s.len() > 0 {
        lemma_count_bound(s.drop_last());
    }
}

/// With distinct keys, the entries are those of the occupied slots and there
/// are as many as occupied slots.
proof fn lemma_slots_map(s: Seq<Slot>)
    requires
        unique_keys(s),
    ensures
        slots_map(s).dom().finite(),
        slots_map(s).len() == count_occupied(s),
        forall|k: u64| slots_map(s).contains_key(k) <==> exists|i: int| #[trigger] has_key_at(s, i, k),
        forall|i: int, k: u64| #[trigger] has_key_at(s, i, k) ==> slots_map(s)[k] == s[i].val,
    decreases s.len(),
{
    if s.len() > 0 {
        let t = s.drop_last();
        let n = s.len() - 1;
        assert forall|i: int, j: int, k: u64| #[trigger] has_key_at(t, i, k) && #[trigger] has_key_at(t, j, k) implies i
            == j by {
            assert(has_key_at(s, i, k) && has_key_at(s, j, k));
        }
        lemma_slots_map(t);
        let mt = slots_map(t);
        assert forall|i: int, k: u64| has_key_at(t, i, k) <==> (i < n && #[trigger] has_key_at(s, i, k)) by {}
        if s.last().state is Occupied {
            let lk = s.last().key;
            assert(has_key_at(s, n, lk));
            assert(!mt.contains_key(lk)) by {
                if mt.contains_key(lk) {
                    let i = choose|i: int| has_key_at(t, i, lk);
                    assert(has_key_at(s, i, lk));
                }
            }
            assert forall|k: u64| slots_map(s).contains_key(k) <==> exists|i: int| #[trigger] has_key_at(s, i, k) by {
                if slots_map(s).contains_key(k) && k != lk {
                    let i = choose|i: int| has_key_at(t, i, k);
                    assert(has_key_at(s, i, k));
                }
                if exists|i: int| has_key_at(s, i, k) {
                    let i = choose|i: int| has_key_at(s, i, k);
                    if i < n {
                        assert(has_key_at(t, i, k));
                    }
                }
            }
            assert forall|i: int, k: u64| #[trigger] has_key_at(s, i, k) implies slots_map(s)[k] == s[i].val by {
                if i < n {
                    assert(has_key_at(t, i, k));
                    assert(k != lk);
                }
            }
        } else {
            assert forall|k: u64| slots_map(s).contains_key(k) <==> exists|i: int| #[trigger] has_key_at(s, i, k) by {
                if slots_map(s).contains_key(k) {
                    let i = choose|i: int| has_key_at(t, i, k);
                    assert(has_key_at(s, i, k));
                }
                if exists|i: int| has_key_at(s, i, k) {
                    let i = choose|i: int| has_key_at(s, i, k);
                    assert(has_key_at(t, i, k));
                }
            }
            assert forall|i: int, k: u64| #[trigger] has_key_at(s, i, k) implies slots_map(s)[k] == s[i].val by {
                assert(has_key_at(t, i, k));
            }
        }
    }
}

/// Replacing slot `p` changes the count of occupied slots by what left and
/// what came.
proof fn lemma_count_update(s: Seq<Slot>, p: int, x: Slot)
    requires
        0 <= p < s.len(),
    ensures
        count_occupied(s.update(p, x)) + (if s[p].state is Occupied { 1int } else { 0int })
            == count_occupied(s) + (if x.state is Occupied { 1int } else { 0int }),
    decreases s.len(),
{
    let u = s.update(p, x);
    if p == s.len() - 1 {
        assert(u.drop_last() =~= s.drop_last());
    } else {
        assert(u.drop_last() =~= s.drop_last().update(p, x));
        lemma_count_update(s.drop_last(), p, x);
    }
}

/// A table whose slots are all occupied has as many entries as slots.
proof fn lemma_count_full(s: Seq<Slot>)
    requires
        forall|q: int| 0 <= q < s.len() ==> s[q].state is Occupied,
    ensures
        count_occupied(s) == s.len(),
    decreases s.len(),
{
    if s.len() > 0 {
        lemma_count_full(s.drop_last());
    }
}

/// The probe sequence from a slot visits every slot.
proof fn lemma_probe_onto(h: int, n: nat, q: int)
    requires
        0 <= h < n,
        0 <= q < n,
    ensures
        exists|j: int| 0 <= j < n && #[trigger] probe(h, j, n) == q,
{
    lemma_small_mod(q as nat, n);
    if q >= h {
        assert(probe(h, q - h, n) == q);
    } else {
        lemma_mod_add_multiples_vanish(q, n as int);
        assert(probe(h, q + n - h, n) == q);
    }
}

/// `key` is in no slot when the probes from its home slot before `i` hold
/// neither `key` nor an empty slot, and probe `i` is past the end or empty.
proof fn lemma_key_absent(s: Seq<Slot>, key: u64, i: int)
    requires
        table_ok(s),
        0 <= i <= s.len(),
        forall|j: int|
            0 <= j < i ==> !has_key_at(s, #[trigger] probe(hash_of(key, s.len()), j, s.len()), key)
                && !(s[probe(hash_of(key, s.len()), j, s.len())].state is Empty),
        i < s.len() ==> s[probe(hash_of(key, s.len()), i, s.len())].state is Empty,
    ensures
        forall|q: int| !#[trigger] has_key_at(s, q, key),
        !slots_map(s).contains_key(key),
{
    lemma_slots_map(s);
    let h = hash_of(key, s.len());
    assert forall|q: int| !#[trigger] has_key_at(s, q, key) by {
        if has_key_at(s, q, key) {
            let d = choose|d: int| #[trigger] reached(s, q, d);
            assert(reached(s, q, d));
            if d < i {
                assert(!has_key_at(s, probe(h, d, s.len()), key));
            } else if d > i {
                assert(!(s[probe(h, i, s.len())].state is Empty));
            }
        }
    }
}

/// A slot that was not empty stays not empty when only slot `p` changes and
/// its new content is not empty.
proof fn lemma_clear_kept(s: Seq<Slot>, p: int, x: Slot, h: int, d: int)
    requires
        0 <= p < s.len(),
        !(x.state is Empty),
        clear(s, h, d),
    ensures
        clear(s.update(p, x), h, d),
{
    let u = s.update(p, x);
    assert forall|j: int| 0 <= j < d implies !(u[#[trigger] probe(h, j, u.len())].state is Empty) by {
        assert(!(s[probe(h, j, s.len())].state is Empty));
    }
}

/// Storing `key` in a slot `p` that does not hold a key, reached from the
/// home slot of `key` without meeting an empty slot, keeps the table laws
/// and adds the entry.
proof fn lemma_insert(s: Seq<Slot>, p: int, key: u64, val: u64, jp: int)
    requires
        table_ok(s),
        s.len() > 0,
        0 <= jp < s.len(),
        p == probe(hash_of(key, s.len()), jp, s.len()),
        !(s[p].state is Occupied),
        clear(s, hash_of(key, s.len()), jp),
        forall|q: int| !#[trigger] has_key_at(s, q, key),
    ensures
        table_ok(s.update(p, Slot { key, val, state: SlotState::Occupied })),
        slots_map(s.update(p, Slot { key, val, state: SlotState::Occupied })) == slots_map(s).insert(
            key,
            val,
        ),
        count_occupied(s.update(p, Slot { key, val, state: SlotState::Occupied })) == count_occupied(s)
            + 1,
{
    let x = Slot { key, val, state: SlotState::Occupied };
    let u = s.update(p, x);
    let n = s.len();
    assert(0 <= p < n);
    lemma_count_update(s, p, x);
    assert forall|i: int, k: u64| #[trigger] has_key_at(u, i, k) <==> (if i == p {
        k == key
    } else {
        has_key_at(s, i, k)
    }) by {}
    assert forall|i: int, j: int, k: u64| #[trigger] has_key_at(u, i, k) && #[trigger] has_key_at(u, j, k) implies i
        == j by {
        if i != p && j != p {
            assert(has_key_at(s, i, k) && has_key_at(s, j, k));
        }
    }
    assert forall|i: int| 0 <= i < u.len() && u[i].state is Occupied implies exists|d: int| #[trigger] reached(u, i, d) by {
        if i == p {
            lemma_clear_kept(s, p, x, hash_of(key, n), jp);
            assert(reached(u, i, jp));
        } else {
            assert(s[i].state is Occupied);
            let d = choose|d: int| #[trigger] reached(s, i, d);
            lemma_clear_kept(s, p, x, hash_of(s[i].key, n), d);
            assert(reached(u, i, d));
        }
    }
    lemma_slots_map(s);
    lemma_slots_map(u);
    assert(slots_map(u) =~= slots_map(s).insert(key, val)) by {
        assert forall|k: u64| slots_map(u).contains_key(k) <==> slots_map(s).insert(key, val).contains_key(k) by {
            if k == key {
                assert(has_key_at(u, p, k));
            } else {
                if slots_map(u).contains_key(k) {
                    let i = choose|i: int| has_key_at(u, i, k);
                    assert(has_key_at(s, i, k));
                }
                if slots_map(s).contains_key(k) {
                    let i = choose|i: int| has_key_at(s, i, k);
                    assert(has_key_at(u, i, k));
                }
            }
        }
        assert forall|k: u64| #[trigger] slots_map(u).contains_key(k) implies slots_map(u)[k] == slots_map(
            s,
        ).insert(key, val)[k] by {
            if k == key {
                assert(has_key_at(u, p, k));
            } else {
                let i = choose|i: int| has_key_at(u, i, k);
                assert(has_key_at(s, i, k));
            }
        }
    }
}

/// Giving a new value to the slot that holds `key` keeps the table laws and
/// replaces the entry.
proof fn lemma_overwrite(s: Seq<Slot>, p: int, key: u64, val: u64)
    requires
        table_ok(s),
        has_key_at(s, p, key),
    ensures
        table_ok(s.update(p, Slot { key, val, state: SlotState::Occupied })),
        slots_map(s.update(p, Slot { key, val, state: SlotState::Occupied })) == slots_map(s).insert(
            key,
            val,
        ),
        count_occupied(s.update(p, Slot { key, val, state: SlotState::Occupied })) == count_occupied(s),
{
    let x = Slot { key, val, state: SlotState::Occupied };
    let u = s.update(p, x);
    let n = s.len();
    lemma_count_update(s, p, x);
    assert forall|i: int, k: u64| #[trigger] has_key_at(u, i, k) <==> has_key_at(s, i, k) by {}
    assert forall|i: int| 0 <= i < u.len() && u[i].state is Occupied implies exists|d: int| #[trigger] reached(u, i, d) by {
        assert(s[i].state is Occupied);
        let d = choose|d: int| #[trigger] reached(s, i, d);
        lemma_clear_kept(s, p, x, hash_of(s[i].key, n), d);
        assert(reached(u, i, d));
    }
    lemma_slots_map(s);
    lemma_slots_map(u);
    assert(slots_map(u) =~= slots_map(s).insert(key, val)) by {
        assert forall|k: u64| slots_map(u).contains_key(k) <==> slots_map(s).insert(key, val).contains_key(k) by {
            if slots_map(u).contains_key(k) {
                let i = choose|i: int| has_key_at(u, i, k);
                assert(has_key_at(s, i, k));
            }
            if slots_map(s).contains_key(k) {
                let i = choose|i: int| has_key_at(s, i, k);
                assert(has_key_at(u, i, k));
            }
        }
        assert forall|k: u64| #[trigger] slots_map(u).contains_key(k) implies slots_map(u)[k] == slots_map(
            s,
        ).insert(key, val)[k] by {
            let i = choose|i: int| has_key_at(u, i, k);
            assert(has_key_at(s, i, k));
        }
    }
}

/// Marking the slot that holds `key` deleted keeps the table laws and
/// removes the entry.
proof fn lemma_remove(s: Seq<Slot>, p: int, key: u64)
    requires
        table_ok(s),
        has_key_at(s, p, key),
    ensures
        table_ok(s.update(p, Slot { state: SlotState::Deleted, ..s[p] })),
        slots_map(s.update(p, Slot { state: SlotState::Deleted, ..s[p] })) == slots_map(s).remove(key),
        count_occupied(s.update(p, Slot { state: SlotState::Deleted, ..s[p] })) + 1 == count_occupied(
            s,
        ),
{
    let x = Slot { state: SlotState::Deleted, ..s[p] };
    let u = s.update(p, x);
    let n = s.len();
    lemma_count_update(s, p, x);
    assert forall|i: int, k: u64| #[trigger] has_key_at(u, i, k) <==> (i != p && has_key_at(s, i, k)) by {}
    assert forall|i: int| 0 <= i < u.len() && u[i].state is Occupied implies exists|d: int| #[trigger] reached(u, i, d) by {
        assert(s[i].state is Occupied);
        let d = choose|d: int| #[trigger] reached(s, i, d);
        lemma_clear_kept(s, p, x, hash_of(s[i].key, n), d);
        assert(reached(u, i, d));
    }
    lemma_slots_map(s);
    lemma_slots_map(u);
    assert(slots_map(u) =~= slots_map(s).remove(key)) by {
        assert forall|k: u64| slots_map(u).contains_key(k) <==> slots_map(s).remove(key).contains_key(k) by {
            if slots_map(u).contains_key(k) {
                let i = choose|i: int| has_key_at(u, i, k);
                assert(has_key_at(s, i, k));
            }
            if slots_map(s).contains_key(k) && k != key {
                let i = choose|i: int| has_key_at(s, i, k);
                assert(i != p);
                assert(has_key_at(u, i, k));
            }
        }
        assert forall|k: u64| #[trigger] slots_map(u).contains_key(k) implies slots_map(u)[k] == slots_map(
            s,
        ).remove(key)[k] by {
            let i = choose|i: int| has_key_at(u, i, k);
            assert(has_key_at(s, i, k));
        }
    }
}

/// Stores `slot` in slot `p` and counts one more occupied slot.
fn occupy(slots: &mut Vec<Slot>, count: &mut usize, p: usize, slot: Slot)
    requires
        p < old(slots)@.len(),
        *old(count) < usize::MAX,
    ensures
        final(slots)@ == old(slots)@.update(p as int, slot),
        *final(count) == *old(count) + 1,
    no_unwind
{
    slots[p] = slot;
    *count = *count + 1;
}

/// Stores `slot` in slot `p`.
fn store(slots: &mut Vec<Slot>, p: usize, slot: Slot)
    requires
        p < old(slots)@.len(),
    ensures
        final(slots)@ == old(slots)@.update(p as int, slot),
    no_unwind
{
    slots[p] = slot;
}

/// Marks slot `p` deleted and counts one occupied slot fewer.
fn vacate(slots: &mut Vec<Slot>, count: &mut usize, p: usize)
    requires
        p < old(slots)@.len(),
        *old(count) > 0,
    ensures
        final(slots)@ == old(slots)@.update(p as int, Slot { state: SlotState::Deleted, ..old(slots)@[p as int] }),
        *final(count) == *old(count) - 1,
    no_unwind
{
    let old_slot = slots[p];
    slots[p] = Slot { state: SlotState::Deleted, ..old_slot };
    *count = *count - 1;
}

/// A hash map of 64-bit keys with a fixed number of slots. An update is
/// refused while half the slots or more hold entries.
pub struct HashMap {
    slots: Vec<Slot>,
    count: usize,
}

impl View for HashMap {
    /// The entries.
    type V = Map<u64, u64>;

    closed spec fn view(&self) -> Map<u64, u64> {
        slots_map(self.slots@)
    }
}

impl HashMap {
    #[verifier::type_invariant]
    closed spec fn well_formed(self) -> bool {
        &&& 0 < self.slots@.len() <= usize::MAX / 2
        &&& self.count == count_occupied(self.slots@)
        &&& table_ok(self.slots@)
    }

    /// The number of slots.
    pub closed spec fn capacity(&self) -> nat {
        self.slots@.len()
    }

    /// An empty map with `capacity` slots.
    pub fn with_capacity(capacity: usize) -> (r: Self)
        requires
            0 < capacity <= usize::MAX / 2,
        ensures
            r@ == Map::<u64, u64>::empty(),
            r.capacity() == capacity,
    {
        let mut slots: Vec<Slot> = Vec::with_capacity(capacity);
        let mut i: usize = 0;
        while i < capacity
            invariant
                i <= capacity,
                slots@.len() == i,
                forall|q: int| 0 <= q < i ==> (#[trigger] slots@[q]).state is Empty,
                count_occupied(slots@) == 0,
            decreases capacity - i,
        {
            let ghost before = slots@;
            slots.push(Slot::empty());
            assert(slots@.drop_last() =~= before);
            i = i + 1;
        }
        proof {
            assert forall|q: int, k: u64| !#[trigger] has_key_at(slots@, q, k) by {}
            lemma_slots_map(slots@);
            assert(slots_map(slots@) =~= Map::<u64, u64>::empty());
        }
        HashMap { slots, count: 0 }
    }

    fn hash_key(&self, key: u64) -> (r: usize)
        ensures
            r == hash_of(key, self.slots@.len()),
            r < self.slots@.len(),
    {
        proof {
            use_type_invariant(self);
        }
        let h = key.wrapping_mul(HASH_MULTIPLIER);
        let top = h >> SHIFT_BITS;
        assert(top < 0x1_0000_0000) by (bit_vector)
            requires
                top == h >> 32u32,
        ;
        (top as usize) % self.slots.len()
    }
}

impl BpfMap for HashMap {
    open spec fn spec_lookup(&self, key: u64) -> Option<u64> {
        hash_lookup(self@, key)
    }

    open spec fn spec_update(&self, key: u64, val: u64) -> bool {
        hash_update(self@, self.capacity(), key, val).1
    }

    open spec fn spec_delete(&self, key: u64) -> bool {
        hash_delete(self@, key).1
    }

    fn lookup(&self, key: u64) -> (r: Option<u64>)
        ensures
            r == hash_lookup(self@, key),
    {
        proof {
            use_type_invariant(self);
            lemma_slots_map(self.slots@);
        }
        let ghost s = self.slots@;
        let cap = self.slots.len();
        let start = self.hash_key(key);
        let mut i: usize = 0;
        while i < cap
            invariant
                s == self.slots@,
                cap == s.len(),
                0 < cap <= usize::MAX / 2,
                table_ok(s),
                start == hash_of(key, cap as nat),
                i <= cap,
                forall|j: int|
                    0 <= j < i ==> !has_key_at(s, #[trigger] probe(start as int, j, cap as nat), key)
                        && !(s[probe(start as int, j, cap as nat)].state is Empty),
            decreases cap - i,
        {
            let idx = (start + i) % cap;
            assert(idx == probe(start as int, i as int, cap as nat));
            let slot = self.slots[idx];
            match slot.state {
                SlotState::Empty => {
                    proof {
                        lemma_key_absent(s, key, i as int);
                    }
                    return None;
                },
                SlotState::Deleted => {},
                SlotState::Occupied => {
                    if slot.key == key {
                        proof {
                            lemma_slots_map(s);
                            assert(has_key_at(s, idx as int, key));
                        }
                        return Some(slot.val);
                    }
                },
            }
            i = i + 1;
        }
        proof {
            lemma_key_absent(s, key, i as int);
        }
        None
    }

    fn update(&mut self, key: u64, val: u64) -> (r: bool)
        ensures
            (final(self)@, r) == hash_update(old(self)@, old(self).capacity(), key, val),
            final(self).capacity() == old(self).capacity(),
            final(self)@.dom().finite(),
    {
        proof {
            use_type_invariant(&*self);
            lemma_slots_map(self.slots@);
            lemma_count_bound(self.slots@);
        }
        if self.count * LOAD_FACTOR_NUMERATOR >= self.slots.len() {
            return false;
        }
        let ghost s = self.slots@;
        let cap = self.slots.len();
        let start = self.hash_key(key);
        let mut first_deleted: Option<usize> = None;
        let mut i: usize = 0;
        while i < cap
            invariant
                s == self.slots@,
                cap == s.len(),
                0 < cap <= usize::MAX / 2,
                table_ok(s),
                self.count == count_occupied(s),
                self.count * 2 < cap,
                old(self)@ == slots_map(s),
                old(self).capacity() == cap,
                slots_map(s).dom().finite(),
                slots_map(s).len() == count_occupied(s),
                start == hash_of(key, cap as nat),
                i <= cap,
                forall|j: int|
                    0 <= j < i ==> !has_key_at(s, #[trigger] probe(start as int, j, cap as nat), key)
                        && !(s[probe(start as int, j, cap as nat)].state is Empty),
                first_deleted matches Some(p) ==> exists|jp: int|
                    0 <= jp < i && p == #[trigger] probe(start as int, jp, cap as nat)
                        && s[p as int].state is Deleted,
                first_deleted is None ==> forall|j: int|
                    0 <= j < i ==> s[#[trigger] probe(start as int, j, cap as nat)].state is Occupied,
            decreases cap - i,
        {
            let idx = (start + i) % cap;
            assert(idx == probe(start as int, i as int, cap as nat));
            let slot = self.slots[idx];
            match slot.state {
                SlotState::Occupied => {
                    if slot.key == key {
                        proof {
                            lemma_overwrite(s, idx as int, key, val);
                        }
                        store(&mut self.slots, idx, Slot { key, val, state: SlotState::Occupied });
                        return true;
                    }
                },
                SlotState::Deleted => {
                    if first_deleted.is_none() {
                        first_deleted = Some(idx);
                    }
                },
                SlotState::Empty => {
                    proof {
                        lemma_key_absent(s, key, i as int);
                    }
                    let insert_at = match first_deleted {
                        Some(p) => p,
                        None => idx,
                    };
                    proof {
                        let jp = if first_deleted is Some {
                            choose|jp: int|
                                0 <= jp < i && insert_at == #[trigger] probe(start as int, jp, cap as nat)
                                    && s[insert_at as int].state is Deleted
                        } else {
                            i as int
                        };
                        lemma_insert(s, insert_at as int, key, val, jp);
                    }
                    occupy(&mut self.slots, &mut self.count, insert_at, Slot { key, val, state: SlotState::Occupied });
                    return true;
                },
            }
            i = i + 1;
        }
        proof {
            lemma_key_absent(s, key, i as int);
        }
        if let Some(index) = first_deleted {
            proof {
                let jp = choose|jp: int|
                    0 <= jp < i && index == #[trigger] probe(start as int, jp, cap as nat)
                        && s[index as int].state is Deleted;
                lemma_insert(s, index as int, key, val, jp);
            }
            occupy(&mut self.slots, &mut self.count, index, Slot { key, val, state: SlotState::Occupied });
            return true;
        }
        proof {
            assert forall|q: int| 0 <= q < s.len() implies s[q].state is Occupied by {
                lemma_probe_onto(start as int, cap as nat, q);
            }
            lemma_count_full(s);
        }
        false
    }

    fn delete(&mut self, key: u64) -> (r: bool)
        ensures
            (final(self)@, r) == hash_delete(old(self)@, key),
            final(self).capacity() == old(self).capacity(),
            final(self)@.dom().finite(),
    {
        proof {
            use_type_invariant(&*self);
            lemma_slots_map(self.slots@);
        }
        let ghost s = self.slots@;
        let cap = self.slots.len();
        let start = self.hash_key(key);
        let mut i: usize = 0;
        while i < cap
            invariant
                s == self.slots@,
                cap == s.len(),
                0 < cap <= usize::MAX / 2,
                table_ok(s),
                self.count == count_occupied(s),
                old(self)@ == slots_map(s),
                old(self).capacity() == cap,
                slots_map(s).dom().finite(),
                start == hash_of(key, cap as nat),
                i <= cap,
                forall|j: int|
                    0 <= j < i ==> !has_key_at(s, #[trigger] probe(start as int, j, cap as nat), key)
                        && !(s[probe(start as int, j, cap as nat)].state is Empty),
            decreases cap - i,
        {
            let idx = (start + i) % cap;
            assert(idx == probe(start as int, i as int, cap as nat));
            let slot = self.slots[idx];
            match slot.state {
                SlotState::Empty => {
                    proof {
                        lemma_key_absent(s, key, i as int);
                        assert(slots_map(s).remove(key) =~= slots_map(s));
                    }
                    return false;
                },
                SlotState::Deleted => {},
                SlotState::Occupied => {
                    if slot.key == key {
                        proof {
                            lemma_remove(s, idx as int, key);
                            lemma_slots_map(s);
                            assert(has_key_at(s, idx as int, key));
                        }
                        vacate(&mut self.slots, &mut self.count, idx);
                        return true;
                    }
                },
            }
            i = i + 1;
        }
        proof {
            lemma_key_absent(s, key, i as int);
            assert(slots_map(s).remove(key) =~= slots_map(s));
        }
        false
    }
}

/// After a successful update of `key`, a lookup of `key` finds `val`; the
/// other keys keep their values.
pub proof fn lemma_hash_update_then_lookup(m: Map<u64, u64>, capacity: nat, key: u64, val: u64, other: u64)
    requires
        hash_update(m, capacity, key, val).1,
    ensures
        hash_lookup(hash_update(m, capacity, key, val).0, key) == Some(val),
        other != key ==> hash_lookup(hash_update(m, capacity, key, val).0, other) == hash_lookup(
            m,
            other,
        ),
{
}

/// A refused update changes nothing.
pub proof fn lemma_hash_update_refused(m: Map<u64, u64>, capacity: nat, key: u64, val: u64)
    requires
        !hash_update(m, capacity, key, val).1,
    ensures
        hash_update(m, capacity, key, val).0 == m,
{
}

/// After a delete of `key`, a lookup of `key` finds nothing; the delete
/// succeeded exactly when a lookup before it would have found a value; the
/// other keys keep their values.
pub proof fn lemma_hash_delete_then_lookup(m: Map<u64, u64>, key: u64, other: u64)
    ensures
        hash_lookup(hash_delete(m, key).0, key) is None,
        hash_delete(m, key).1 == hash_lookup(m, key) is Some,
        other != key ==> hash_lookup(hash_delete(m, key).0, other) == hash_lookup(m, other),
{
}

} // verus!
