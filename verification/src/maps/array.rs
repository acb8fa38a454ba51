//! A map whose keys are the indices of a fixed array.
use vstd::prelude::*;

use crate::map::BpfMap;

verus! {

/// The value under `key`: the array slot at `key`, if `key` is an index.
pub open spec fn array_lookup(slots: Seq<Option<u64>>, key: u64) -> Option<u64> {
    let index = key as usize;
    if index < slots.len() {
        slots[index as int]
    } else {
        None
    }
}

/// The slots after storing `val` under `key`, and whether it was stored:
/// only a key that is an index can hold a value.
pub open spec fn array_update(slots: Seq<Option<u64>>, key: u64, val: u64) -> (Seq<Option<u64>>, bool) {
    let index = key as usize;
    if index < slots.len() {
        (slots.update(index as int, Some(val)), true)
    } else {
        (slots, false)
    }
}

/// The slots after removing `key`, and whether there was a value to remove.
pub open spec fn array_delete(slots: Seq<Option<u64>>, key: u64) -> (Seq<Option<u64>>, bool) {
    let index = key as usize;
    if index < slots.len() && slots[index as int] is Some {
        (slots.update(index as int, None), true)
    } else {
        (slots, false)
    }
}

/// A map with a fixed number of slots; key `k` is slot `k`.
pub struct ArrayMap {
    values: Vec<Option<u64>>,
}

impl View for ArrayMap {
    /// The slots, each empty or holding a value.
    type V = Seq<Option<u64>>;

    closed spec fn view(&self) -> Seq<Option<u64>> {
        self.values@
    }
}

impl ArrayMap {
    /// An array map with `capacity` empty slots.
    pub fn new(capacity: usize) -> (r: Self)
        ensures
            r@ == Seq::new(capacity as nat, |i: int| None::<u64>),
    {
        let mut values: Vec<Option<u64>> = Vec::with_capacity(capacity);
        let mut i: usize = 0;
        while i < capacity
            invariant
                i <= capacity,
                values@ == Seq::new(i as nat, |j: int| None::<u64>),
            decreases capacity - i,
        {
            values.push(None);
            i = i + 1;
        }
        ArrayMap { values }
    }
}

impl BpfMap for ArrayMap {
    open spec fn spec_lookup(&self, key: u64) -> Option<u64> {
        array_lookup(self@, key)
    }

    open spec fn spec_update(&self, key: u64, val: u64) -> bool {
        array_update(self@, key, val).1
    }

    open spec fn spec_delete(&self, key: u64) -> bool {
        array_delete(self@, key).1
    }

    fn lookup(&self, key: u64) -> (r: Option<u64>)
        ensures
            r == array_lookup(self@, key),
    {
        let index = key as usize;
        if index >= self.values.len() {
            return None;
        }
        self.values[index]
    }

    fn update(&mut self, key: u64, val: u64) -> (r: bool)
        ensures
            (final(self)@, r) == array_update(old(self)@, key, val),
    {
        let index = key as usize;
        if index >= self.values.len() {
            return false;
        }
        self.values[index] = Some(val);
        true
    }

    fn delete(&mut self, key: u64) -> (r: bool)
        ensures
            (final(self)@, r) == array_delete(old(self)@, key),
    {
        let index = key as usize;
        if index >= self.values.len() {
            return false;
        }
        if self.values[index].is_none() {
            return false;
        }
        self.values[index] = None;
        true
    }
}

/// After a successful update of `key`, a lookup of `key` finds `val`; the
/// other keys keep their values.
pub proof fn lemma_array_update_then_lookup(slots: Seq<Option<u64>>, key: u64, val: u64, other: u64)
    requires
        array_update(slots, key, val).1,
    ensures
        array_lookup(array_update(slots, key, val).0, key) == Some(val),
        (other as usize) != (key as usize) ==> array_lookup(array_update(slots, key, val).0, other)
            == array_lookup(slots, other),
{
}

/// An update succeeds exactly when the key is an index of the array.
pub proof fn lemma_array_update_in_range(slots: Seq<Option<u64>>, key: u64, val: u64)
    ensures
        array_update(slots, key, val).1 <==> (key as usize) < slots.len(),
        array_update(slots, key, val).0.len() == slots.len(),
{
}

/// After a delete of `key`, a lookup of `key` finds nothing; the delete
/// succeeded exactly when a lookup before it would have found a value.
pub proof fn lemma_array_delete_then_lookup(slots: Seq<Option<u64>>, key: u64, other: u64)
    ensures
        array_lookup(array_delete(slots, key).0, key) is None,
        array_delete(slots, key).1 == array_lookup(slots, key) is Some,
        (other as usize) != (key as usize) ==> array_lookup(array_delete(slots, key).0, other)
            == array_lookup(slots, other),
{
}

} // verus!
