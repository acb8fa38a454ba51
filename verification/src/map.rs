//! Key-value maps that programs reach through helper calls, and the registry
//! that hands out a handle for each of them.
use vstd::prelude::*;

verus! {

/// A map from 64-bit keys to 64-bit values. Each implementation says, by
/// its spec methods, what its operations answer in a given state; outside
/// verified code they are ordinary methods that give those answers without
/// changing the map.
pub trait BpfMap {
    /// What `lookup(key)` answers in this state.
    spec fn spec_lookup(&self, key: u64) -> Option<u64>;

    /// What `update(key, val)` answers in this state.
    spec fn spec_update(&self, key: u64, val: u64) -> bool;

    /// What `delete(key)` answers in this state.
    spec fn spec_delete(&self, key: u64) -> bool;

    /// The value under `key`, if any.
    fn lookup(&self, key: u64) -> (r: Option<u64>)
        ensures
            r == self.spec_lookup(key),
    ;

    /// Stores `val` under `key`; `false` when the map refuses it. After a
    /// success `key` holds `val`; after a refusal it holds what it held. A key
    /// whose address-sized index differs from that of `key` keeps its value.
    fn update(&mut self, key: u64, val: u64) -> (r: bool)
        ensures
            r == old(self).spec_update(key, val),
            r ==> final(self).spec_lookup(key) == Some(val),
            !r ==> final(self).spec_lookup(key) == old(self).spec_lookup(key),
            forall|k: u64|
                (k as usize) != (key as usize) ==> #[trigger] final(self).spec_lookup(k) == old(
                    self,
                ).spec_lookup(k),
    ;

    /// Removes `key`; `false` when there was nothing to remove. Afterwards
    /// `key` holds nothing; a key whose address-sized index differs from that
    /// of `key` keeps its value.
    fn delete(&mut self, key: u64) -> (r: bool)
        ensures
            r == old(self).spec_delete(key),
            final(self).spec_lookup(key) is None,
            forall|k: u64|
                (k as usize) != (key as usize) ==> #[trigger] final(self).spec_lookup(k) == old(
                    self,
                ).spec_lookup(k),
    ;
}

/// Maps by handle: the map registered n-th has handle n.
pub struct MapRegistry {
    pub(crate) maps: Vec<Box<dyn BpfMap>>,
}

impl View for MapRegistry {
    /// The number of maps registered.
    type V = nat;

    closed spec fn view(&self) -> nat {
        self.maps@.len()
    }
}

impl MapRegistry {
    /// The maps, in handle order.
    pub closed spec fn maps(&self) -> Seq<Box<dyn BpfMap>> {
        self.maps@
    }

    /// The number of maps is the length of the map sequence.
    pub proof fn lemma_count(&self)
        ensures
            self@ == self.maps().len(),
    {
    }

    /// The map sequence is the content of the map vector.
    pub(crate) proof fn lemma_maps_stored(&self)
        ensures
            self.maps() == self.maps@,
    {
    }

    pub fn new() -> (r: Self)
        ensures
            r@ == 0,
            r.maps() == Seq::<Box<dyn BpfMap>>::empty(),
    {
        Self { maps: Vec::new() }
    }

    /// Adds `map` and returns its handle, which is the number of maps
    /// registered before it.
    pub fn register(&mut self, map: Box<dyn BpfMap>) -> (r: u64)
        ensures
            final(self).maps() == old(self).maps().push(map),
            final(self).maps().len() == old(self).maps().len() + 1,
            forall|i: int| 0 <= i < old(self)@ ==> #[trigger] final(self).maps()[i] == old(self).maps()[i],
            final(self)@ == old(self)@ + 1,
            r as nat == old(self)@,
    {
        let n = self.maps.len();
        self.maps.push(map);
        proof {
            let s = old(self).maps@;
            assert(self.maps@ == s.push(map));
            vstd::seq::axiom_seq_push_len(s, map);
            assert(s.push(map).len() == s.len() + 1);
            assert(self.maps@.len() == s.len() + 1);
            assert forall|i: int| 0 <= i < s.len() implies #[trigger] self.maps@[i] == s[i] by {
                vstd::seq::axiom_seq_push_index_different(s, map, i);
            }
        }
        n as u64
    }

    /// Looks `key` up in the map with handle `handle`; `None` when there is no
    /// such map.
    pub fn lookup(&self, handle: u64, key: u64) -> (r: Option<u64>)
        ensures
            (handle as usize) >= self@ ==> r is None,
            (handle as usize) < self@ ==> r == self.maps()[handle as usize as int].spec_lookup(key),
    {
        let index = handle as usize;
        if index >= self.maps.len() {
            return None;
        }
        self.maps[index].lookup(key)
    }

    /// Updates `key` in the map with handle `handle`; `false` when there is no
    /// such map. The other maps are left as they were; what the map itself
    /// answers is its own affair.
    pub fn update(&mut self, handle: u64, key: u64, val: u64) -> (r: bool)
        ensures
            final(self)@ == old(self)@,
            (handle as usize) >= old(self)@ ==> !r && final(self).maps() == old(self).maps(),
            final(self).maps().len() == old(self).maps().len(),
            (handle as usize) < old(self)@ ==> r == old(self).maps()[handle as usize as int].spec_update(key, val)
                && (r ==> final(self).maps()[handle as usize as int].spec_lookup(key) == Some(val)) && (!r
                ==> final(self).maps()[handle as usize as int].spec_lookup(key) == old(
                self,
            ).maps()[handle as usize as int].spec_lookup(key)),
            (handle as usize) < old(self)@ ==> forall|k: u64|
                (k as usize) != (key as usize) ==> #[trigger] final(self).maps()[handle as usize as int].spec_lookup(k)
                    == old(self).maps()[handle as usize as int].spec_lookup(k),
            forall|i: int|
                0 <= i < old(self)@ && i != handle as usize ==> #[trigger] final(self).maps()[i]
                    == old(self).maps()[i],
    {
        let index = handle as usize;
        if index >= self.maps.len() {
            return false;
        }
        self.maps[index].update(key, val)
    }

    /// Deletes `key` from the map with handle `handle`; `false` when there is
    /// no such map. The other maps are left as they were; what the map itself
    /// answers is its own affair.
    pub fn delete(&mut self, handle: u64, key: u64) -> (r: bool)
        ensures
            final(self)@ == old(self)@,
            (handle as usize) >= old(self)@ ==> !r && final(self).maps() == old(self).maps(),
            final(self).maps().len() == old(self).maps().len(),
            (handle as usize) < old(self)@ ==> r == old(self).maps()[handle as usize as int].spec_delete(key)
                && final(self).maps()[handle as usize as int].spec_lookup(key) is None,
            (handle as usize) < old(self)@ ==> forall|k: u64|
                (k as usize) != (key as usize) ==> #[trigger] final(self).maps()[handle as usize as int].spec_lookup(k)
                    == old(self).maps()[handle as usize as int].spec_lookup(k),
            forall|i: int|
                0 <= i < old(self)@ && i != handle as usize ==> #[trigger] final(self).maps()[i]
                    == old(self).maps()[i],
    {
        let index = handle as usize;
        if index >= self.maps.len() {
            return false;
        }
        self.maps[index].delete(key)
    }

    pub fn len(&self) -> (r: usize)
        ensures
            r == self@,
    {
        self.maps.len()
    }
}

} // verus!
