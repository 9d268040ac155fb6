//! Maps identifiers that the table issues to the values stored under them.

use crate::logic::id_generator::IdGenerator;
use std::collections::HashMap;
use vstd::prelude::*;

verus! {

broadcast use vstd::std_specs::hash::group_hash_axioms;

/// Values under the identifiers that `insert` issued for them.
#[derive(Debug)]
pub struct IdTable<V> {
    table: HashMap<u32, V>,
    id_generator: IdGenerator,
}

impl<V> IdTable<V> {
    /// The stored values, by identifier.
    pub closed spec fn entries(&self) -> Map<u32, V> {
        self.table@
    }

    /// The identifier that the next `insert` issues.
    pub closed spec fn next_id(&self) -> u32 {
        self.id_generator@
    }

    /// Every stored identifier lies below the next one to be issued; this holds
    /// from `new` on until the identifiers wrap around.
    pub open spec fn keys_issued(&self) -> bool {
        forall|k: u32| #[trigger] self.entries().contains_key(k) ==> k < self.next_id()
    }

    pub fn new() -> (r: Self)
        ensures
            r.entries() == Map::<u32, V>::empty(),
            r.next_id() == 0,
            r.keys_issued(),
    {
        IdTable { table: HashMap::new(), id_generator: IdGenerator::new() }
    }

    /// Stores `input` under a newly issued identifier and returns it.
    pub fn insert(&mut self, input: V) -> (r: u32)
        ensures
            r == old(self).next_id(),
            final(self).next_id() == old(self).next_id().wrapping_add(1),
            final(self).entries() == old(self).entries().insert(r, input),
            old(self).keys_issued() && old(self).next_id() < u32::MAX ==> !old(
                self,
            ).entries().contains_key(r) && final(self).keys_issued(),
    {
        let key = self.id_generator.get_next_id();
        let _ = self.table.insert(key, input);
        key
    }

    /// The value stored under `key`, which must be in the table.
    pub fn get(&self, key: &u32) -> (r: &V)
        requires
            self.entries().contains_key(*key),
        ensures
            *r == self.entries()[*key],
    {
        self.table.get(key).unwrap()
    }

    /// Replaces the value stored under `key`, which must be in the table. Values
    /// are changed in place by reading them with `get` and writing them back
    /// here, one key at a time.
    pub fn update(&mut self, key: &u32, value: V)
        requires
            old(self).entries().contains_key(*key),
        ensures
            final(self).entries() == old(self).entries().insert(*key, value),
            final(self).next_id() == old(self).next_id(),
            old(self).keys_issued() ==> final(self).keys_issued(),
    {
        let _ = self.table.insert(*key, value);
    }

    /// Whether a value is stored under `key`.
    pub fn contains(&self, key: &u32) -> (r: bool)
        ensures
            r == self.entries().contains_key(*key),
    {
        self.table.contains_key(key)
    }

    /// Drops the value stored under `key`, if any.
    pub fn remove(&mut self, key: u32)
        ensures
            final(self).entries() == old(self).entries().remove(key),
            final(self).next_id() == old(self).next_id(),
            old(self).keys_issued() ==> final(self).keys_issued(),
    {
        let _ = self.table.remove(&key);
    }
}

} // verus!
