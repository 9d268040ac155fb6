//! Items counted in whole units: each has a name and a quantity, is owned by
//! `Items`, and is known by the identifier that `Items` gave it.

use crate::logic::id_generator::IdGenerator;
use crate::logic::text::{decimal, decimal_string};
use std::collections::HashMap;
use vstd::prelude::*;

verus! {

broadcast use vstd::std_specs::hash::group_hash_axioms;

/// Identifier of an item in `Items`.
#[derive(Debug, Clone, Copy, PartialEq, Eq, Hash, Structural)]
pub struct ItemID(pub u32);

/// A view of one item: its name and its quantity.
#[derive(Debug)]
pub struct Item<'a> {
    pub name: &'a str,
    pub quantity: &'a u32,
}

impl<'a> Item<'a> {
    fn new(name: &'a String, quantity: &'a u32) -> (r: Item<'a>)
        ensures
            r.name@ == name@,
            *r.quantity == *quantity,
    {
        Item { name: name.as_str(), quantity }
    }

    /// The texts shown for the item: its name, then its quantity in decimal.
    pub fn get_displayables(&'a self) -> (r: [String; 2])
        ensures
            r[0]@ == self.name@,
            r[1]@ == decimal(*self.quantity as int),
    {
        let name = self.name.to_owned();
        let quantity = decimal_string(*self.quantity as i64);
        [name, quantity]
    }
}

/// The items, with the name and the quantity of each.
#[derive(Debug)]
pub struct Items {
    names: HashMap<u32, String>,
    quantities: HashMap<u32, u32>,
    id_generator: IdGenerator,
}

impl Items {
    /// The name of each item.
    pub closed spec fn names(&self) -> Map<u32, Seq<char>> {
        Map::new(|k: u32| self.names@.contains_key(k), |k: u32| self.names@[k]@)
    }

    /// The quantity of each item.
    pub closed spec fn quantities(&self) -> Map<u32, u32> {
        self.quantities@
    }

    /// The identifier that the next insertion issues.
    pub closed spec fn next_id(&self) -> u32 {
        self.id_generator@
    }

    /// Every item's identifier lies below the next one to be issued; this holds
    /// from `new` on until the identifiers wrap around.
    pub open spec fn ids_issued(&self) -> bool {
        forall|k: u32| #[trigger] self.quantities().contains_key(k) ==> k < self.next_id()
    }

    /// Every item has both a name and a quantity.
    pub open spec fn well_formed(&self) -> bool {
        self.names().dom() == self.quantities().dom()
    }

    pub fn new() -> (r: Self)
        ensures
            r.names() == Map::<u32, Seq<char>>::empty(),
            r.quantities() == Map::<u32, u32>::empty(),
            r.next_id() == 0,
            r.well_formed(),
            r.ids_issued(),
    {
        let r = Self {
            names: HashMap::new(),
            quantities: HashMap::new(),
            id_generator: IdGenerator::new(),
        };
        proof {
            assert(r.names() =~= Map::<u32, Seq<char>>::empty());
        }
        r
    }

    /// Adds an item under the next identifier and returns that identifier.
    pub fn insert(&mut self, name: String, quantity: u32) -> (r: ItemID)
        ensures
            r.0 == old(self).next_id(),
            final(self).next_id() == old(self).next_id().wrapping_add(1),
            final(self).names() == old(self).names().insert(r.0, name@),
            final(self).quantities() == old(self).quantities().insert(r.0, quantity),
            old(self).well_formed() ==> final(self).well_formed(),
            old(self).ids_issued() && old(self).next_id() < u32::MAX ==> !old(
                self,
            ).quantities().contains_key(r.0) && final(self).ids_issued(),
    {
        let id = self.id_generator.get_next_id();
        self.quantities.insert(id, quantity);
        self.names.insert(id, name);
        proof {
            assert(self.names() =~= old(self).names().insert(id, name@));
        }
        ItemID(id)
    }

    /// Removes item `id`.
    pub fn delete(&mut self, id: ItemID)
        ensures
            final(self).next_id() == old(self).next_id(),
            final(self).names() == old(self).names().remove(id.0),
            final(self).quantities() == old(self).quantities().remove(id.0),
            old(self).well_formed() ==> final(self).well_formed(),
            old(self).ids_issued() ==> final(self).ids_issued(),
    {
        self.names.remove(&id.0);
        self.quantities.remove(&id.0);
        proof {
            assert(self.names() =~= old(self).names().remove(id.0));
        }
    }

    /// Item `id`, which must exist.
    pub fn get(&self, id: &ItemID) -> (r: Item<'_>)
        requires
            self.names().contains_key(id.0),
            self.quantities().contains_key(id.0),
        ensures
            r.name@ == self.names()[id.0],
            *r.quantity == self.quantities()[id.0],
    {
        let name = self.names.get(&id.0).unwrap();
        let quantity = self.quantities.get(&id.0).unwrap();
        Item::new(name, quantity)
    }

    /// Takes `quantities[i]` from the quantity of item `ids[i]`, for each `i`.
    /// The items must exist, be distinct, and hold at least what is taken.
    pub fn update_quantities<const N: usize>(&mut self, ids: [&ItemID; N], quantities: [&u32; N])
        requires
            forall|i: int| 0 <= i < N ==> old(self).quantities().contains_key(#[trigger] ids[i].0),
            forall|i: int, j: int| 0 <= i < j < N ==> ids[i].0 != ids[j].0,
            forall|i: int|
                0 <= i < N ==> *#[trigger] quantities[i] <= old(self).quantities()[ids[i].0],
        ensures
            final(self).names() == old(self).names(),
            final(self).next_id() == old(self).next_id(),
            final(self).quantities().dom() == old(self).quantities().dom(),
            forall|i: int|
                0 <= i < N ==> #[trigger] final(self).quantities()[ids[i].0] == old(
                    self,
                ).quantities()[ids[i].0] - *quantities[i],
            forall|k: u32|
                #[trigger] old(self).quantities().contains_key(k) && (forall|i: int|
                    0 <= i < N ==> ids[i].0 != k) ==> final(self).quantities()[k] == old(
                    self,
                ).quantities()[k],
    {
        let mut i: usize = 0;
        while i < N
            invariant
                i <= N,
                self.names() == old(self).names(),
                self.next_id() == old(self).next_id(),
                self.quantities().dom() == old(self).quantities().dom(),
                forall|a: int|
                    0 <= a < N ==> old(self).quantities().contains_key(#[trigger] ids[a].0),
                forall|a: int, b: int| 0 <= a < b < N ==> ids[a].0 != ids[b].0,
                forall|a: int|
                    0 <= a < N ==> *#[trigger] quantities[a] <= old(self).quantities()[ids[a].0],
                forall|a: int|
                    0 <= a < i ==> #[trigger] self.quantities()[ids[a].0] == old(
                        self,
                    ).quantities()[ids[a].0] - *quantities[a],
                forall|k: u32|
                    #[trigger] old(self).quantities().contains_key(k) && (forall|a: int|
                        0 <= a < i ==> ids[a].0 != k) ==> self.quantities()[k] == old(
                        self,
                    ).quantities()[k],
            decreases N - i,
        {
            let id = ids[i].0;
            let taken = *quantities[i];
            proof {
                assert(old(self).quantities().contains_key(ids[i as int].0));
                assert forall|a: int| 0 <= a < i implies ids[a].0 != id by {
                    assert(ids[a].0 != ids[i as int].0);
                }
                assert(self.quantities()[id] == old(self).quantities()[id]);
            }
            let current = *self.quantities.get(&id).unwrap();
            self.quantities.insert(id, current - taken);
            proof {
                assert(self.quantities().dom() =~= old(self).quantities().dom());
                assert forall|a: int| 0 <= a < i + 1 implies #[trigger] self.quantities()[ids[a].0]
                    == old(self).quantities()[ids[a].0] - *quantities[a] by {
                    if a < i {
                        assert(ids[a].0 != ids[i as int].0);
                    }
                }
            }
            i = i + 1;
        }
    }
}

} // verus!
