//! The in-memory view of the items, whose bodies the library carries without
//! reading them. Every write goes to storage first.

use crate::logic::category_service::page_of;
use crate::logic::reach::{key_order, vertex_list};
use crate::models::{BartendError, DBError, ItemID, LogicError};
use crate::persistence::repositories::ItemRepository;
use std::collections::HashMap;
use vstd::prelude::*;

verus! {

broadcast use vstd::std_specs::hash::group_hash_axioms;

/// An item with its identifier.
#[derive(Debug, Clone)]
pub struct Item<B> {
    pub id: ItemID,
    pub body: B,
}

/// Cached item bodies, shown a page at a time.
#[derive(Debug)]
pub struct ItemService<B> {
    items: HashMap<i64, B>,
    page_size: usize,
}

/// The number of items on a page.
pub open spec fn item_page_size() -> usize {
    15
}

/// The cache that storage's answer `read` to the request for every item
/// gives: exactly the items read, or storage's error passed on.
pub open spec fn items_from_read<B>(read: Result<HashMap<i64, B>, DBError>, r: Result<
    ItemService<B>,
    BartendError,
>) -> bool {
    match read {
        Ok(items) => r matches Ok(s) && s.item_map() == items@ && s.page_len() == item_page_size(),
        Err(e) => r == Err::<ItemService<B>, BartendError>(BartendError::Db(e)),
    }
}

/// The cache `after` and result `r` of adding `item` to `before` when storage
/// answered `stored`: cached under the identifier storage assigned and that
/// identifier returned, or storage's error passed on with nothing cached.
pub open spec fn item_added<B>(
    before: Map<i64, B>,
    after: Map<i64, B>,
    stored: Result<ItemID, DBError>,
    item: B,
    r: Result<ItemID, BartendError>,
) -> bool {
    match stored {
        Ok(id) => r == Ok::<ItemID, BartendError>(id) && after == before.insert(id.0, item),
        Err(e) => r == Err::<ItemID, BartendError>(BartendError::Db(e)) && after == before,
    }
}

/// The cache `after` and result `r` of storing a new body for `item` in
/// `before` when storage answered `stored`.
pub open spec fn item_updated<B>(
    before: Map<i64, B>,
    after: Map<i64, B>,
    stored: Result<(), DBError>,
    item: Item<B>,
    r: Result<(), BartendError>,
) -> bool {
    match stored {
        Ok(()) => r == Ok::<(), BartendError>(()) && after == before.insert(item.id.0, item.body),
        Err(e) => r == Err::<(), BartendError>(BartendError::Db(e)) && after == before,
    }
}

/// The cache `after` and result `r` of deleting `item` from `before` when
/// storage answered `stored`.
pub open spec fn item_deleted<B>(
    before: Map<i64, B>,
    after: Map<i64, B>,
    stored: Result<(), DBError>,
    item: ItemID,
    r: Result<(), BartendError>,
) -> bool {
    match stored {
        Ok(()) => r == Ok::<(), BartendError>(()) && after == before.remove(item.0),
        Err(e) => r == Err::<(), BartendError>(BartendError::Db(e)) && after == before,
    }
}

impl<B> ItemService<B> {
    /// The cached body of each item.
    pub closed spec fn item_map(&self) -> Map<i64, B> {
        self.items@
    }

    /// The order in which the cache lists its items: one order for one state
    /// of the cache, holding every cached item once.
    pub closed spec fn listing(&self) -> Seq<i64> {
        key_order(&self.items)
    }

    /// The number of items on a page.
    pub closed spec fn page_len(&self) -> usize {
        self.page_size
    }

    /// The cache built from what storage returned.
    pub fn from_items(items: HashMap<i64, B>) -> (r: Self)
        ensures
            r.item_map() == items@,
            r.page_len() == item_page_size(),
    {
        ItemService { items, page_size: 15 }
    }

    /// Loads every item from storage.
    pub fn new<D: ItemRepository<B>>(db: &D) -> (r: Result<Self, BartendError>)
        ensures
            r matches Ok(s) ==> s.page_len() == item_page_size(),
            r matches Err(e) ==> e is Db,
            exists|read: Result<HashMap<i64, B>, DBError>|
                #[trigger] call_ensures(D::get_all, (db,), read) && items_from_read(read, r),
    {
        let read = db.get_all();
        Self::from_read(read)
    }

    /// The cache built from storage's answer to the request for every item:
    /// exactly the items read, or storage's error passed on.
    pub fn from_read(read: Result<HashMap<i64, B>, DBError>) -> (r: Result<Self, BartendError>)
        ensures
            match read {
                Ok(items) => r matches Ok(s) && s.item_map() == items@ && s.page_len()
                    == item_page_size(),
                Err(e) => r == Err::<Self, BartendError>(BartendError::Db(e)),
            },
    {
        match read {
            Ok(items) => Ok(Self::from_items(items)),
            Err(e) => Err(BartendError::Db(e)),
        }
    }

    /// The number of cached items.
    pub fn len(&self) -> (r: usize)
        ensures
            r == self.item_map().len(),
    {
        self.items.len()
    }

    /// The identifiers on page `page`, in the order in which the cache lists them.
    pub fn get_page(&self, page: usize) -> (r: Vec<ItemID>)
        requires
            self.page_len() * page <= usize::MAX,
        ensures
            r@ == page_of(self.listing(), page as int, self.page_len() as int).map_values(
                |k: i64| ItemID(k),
            ),
            self.listing().to_set() == self.item_map().dom(),
            self.listing().no_duplicates(),
    {
        let page_start = self.page_size * page;
        let keys = vertex_list(&self.items);
        let n = keys.len();
        let start = if page_start < n { page_start } else { n };
        let end = if self.page_size < n - start { start + self.page_size } else { n };
        let mut r: Vec<ItemID> = Vec::new();
        let mut j: usize = start;
        while j < end
            invariant
                start <= j <= end <= n,
                n == keys@.len(),
                r@ == keys@.subrange(start as int, j as int).map_values(|k: i64| ItemID(k)),
            decreases end - j,
        {
            r.push(ItemID(keys[j]));
            proof {
                assert(r@ =~= keys@.subrange(start as int, j + 1).map_values(|k: i64| ItemID(k)));
            }
            j = j + 1;
        }
        proof {
            let (a, b) = (page as int, self.page_size as int);
            assert(a * b == b * a) by (nonlinear_arith);
            assert(r@ =~= page_of(keys@, page as int, self.page_size as int).map_values(
                |k: i64| ItemID(k),
            ));
        }
        r
    }

    /// The cached body of `item`.
    pub fn get(&self, item: &ItemID) -> (r: Result<&B, BartendError>)
        ensures
            match r {
                Ok(body) => self.item_map().contains_key(item.0) && *body == self.item_map()[item.0],
                Err(e) => !self.item_map().contains_key(item.0) && e == BartendError::Logic(
                    LogicError::InvalidItem(*item),
                ),
            },
    {
        match self.items.get(&item.0) {
            Some(body) => Ok(body),
            None => Err(BartendError::Logic(LogicError::InvalidItem(*item))),
        }
    }

    /// Stores a new item and caches it.
    pub fn add<D: ItemRepository<B>>(&mut self, db: &D, item: B) -> (r: Result<ItemID, BartendError>)
        ensures
            final(self).page_len() == old(self).page_len(),
            match r {
                Ok(id) => final(self).item_map() == old(self).item_map().insert(id.0, item),
                Err(e) => e is Db && final(self).item_map() == old(self).item_map(),
            },
            exists|stored: Result<ItemID, DBError>|
                #[trigger] call_ensures(D::insert, (db, &item), stored) && item_added(
                    old(self).item_map(),
                    final(self).item_map(),
                    stored,
                    item,
                    r,
                ),
    {
        let stored = db.insert(&item);
        self.finish_add(stored, item)
    }

    /// Caches an item once storage has answered the request to store it:
    /// under the identifier that storage assigned, or not at all when storage failed.
    pub fn finish_add(&mut self, stored: Result<ItemID, DBError>, item: B) -> (r: Result<
        ItemID,
        BartendError,
    >)
        ensures
            final(self).page_len() == old(self).page_len(),
            match stored {
                Ok(id) => r == Ok::<ItemID, BartendError>(id) && final(self).item_map() == old(
                    self,
                ).item_map().insert(id.0, item),
                Err(e) => r == Err::<ItemID, BartendError>(BartendError::Db(e))
                    && final(self).item_map() == old(self).item_map(),
            },
    {
        let id = match stored {
            Ok(id) => id,
            Err(e) => return Err(BartendError::Db(e)),
        };
        self.items.insert(id.0, item);
        Ok(id)
    }

    /// Stores a new body for a cached item and caches it.
    pub fn update<D: ItemRepository<B>>(&mut self, db: &D, item: Item<B>) -> (r: Result<(), BartendError>)
        requires
            old(self).item_map().contains_key(item.id.0),
        ensures
            final(self).page_len() == old(self).page_len(),
            match r {
                Ok(()) => final(self).item_map() == old(self).item_map().insert(item.id.0, item.body),
                Err(e) => e is Db && final(self).item_map() == old(self).item_map(),
            },
            exists|stored: Result<(), DBError>|
                #[trigger] call_ensures(D::update, (db, &item), stored) && item_updated(
                    old(self).item_map(),
                    final(self).item_map(),
                    stored,
                    item,
                    r,
                ),
    {
        let stored = db.update(&item);
        self.finish_update(stored, item)
    }

    /// Caches the new body of a cached item once storage has answered the
    /// request to store it: when storage accepted it, and not at all otherwise.
    pub fn finish_update(&mut self, stored: Result<(), DBError>, item: Item<B>) -> (r: Result<
        (),
        BartendError,
    >)
        requires
            old(self).item_map().contains_key(item.id.0),
        ensures
            final(self).page_len() == old(self).page_len(),
            match stored {
                Ok(()) => r == Ok::<(), BartendError>(()) && final(self).item_map() == old(
                    self,
                ).item_map().insert(item.id.0, item.body),
                Err(e) => r == Err::<(), BartendError>(BartendError::Db(e))
                    && final(self).item_map() == old(self).item_map(),
            },
    {
        if let Err(e) = stored {
            return Err(BartendError::Db(e));
        }
        self.items.insert(item.id.0, item.body);
        Ok(())
    }

    /// Deletes an item from storage and then from the cache.
    pub fn delete<D: ItemRepository<B>>(&mut self, db: &D, item: ItemID) -> (r: Result<(), BartendError>)
        ensures
            final(self).page_len() == old(self).page_len(),
            match r {
                Ok(()) => final(self).item_map() == old(self).item_map().remove(item.0),
                Err(e) => e is Db && final(self).item_map() == old(self).item_map(),
            },
            exists|stored: Result<(), DBError>|
                #[trigger] call_ensures(D::delete, (db, item), stored) && item_deleted(
                    old(self).item_map(),
                    final(self).item_map(),
                    stored,
                    item,
                    r,
                ),
    {
        let stored = db.delete(item);
        self.finish_delete(stored, item)
    }

    /// Drops an item from the cache once storage has answered the request to
    /// delete it: when storage accepted, and not at all otherwise.
    pub fn finish_delete(&mut self, stored: Result<(), DBError>, item: ItemID) -> (r: Result<
        (),
        BartendError,
    >)
        ensures
            final(self).page_len() == old(self).page_len(),
            match stored {
                Ok(()) => r == Ok::<(), BartendError>(()) && final(self).item_map() == old(
                    self,
                ).item_map().remove(item.0),
                Err(e) => r == Err::<(), BartendError>(BartendError::Db(e))
                    && final(self).item_map() == old(self).item_map(),
            },
    {
        if let Err(e) = stored {
            return Err(BartendError::Db(e));
        }
        self.items.remove(&item.0);
        Ok(())
    }
}

/// What `add` or `update` stored, `get` reads back.
pub proof fn law_item_write_reads_back<B>(before: ItemService<B>, after: ItemService<B>, id: ItemID, body: B)
    requires
        after.item_map() == before.item_map().insert(id.0, body),
    ensures
        after.item_map().contains_key(id.0),
        after.item_map()[id.0] == body,
{
}

/// After `delete`, `get` refuses the item.
pub proof fn law_item_delete_forgets<B>(before: ItemService<B>, after: ItemService<B>, id: ItemID)
    requires
        after.item_map() == before.item_map().remove(id.0),
    ensures
        !after.item_map().contains_key(id.0),
{
}

/// Loading keeps every item that storage read: when storage answers the read
/// with `items`, loading succeeds and the cache holds exactly those items.
pub proof fn law_load_keeps_every_item<B, D: ItemRepository<B>>(
    db: &D,
    items: HashMap<i64, B>,
    r: Result<ItemService<B>, BartendError>,
)
    requires
        exists|read: Result<HashMap<i64, B>, DBError>|
            #[trigger] call_ensures(D::get_all, (db,), read) && items_from_read(read, r),
        forall|read: Result<HashMap<i64, B>, DBError>|
            #[trigger] call_ensures(D::get_all, (db,), read) ==> read == Ok::<
                HashMap<i64, B>,
                DBError,
            >(items),
    ensures
        r matches Ok(s) && s.item_map() == items@,
{
    let read = choose|read: Result<HashMap<i64, B>, DBError>|
        #[trigger] call_ensures(D::get_all, (db,), read) && items_from_read(read, r);
    assert(read == Ok::<HashMap<i64, B>, DBError>(items));
}

/// Adding an item that storage stores under `id` returns `id`, and the cache
/// then holds the item under `id`; when storage refuses with `e`, adding fails
/// with `e` and the cache is unchanged.
pub proof fn law_add_follows_storage<B, D: ItemRepository<B>>(
    db: &D,
    before: Map<i64, B>,
    after: Map<i64, B>,
    item: B,
    r: Result<ItemID, BartendError>,
)
    requires
        exists|stored: Result<ItemID, DBError>|
            #[trigger] call_ensures(D::insert, (db, &item), stored) && item_added(
                before,
                after,
                stored,
                item,
                r,
            ),
    ensures
        forall|id: ItemID|
            (forall|stored: Result<ItemID, DBError>|
                #[trigger] call_ensures(D::insert, (db, &item), stored) ==> stored == Ok::<
                    ItemID,
                    DBError,
                >(id)) ==> r == Ok::<ItemID, BartendError>(id) && after.contains_key(id.0)
                && after[id.0] == item,
        forall|e: DBError|
            (forall|stored: Result<ItemID, DBError>|
                #[trigger] call_ensures(D::insert, (db, &item), stored) ==> stored == Err::<
                    ItemID,
                    DBError,
                >(e)) ==> r == Err::<ItemID, BartendError>(BartendError::Db(e)) && after == before,
{
}

/// Updating and deleting a cached item that storage accepts succeed: the
/// updated item holds its new body, the deleted one is gone.
pub proof fn law_accepted_item_writes_succeed<B, D: ItemRepository<B>>(
    db: &D,
    before: Map<i64, B>,
    updated: Map<i64, B>,
    deleted: Map<i64, B>,
    item: Item<B>,
    r_update: Result<(), BartendError>,
    r_delete: Result<(), BartendError>,
)
    requires
        exists|stored: Result<(), DBError>|
            #[trigger] call_ensures(D::update, (db, &item), stored) && item_updated(
                before,
                updated,
                stored,
                item,
                r_update,
            ),
        exists|stored: Result<(), DBError>|
            #[trigger] call_ensures(D::delete, (db, item.id), stored) && item_deleted(
                before,
                deleted,
                stored,
                item.id,
                r_delete,
            ),
        forall|stored: Result<(), DBError>|
            #[trigger] call_ensures(D::update, (db, &item), stored) ==> stored is Ok,
        forall|stored: Result<(), DBError>|
            #[trigger] call_ensures(D::delete, (db, item.id), stored) ==> stored is Ok,
    ensures
        r_update is Ok,
        updated.contains_key(item.id.0) && updated[item.id.0] == item.body,
        r_delete is Ok,
        !deleted.contains_key(item.id.0),
{
}

} // verus!
