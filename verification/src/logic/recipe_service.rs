//! The in-memory view of the recipes, listed in order of name. Every write
//! goes to storage first.

use crate::logic::category_service::page_of;
use crate::logic::order::{in_name_order, sort_by_name};
use crate::logic::reach::vertex_list;
use crate::logic::text::{lowercase, lowercase_chars};
use crate::models::{BartendError, DBError, LogicError, Recipe, RecipeBody, RecipeID};
use crate::persistence::repositories::RecipeRepository;
use std::collections::HashMap;
use vstd::prelude::*;

verus! {

broadcast use vstd::std_specs::hash::group_hash_axioms;

/// Cached recipes, whose ingredient quantities are of type `Q`.
#[derive(Debug)]
pub struct RecipeService<Q> {
    recipes: HashMap<i64, RecipeBody<Q>>,
}

/// The key by which each recipe is ordered: its lower-case name.
pub open spec fn recipe_name_keys<Q>(recipes: Map<i64, RecipeBody<Q>>) -> Map<i64, Seq<char>> {
    Map::new(|k: i64| recipes.contains_key(k), |k: i64| lowercase(recipes[k].name@))
}

/// The cache that storage's answer `read` to the request for every recipe
/// gives: exactly the recipes read, or storage's error passed on.
pub open spec fn recipes_from_read<Q>(
    read: Result<HashMap<i64, RecipeBody<Q>>, DBError>,
    r: Result<RecipeService<Q>, BartendError>,
) -> bool {
    match read {
        Ok(recipes) => r matches Ok(s) && s.recipe_map() == recipes@,
        Err(e) => r == Err::<RecipeService<Q>, BartendError>(BartendError::Db(e)),
    }
}

/// The cache `after` and result `r` of adding `body` to `before` when storage
/// answered `stored`: cached under the identifier storage assigned and that
/// identifier returned, or storage's error passed on with nothing cached.
pub open spec fn recipe_added<Q>(
    before: Map<i64, RecipeBody<Q>>,
    after: Map<i64, RecipeBody<Q>>,
    stored: Result<RecipeID, DBError>,
    body: RecipeBody<Q>,
    r: Result<RecipeID, BartendError>,
) -> bool {
    match stored {
        Ok(id) => r == Ok::<RecipeID, BartendError>(id) && after == before.insert(id.0, body),
        Err(e) => r == Err::<RecipeID, BartendError>(BartendError::Db(e)) && after == before,
    }
}

/// The cache `after` and result `r` of deleting `recipe` from `before` when
/// storage answered `stored`.
pub open spec fn recipe_deleted<Q>(
    before: Map<i64, RecipeBody<Q>>,
    after: Map<i64, RecipeBody<Q>>,
    stored: Result<(), DBError>,
    recipe: RecipeID,
    r: Result<(), BartendError>,
) -> bool {
    match stored {
        Ok(()) => r == Ok::<(), BartendError>(()) && after == before.remove(recipe.0),
        Err(e) => r == Err::<(), BartendError>(BartendError::Db(e)) && after == before,
    }
}

/// The cache `after` and result `r` of storing a new body for `recipe` in
/// `before` when storage answered `stored`: a cached recipe takes the body,
/// an uncached one is refused, and storage's error is passed on.
pub open spec fn recipe_updated<Q>(
    before: Map<i64, RecipeBody<Q>>,
    after: Map<i64, RecipeBody<Q>>,
    stored: Result<(), DBError>,
    recipe: Recipe<Q>,
    r: Result<(), BartendError>,
) -> bool {
    match stored {
        Err(e) => r == Err::<(), BartendError>(BartendError::Db(e)) && after == before,
        Ok(()) => if before.contains_key(recipe.id.0) {
            r == Ok::<(), BartendError>(()) && after == before.insert(recipe.id.0, recipe.body)
        } else {
            r == Err::<(), BartendError>(BartendError::Logic(LogicError::InvalidRecipe(recipe.id)))
                && after == before
        },
    }
}

impl<Q> RecipeService<Q> {
    /// The cached body of each recipe.
    pub closed spec fn recipe_map(&self) -> Map<i64, RecipeBody<Q>> {
        self.recipes@
    }

    /// The cache built from what storage returned.
    pub fn from_recipes(recipes: HashMap<i64, RecipeBody<Q>>) -> (r: Self)
        ensures
            r.recipe_map() == recipes@,
    {
        RecipeService { recipes }
    }

    /// Loads every recipe from storage.
    pub fn new<D: RecipeRepository<Q>>(db: &D) -> (r: Result<Self, BartendError>)
        ensures
            r matches Err(e) ==> e is Db,
            exists|read: Result<HashMap<i64, RecipeBody<Q>>, DBError>|
                #[trigger] call_ensures(D::get_all, (db,), read) && recipes_from_read(read, r),
    {
        let read = db.get_all();
        Self::from_read(read)
    }

    /// The cache built from storage's answer to the request for every recipe:
    /// exactly the recipes read, or storage's error passed on.
    pub fn from_read(read: Result<HashMap<i64, RecipeBody<Q>>, DBError>) -> (r: Result<
        Self,
        BartendError,
    >)
        ensures
            match read {
                Ok(recipes) => r matches Ok(s) && s.recipe_map() == recipes@,
                Err(e) => r == Err::<Self, BartendError>(BartendError::Db(e)),
            },
            recipes_from_read(read, r),
    {
        match read {
            Ok(recipes) => Ok(Self::from_recipes(recipes)),
            Err(e) => Err(BartendError::Db(e)),
        }
    }

    /// The identifiers of page `page`, of `page_size` entries each, of the
    /// recipes in order of lower-case name and then identifier.
    pub fn get_page(&self, page: usize, page_size: usize) -> (r: Vec<RecipeID>)
        requires
            page * page_size <= usize::MAX,
        ensures
            exists|s: Seq<i64>|
                #[trigger] in_name_order(recipe_name_keys(self.recipe_map()), s) && r@ == page_of(
                    s,
                    page as int,
                    page_size as int,
                ).map_values(|k: i64| RecipeID(k)),
    {
        let page_offset = page * page_size;
        let sorted = self.get_sorted();
        let n = sorted.len();
        let start = if page_offset < n { page_offset } else { n };
        let end = if page_size < n - start { start + page_size } else { n };
        let mut r: Vec<RecipeID> = Vec::new();
        let mut j: usize = start;
        while j < end
            invariant
                start <= j <= end <= n,
                n == sorted@.len(),
                r@ == sorted@.subrange(start as int, j as int).map_values(|k: i64| RecipeID(k)),
            decreases end - j,
        {
            r.push(RecipeID(sorted[j]));
            proof {
                assert(r@ =~= sorted@.subrange(start as int, j + 1).map_values(|k: i64| RecipeID(k)));
            }
            j = j + 1;
        }
        proof {
            assert(r@ =~= page_of(sorted@, page as int, page_size as int).map_values(
                |k: i64| RecipeID(k),
            ));
        }
        r
    }

    /// Every recipe identifier, ordered by lower-case name and then identifier.
    fn get_sorted(&self) -> (r: Vec<i64>)
        ensures
            in_name_order(recipe_name_keys(self.recipe_map()), r@),
    {
        let ghost c = self.recipe_map();
        let ghost names = recipe_name_keys(c);
        let keys = vertex_list(&self.recipes);
        let mut pool: Vec<(Vec<char>, i64)> = Vec::new();
        let n = keys.len();
        let mut j: usize = 0;
        while j < n
            invariant
                c == self.recipe_map(),
                n == keys@.len(),
                j <= n,
                keys@.to_set() == c.dom(),
                keys@.no_duplicates(),
                pool@.len() == j,
                forall|i: int|
                    0 <= i < j ==> #[trigger] pool@[i].1 == keys@[i] && pool@[i].0@ == lowercase(
                        c[keys@[i]].name@,
                    ),
            decreases n - j,
        {
            let k = keys[j];
            proof {
                assert(keys@.to_set().contains(k));
            }
            let body = self.recipes.get(&k).unwrap();
            pool.push((lowercase_chars(&body.name), k));
            j = j + 1;
        }
        proof {
            assert forall|i: int| 0 <= i < pool@.len() implies names.contains_key(
                #[trigger] pool@[i].1,
            ) && pool@[i].0@ == names[pool@[i].1] by {
                assert(keys@.to_set().contains(keys@[i]));
            }
            assert forall|i: int, k: int| 0 <= i < k < pool@.len() implies pool@[i].1 != pool@[k].1 by {
                assert(pool@[i].1 == keys@[i]);
                assert(pool@[k].1 == keys@[k]);
            }
            assert forall|x: i64| names.contains_key(x) implies exists|i: int|
                0 <= i < pool@.len() && pool@[i].1 == x by {
                assert(keys@.to_set().contains(x));
                let i = choose|i: int| 0 <= i < keys@.len() && keys@[i] == x;
                assert(pool@[i].1 == x);
            }
        }
        sort_by_name(pool, Ghost(names))
    }

    /// Every cached recipe, in no particular order.
    pub fn get_all(&self) -> (r: Vec<Recipe<Q>>)
        where
            Q: Copy,
        ensures
            r@.len() == self.recipe_map().len(),
            forall|i: int|
                0 <= i < r@.len() ==> #[trigger] self.recipe_map().contains_key(r@[i].id.0)
                    && r@[i].body.name@ == self.recipe_map()[r@[i].id.0].name@
                    && r@[i].body.ingredients@ == self.recipe_map()[r@[i].id.0].ingredients@,
            forall|i: int, j: int| 0 <= i < j < r@.len() ==> r@[i].id != r@[j].id,
            forall|c: i64|
                #[trigger] self.recipe_map().contains_key(c) ==> exists|i: int|
                    0 <= i < r@.len() && r@[i].id.0 == c,
    {
        let keys = vertex_list(&self.recipes);
        let mut r: Vec<Recipe<Q>> = Vec::new();
        let n = keys.len();
        let mut j: usize = 0;
        while j < n
            invariant
                n == keys@.len(),
                j <= n,
                keys@.to_set() == self.recipes@.dom(),
                keys@.no_duplicates(),
                r@.len() == j,
                forall|i: int|
                    0 <= i < j ==> r@[i].id.0 == keys@[i] && r@[i].body.name@
                        == self.recipes@[keys@[i]].name@ && r@[i].body.ingredients@
                        == self.recipes@[keys@[i]].ingredients@,
            decreases n - j,
        {
            let k = keys[j];
            proof {
                assert(keys@.to_set().contains(k));
            }
            let body = self.recipes.get(&k).unwrap();
            r.push(Recipe { id: RecipeID(k), body: body.copied() });
            j = j + 1;
        }
        proof {
            keys@.unique_seq_to_set();
            assert forall|i: int, j: int| 0 <= i < j < r@.len() implies r@[i].id != r@[j].id by {
                assert(keys@[i] != keys@[j]);
            }
            assert forall|c: i64| #[trigger] self.recipe_map().contains_key(c) implies exists|i: int|
                0 <= i < r@.len() && r@[i].id.0 == c by {
                assert(keys@.to_set().contains(c));
                let i = choose|i: int| 0 <= i < keys@.len() && keys@[i] == c;
                assert(r@[i].id.0 == c);
            }
            assert forall|i: int| 0 <= i < r@.len() implies #[trigger] self.recipe_map().contains_key(
                r@[i].id.0,
            ) && r@[i].body.name@ == self.recipe_map()[r@[i].id.0].name@
                && r@[i].body.ingredients@ == self.recipe_map()[r@[i].id.0].ingredients@ by {
                assert(keys@.to_set().contains(keys@[i]));
            }
        }
        r
    }

    /// A copy of the cached body of recipe `id`.
    pub fn get(&self, id: RecipeID) -> (r: Result<RecipeBody<Q>, BartendError>)
        where
            Q: Copy,
        ensures
            match r {
                Ok(body) => {
                    &&& self.recipe_map().contains_key(id.0)
                    &&& body.name@ == self.recipe_map()[id.0].name@
                    &&& body.ingredients@ == self.recipe_map()[id.0].ingredients@
                },
                Err(e) => !self.recipe_map().contains_key(id.0) && e == BartendError::Logic(
                    LogicError::InvalidRecipe(id),
                ),
            },
    {
        match self.recipes.get(&id.0) {
            Some(body) => Ok(body.copied()),
            None => Err(BartendError::Logic(LogicError::InvalidRecipe(id))),
        }
    }

    /// Stores a new recipe and caches it.
    pub fn add<D: RecipeRepository<Q>>(&mut self, db: &D, body: RecipeBody<Q>) -> (r: Result<
        RecipeID,
        BartendError,
    >)
        ensures
            match r {
                Ok(id) => final(self).recipe_map() == old(self).recipe_map().insert(id.0, body),
                Err(e) => e is Db && final(self).recipe_map() == old(self).recipe_map(),
            },
            exists|stored: Result<RecipeID, DBError>|
                #[trigger] call_ensures(D::insert, (db, &body), stored) && recipe_added(
                    old(self).recipe_map(),
                    final(self).recipe_map(),
                    stored,
                    body,
                    r,
                ),
    {
        let stored = db.insert(&body);
        self.finish_add(stored, body)
    }

    /// Caches a recipe once storage has answered the request to store it:
    /// under the identifier that storage assigned, or not at all when storage failed.
    pub fn finish_add(&mut self, stored: Result<RecipeID, DBError>, body: RecipeBody<Q>) -> (r:
        Result<RecipeID, BartendError>)
        ensures
            match stored {
                Ok(id) => r == Ok::<RecipeID, BartendError>(id) && final(self).recipe_map() == old(
                    self,
                ).recipe_map().insert(id.0, body),
                Err(e) => r == Err::<RecipeID, BartendError>(BartendError::Db(e))
                    && final(self).recipe_map() == old(self).recipe_map(),
            },
            recipe_added(old(self).recipe_map(), final(self).recipe_map(), stored, body, r),
    {
        let id = match stored {
            Ok(id) => id,
            Err(e) => return Err(BartendError::Db(e)),
        };
        self.recipes.insert(id.0, body);
        Ok(id)
    }

    /// Deletes a recipe from storage and then from the cache.
    pub fn delete<D: RecipeRepository<Q>>(&mut self, db: &D, recipe: RecipeID) -> (r: Result<
        (),
        BartendError,
    >)
        ensures
            match r {
                Ok(()) => final(self).recipe_map() == old(self).recipe_map().remove(recipe.0),
                Err(e) => e is Db && final(self).recipe_map() == old(self).recipe_map(),
            },
            exists|stored: Result<(), DBError>|
                #[trigger] call_ensures(D::delete, (db, recipe), stored) && recipe_deleted(
                    old(self).recipe_map(),
                    final(self).recipe_map(),
                    stored,
                    recipe,
                    r,
                ),
    {
        let stored = db.delete(recipe);
        self.finish_delete(stored, recipe)
    }

    /// Drops a recipe from the cache once storage has answered the request to
    /// delete it: when storage accepted, and not at all otherwise.
    pub fn finish_delete(&mut self, stored: Result<(), DBError>, recipe: RecipeID) -> (r: Result<
        (),
        BartendError,
    >)
        ensures
            match stored {
                Ok(()) => r == Ok::<(), BartendError>(()) && final(self).recipe_map() == old(
                    self,
                ).recipe_map().remove(recipe.0),
                Err(e) => r == Err::<(), BartendError>(BartendError::Db(e))
                    && final(self).recipe_map() == old(self).recipe_map(),
            },
            recipe_deleted(old(self).recipe_map(), final(self).recipe_map(), stored, recipe, r),
    {
        if let Err(e) = stored {
            return Err(BartendError::Db(e));
        }
        self.recipes.remove(&recipe.0);
        Ok(())
    }

    /// Stores a new body for a recipe, then caches it; a recipe that is not
    /// cached is refused after storage was written.
    pub fn update<D: RecipeRepository<Q>>(&mut self, db: &D, recipe: Recipe<Q>) -> (r: Result<
        (),
        BartendError,
    >)
        ensures
            match r {
                Ok(()) => {
                    &&& old(self).recipe_map().contains_key(recipe.id.0)
                    &&& final(self).recipe_map() == old(self).recipe_map().insert(
                        recipe.id.0,
                        recipe.body,
                    )
                },
                Err(e) => {
                    &&& final(self).recipe_map() == old(self).recipe_map()
                    &&& (e is Db || (!old(self).recipe_map().contains_key(recipe.id.0) && e
                        == BartendError::Logic(LogicError::InvalidRecipe(recipe.id))))
                },
            },
            exists|stored: Result<(), DBError>|
                #[trigger] call_ensures(D::update, (db, &recipe), stored) && recipe_updated(
                    old(self).recipe_map(),
                    final(self).recipe_map(),
                    stored,
                    recipe,
                    r,
                ),
    {
        let stored = db.update(&recipe);
        self.finish_update(stored, recipe)
    }

    /// Caches a recipe's new body once storage has answered the request to
    /// store it: storage's error is passed on; otherwise a cached recipe takes
    /// the new body and an uncached one is refused.
    pub fn finish_update(&mut self, stored: Result<(), DBError>, recipe: Recipe<Q>) -> (r: Result<
        (),
        BartendError,
    >)
        ensures
            match stored {
                Err(e) => r == Err::<(), BartendError>(BartendError::Db(e))
                    && final(self).recipe_map() == old(self).recipe_map(),
                Ok(()) => if old(self).recipe_map().contains_key(recipe.id.0) {
                    r == Ok::<(), BartendError>(()) && final(self).recipe_map() == old(
                        self,
                    ).recipe_map().insert(recipe.id.0, recipe.body)
                } else {
                    r == Err::<(), BartendError>(
                        BartendError::Logic(LogicError::InvalidRecipe(recipe.id)),
                    ) && final(self).recipe_map() == old(self).recipe_map()
                },
            },
            recipe_updated(old(self).recipe_map(), final(self).recipe_map(), stored, recipe, r),
    {
        if let Err(e) = stored {
            return Err(BartendError::Db(e));
        }
        if !self.recipes.contains_key(&recipe.id.0) {
            return Err(BartendError::Logic(LogicError::InvalidRecipe(recipe.id)));
        }
        self.recipes.insert(recipe.id.0, recipe.body);
        Ok(())
    }

    /// The number of cached recipes.
    pub fn recipe_count(&self) -> (r: usize)
        ensures
            r == self.recipe_map().len(),
    {
        self.recipes.len()
    }
}

/// What `add` or `update` stored, `get` reads back with the same name and
/// ingredients.
pub proof fn law_recipe_write_reads_back<Q>(
    before: RecipeService<Q>,
    after: RecipeService<Q>,
    id: RecipeID,
    body: RecipeBody<Q>,
)
    requires
        after.recipe_map() == before.recipe_map().insert(id.0, body),
    ensures
        after.recipe_map().contains_key(id.0),
        after.recipe_map()[id.0].name@ == body.name@,
        after.recipe_map()[id.0].ingredients@ == body.ingredients@,
{
}

/// After `delete`, `get` refuses the recipe.
pub proof fn law_recipe_delete_forgets<Q>(before: RecipeService<Q>, after: RecipeService<Q>, id: RecipeID)
    requires
        after.recipe_map() == before.recipe_map().remove(id.0),
    ensures
        !after.recipe_map().contains_key(id.0),
{
}

/// Loading keeps every recipe that storage read: when storage answers the read
/// with `recipes`, loading succeeds and the cache holds exactly those recipes,
/// each with its name and ingredients.
pub proof fn law_load_keeps_every_recipe<Q, D: RecipeRepository<Q>>(
    db: &D,
    recipes: HashMap<i64, RecipeBody<Q>>,
    r: Result<RecipeService<Q>, BartendError>,
)
    requires
        exists|read: Result<HashMap<i64, RecipeBody<Q>>, DBError>|
            #[trigger] call_ensures(D::get_all, (db,), read) && recipes_from_read(read, r),
        forall|read: Result<HashMap<i64, RecipeBody<Q>>, DBError>|
            #[trigger] call_ensures(D::get_all, (db,), read) ==> read == Ok::<
                HashMap<i64, RecipeBody<Q>>,
                DBError,
            >(recipes),
    ensures
        r matches Ok(s) && {
            &&& s.recipe_map().dom() == recipes@.dom()
            &&& forall|id: i64|
                #[trigger] recipes@.contains_key(id) ==> s.recipe_map()[id].name@
                    == recipes@[id].name@ && s.recipe_map()[id].ingredients@
                    == recipes@[id].ingredients@
        },
{
    let read = choose|read: Result<HashMap<i64, RecipeBody<Q>>, DBError>|
        #[trigger] call_ensures(D::get_all, (db,), read) && recipes_from_read(read, r);
    assert(read == Ok::<HashMap<i64, RecipeBody<Q>>, DBError>(recipes));
}

/// A failed read fails loading with storage's own error.
pub proof fn law_failed_load_passes_the_error_on<Q, D: RecipeRepository<Q>>(
    db: &D,
    e: DBError,
    r: Result<RecipeService<Q>, BartendError>,
)
    requires
        exists|read: Result<HashMap<i64, RecipeBody<Q>>, DBError>|
            #[trigger] call_ensures(D::get_all, (db,), read) && recipes_from_read(read, r),
        forall|read: Result<HashMap<i64, RecipeBody<Q>>, DBError>|
            #[trigger] call_ensures(D::get_all, (db,), read) ==> read == Err::<
                HashMap<i64, RecipeBody<Q>>,
                DBError,
            >(e),
    ensures
        r == Err::<RecipeService<Q>, BartendError>(BartendError::Db(e)),
{
}

/// Adding a recipe that storage stores under `id` returns `id`, and the
/// cache then holds the recipe under `id`; no other recipe changes.
pub proof fn law_add_returns_the_stored_identifier<Q, D: RecipeRepository<Q>>(
    db: &D,
    before: Map<i64, RecipeBody<Q>>,
    after: Map<i64, RecipeBody<Q>>,
    body: RecipeBody<Q>,
    id: RecipeID,
    r: Result<RecipeID, BartendError>,
)
    requires
        exists|stored: Result<RecipeID, DBError>|
            #[trigger] call_ensures(D::insert, (db, &body), stored) && recipe_added(
                before,
                after,
                stored,
                body,
                r,
            ),
        forall|stored: Result<RecipeID, DBError>|
            #[trigger] call_ensures(D::insert, (db, &body), stored) ==> stored == Ok::<
                RecipeID,
                DBError,
            >(id),
    ensures
        r == Ok::<RecipeID, BartendError>(id),
        after.contains_key(id.0),
        after[id.0] == body,
        forall|k: i64| k != id.0 ==> after.contains_key(k) == before.contains_key(k) && (
        #[trigger] before.contains_key(k) ==> after[k] == before[k]),
{
}

/// Deleting or updating a recipe that storage accepts always succeeds for a
/// cached recipe: the deleted recipe is gone, the updated one holds its new body.
pub proof fn law_accepted_writes_succeed<Q, D: RecipeRepository<Q>>(
    db: &D,
    before: Map<i64, RecipeBody<Q>>,
    deleted: Map<i64, RecipeBody<Q>>,
    updated: Map<i64, RecipeBody<Q>>,
    recipe: Recipe<Q>,
    r_delete: Result<(), BartendError>,
    r_update: Result<(), BartendError>,
)
    requires
        before.contains_key(recipe.id.0),
        exists|stored: Result<(), DBError>|
            #[trigger] call_ensures(D::delete, (db, recipe.id), stored) && recipe_deleted(
                before,
                deleted,
                stored,
                recipe.id,
                r_delete,
            ),
        exists|stored: Result<(), DBError>|
            #[trigger] call_ensures(D::update, (db, &recipe), stored) && recipe_updated(
                before,
                updated,
                stored,
                recipe,
                r_update,
            ),
        forall|stored: Result<(), DBError>|
            #[trigger] call_ensures(D::delete, (db, recipe.id), stored) ==> stored is Ok,
        forall|stored: Result<(), DBError>|
            #[trigger] call_ensures(D::update, (db, &recipe), stored) ==> stored is Ok,
    ensures
        r_delete is Ok,
        !deleted.contains_key(recipe.id.0),
        r_update is Ok,
        updated[recipe.id.0] == recipe.body,
{
}

} // verus!
