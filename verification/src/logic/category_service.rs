//! The in-memory view of the categories: their bodies, their relations and
//! the items that belong to each. Every write goes to storage first and is
//! mirrored in the cache only when storage accepted it.

use crate::logic::graph::{
    bypass, law_insert_edge_keeps_acyclic, non_cyclic_additions, DirectedAcyclicGraph, GraphError,
    GraphPatch,
};
use crate::logic::order::{in_name_order, sort_by_name};
use crate::logic::text::{lowercase, lowercase_chars};
use crate::logic::reach::{
    acyclic, adjacency, copy_set, descendants, extend_set, lemma_reaches_source_is_vertex, parents,
    reaches, reaches_or_same, set_elements, vertex_list,
};
use crate::models::{
    BartendError, Category, CategoryBody, CategoryFilter, CategoryID, DBError, ItemID, LogicError,
};
use crate::persistence::repositories::CategoryRepository;
use std::collections::HashMap;
use std::collections::HashSet;
use vstd::prelude::*;

verus! {

broadcast use vstd::std_specs::hash::group_hash_axioms;

/// Cached categories, relations and item mappings.
#[derive(Debug)]
pub struct CategoryService {
    categories: HashMap<i64, CategoryBody>,
    category_mapping: HashMap<i64, HashSet<i64>>,
    item_mapping: HashMap<i64, i64>,
    graph: DirectedAcyclicGraph,
}

/// The mapping writes that moving an item takes, each as (item, category):
/// the one to delete, then the one to add.
#[derive(Debug, Clone, Copy)]
pub struct MappingChange {
    pub remove: Option<(ItemID, CategoryID)>,
    pub add: Option<(ItemID, CategoryID)>,
}

/// The items mapped to each category that some item is mapped to.
pub open spec fn members_of(items: Map<i64, i64>) -> Map<i64, Set<i64>> {
    Map::new(
        |c: i64| exists|i: i64| items.contains_key(i) && items[i] == c,
        |c: i64| Set::new(|i: i64| items.contains_key(i) && items[i] == c),
    )
}

/// The items recorded for category `c`; none when it has no entry.
pub open spec fn items_in(members: Map<i64, Set<i64>>, c: i64) -> Set<i64> {
    if members.contains_key(c) {
        members[c]
    } else {
        Set::empty()
    }
}

/// `g` with every element of `vs` as a vertex, without edges when new.
pub open spec fn with_vertices(g: Map<i64, Set<i64>>, vs: Set<i64>) -> Map<i64, Set<i64>> {
    Map::new(
        |k: i64| g.contains_key(k) || vs.contains(k),
        |k: i64|
            if g.contains_key(k) {
                g[k]
            } else {
                Set::empty()
            },
    )
}

/// `g` with `v` as a vertex, without edges when new.
pub open spec fn with_vertex(g: Map<i64, Set<i64>>, v: i64) -> Map<i64, Set<i64>> {
    if g.contains_key(v) {
        g
    } else {
        g.insert(v, Set::empty())
    }
}

/// Each category's recorded items are exactly the items mapped to it.
pub open spec fn item_sets_agree(members: Map<i64, Set<i64>>, items: Map<i64, i64>) -> bool {
    forall|c: i64|
        #[trigger] items_in(members, c) == Set::new(|i: i64| items.contains_key(i) && items[i] == c)
}

/// The item sets after recording that item `i` belongs to category `c`.
pub open spec fn with_member(members: Map<i64, Set<i64>>, c: i64, i: i64) -> Map<i64, Set<i64>> {
    members.insert(c, items_in(members, c).insert(i))
}

pub proof fn lemma_members_of_agree(items: Map<i64, i64>)
    ensures
        item_sets_agree(members_of(items), items),
{
    assert forall|c: i64| #[trigger] items_in(members_of(items), c) == Set::new(|i: i64| items.contains_key(i) && items[i] == c) by {
        if !members_of(items).contains_key(c) {
            assert(items_in(members_of(items), c) =~= Set::new(|i: i64| items.contains_key(i) && items[i] == c));
        }
    }
}

/// The items of `c` and of every category below it.
pub open spec fn satisfying(
    members: Map<i64, Set<i64>>,
    relations: Map<i64, Set<i64>>,
    c: i64,
) -> Set<i64> {
    Set::new(
        |i: i64| exists|d: i64| reaches_or_same(relations, c, d) && #[trigger] items_in(members, d).contains(i),
    )
}

/// The item mapping without the items of category `c`.
pub open spec fn without_category(items: Map<i64, i64>, c: i64) -> Map<i64, i64> {
    Map::new(|i: i64| items.contains_key(i) && items[i] != c, |i: i64| items[i])
}

/// The relations after removing category `c`, which need not be a vertex.
pub open spec fn relations_without(g: Map<i64, Set<i64>>, c: i64) -> Map<i64, Set<i64>> {
    if g.contains_key(c) {
        bypass(g, c)
    } else {
        g
    }
}

/// The key by which each category is ordered: its lower-case name.
pub open spec fn name_keys(categories: Map<i64, CategoryBody>) -> Map<i64, Seq<char>> {
    Map::new(|k: i64| categories.contains_key(k), |k: i64| lowercase(categories[k].name@))
}

/// `s` lists every category once, ordered by lower-case name and then identifier.
pub open spec fn is_name_order(categories: Map<i64, CategoryBody>, s: Seq<i64>) -> bool {
    in_name_order(name_keys(categories), s)
}

/// The part of `s` that page `number` of `size` entries shows.
pub open spec fn page_of(s: Seq<i64>, number: int, size: int) -> Seq<i64> {
    let start = if number * size < s.len() { number * size } else { s.len() as int };
    let end = if start + size < s.len() { start + size } else { s.len() as int };
    s.subrange(start, end)
}

/// Pages `0` to `k - 1` of `size` entries each, one after another.
pub open spec fn first_pages(s: Seq<i64>, size: int, k: nat) -> Seq<i64>
    decreases k,
{
    if k == 0 {
        Seq::empty()
    } else {
        first_pages(s, size, (k - 1) as nat) + page_of(s, k - 1, size)
    }
}

/// Reading the pages of a listing one after another from the first gives the
/// listing itself, in order, without gaps or repeats.
#[verifier::spinoff_prover]
pub proof fn law_pages_concatenate(s: Seq<i64>, size: int, k: nat)
    requires
        size > 0,
    ensures
        first_pages(s, size, k) == s.take(
            if k * size < s.len() {
                k * size
            } else {
                s.len() as int
            },
        ),
    decreases k,
{
    if k == 0 {
        assert(s.take(0) =~= Seq::<i64>::empty());
    } else {
        let j = (k - 1) as nat;
        law_pages_concatenate(s, size, j);
        assert(j * size + size == k * size) by (nonlinear_arith)
            requires
                j == k - 1,
        ;
        assert(j * size <= k * size) by (nonlinear_arith)
            requires
                j == k - 1,
                size > 0,
        ;
        let end = if k * size < s.len() {
            k * size
        } else {
            s.len() as int
        };
        assert(first_pages(s, size, k) =~= s.take(end));
    }
}

/// What storage's answer `stored` to a write makes of an operation's result:
/// success, or storage's own error passed on.
pub open spec fn passed_on(stored: Result<(), DBError>) -> Result<(), BartendError> {
    match stored {
        Ok(()) => Ok(()),
        Err(e) => Err(BartendError::Db(e)),
    }
}

/// The cache that storage's answers to the reads of the categories, the item
/// mapping and the relations give: the first failed read's error, or exactly
/// what the reads returned.
pub open spec fn categories_from_reads(
    categories: Result<HashMap<i64, CategoryBody>, DBError>,
    item_mapping: Result<HashMap<i64, i64>, DBError>,
    relations: Result<HashMap<i64, HashSet<i64>>, DBError>,
    r: Result<CategoryService, BartendError>,
) -> bool {
    match (categories, item_mapping, relations) {
        (Err(e), _, _) => r == Err::<CategoryService, BartendError>(BartendError::Db(e)),
        (Ok(_), Err(e), _) => r == Err::<CategoryService, BartendError>(BartendError::Db(e)),
        (Ok(_), Ok(_), Err(e)) => r == Err::<CategoryService, BartendError>(BartendError::Db(e)),
        (Ok(c), Ok(m), Ok(g)) => r matches Ok(s) && {
            &&& s.category_map() == c@
            &&& s.item_map() == m@
            &&& s.member_map() == members_of(m@)
            &&& s.relations() == with_vertices(adjacency(g@), c@.dom())
            &&& s.consistent()
        },
    }
}

/// `r` is what loading gives when `db` answers the reads of the categories,
/// the item mapping and the relations, made in that order and stopping at the
/// first that fails.
pub open spec fn loaded_through_storage<D: CategoryRepository>(
    db: &D,
    r: Result<CategoryService, BartendError>,
) -> bool {
    exists|c: Result<HashMap<i64, CategoryBody>, DBError>|
        #[trigger] call_ensures(D::get_all, (db,), c) && match c {
            Err(e) => r == Err::<CategoryService, BartendError>(BartendError::Db(e)),
            Ok(_) => exists|m: Result<HashMap<i64, i64>, DBError>|
                #[trigger] call_ensures(D::get_map, (db,), m) && match m {
                    Err(e) => r == Err::<CategoryService, BartendError>(BartendError::Db(e)),
                    Ok(_) => exists|g: Result<HashMap<i64, HashSet<i64>>, DBError>|
                        #[trigger] call_ensures(D::get_graph, (db,), g) && categories_from_reads(
                            c,
                            m,
                            g,
                            r,
                        ),
                },
        }
}

/// `after` and `r` are what deleting `category` from `before` gives when `db`
/// answers the request to apply the category's removal patch.
pub open spec fn deleted_through_storage<D: CategoryRepository>(
    db: &D,
    before: CategoryService,
    after: CategoryService,
    category: CategoryID,
    r: Result<(), BartendError>,
) -> bool {
    exists|patch: GraphPatch, stored: Result<(), DBError>|
        #[trigger] call_ensures(D::delete, (db, &patch), stored) && is_removal_patch(
            before.relations(),
            category,
            patch,
        ) && category_deleted(before, after, stored, category, r)
}

/// The cache `after` and result `r` of inserting `body` into `before` when
/// storage answered `stored`.
pub open spec fn category_inserted(
    before: CategoryService,
    after: CategoryService,
    stored: Result<CategoryID, DBError>,
    body: CategoryBody,
    r: Result<CategoryID, BartendError>,
) -> bool {
    match stored {
        Ok(id) => {
            &&& r == Ok::<CategoryID, BartendError>(id)
            &&& after.category_map() == before.category_map().insert(id.0, body)
            &&& after.relations() == with_vertex(before.relations(), id.0)
            &&& after.member_map() == before.member_map()
            &&& after.item_map() == before.item_map()
            &&& before.consistent() ==> after.consistent()
        },
        Err(e) => r == Err::<CategoryID, BartendError>(BartendError::Db(e)) && after == before,
    }
}

/// The cache `after` and result `r` of storing a new body for `category` in
/// `before` when storage answered `stored`.
pub open spec fn category_updated(
    before: CategoryService,
    after: CategoryService,
    stored: Result<(), DBError>,
    category: Category,
    r: Result<(), BartendError>,
) -> bool {
    match stored {
        Err(e) => r == Err::<(), BartendError>(BartendError::Db(e)) && after == before,
        Ok(()) => if before.category_map().contains_key(category.id.0) {
            &&& r == Ok::<(), BartendError>(())
            &&& after.category_map() == before.category_map().insert(category.id.0, category.body)
            &&& after.relations() == before.relations()
            &&& after.member_map() == before.member_map()
            &&& after.item_map() == before.item_map()
            &&& before.consistent() ==> after.consistent()
        } else {
            &&& r == Err::<(), BartendError>(
                BartendError::Logic(LogicError::InvalidCategory(category.id)),
            )
            &&& after == before
        },
    }
}

/// `patch` is what removing `category` from the relations `g` changes: the
/// category, with its parents and children when it is a vertex.
pub open spec fn is_removal_patch(g: Map<i64, Set<i64>>, category: CategoryID, patch: GraphPatch) -> bool {
    &&& patch.to_remove == category.0
    &&& match (patch.parents, patch.children) {
        (Some(ps), Some(cs)) => {
            &&& g.contains_key(category.0)
            &&& ps@.to_set() == parents(g, category.0)
            &&& ps@.no_duplicates()
            &&& cs@.to_set() == g[category.0]
            &&& cs@.no_duplicates()
        },
        (None, None) => !g.contains_key(category.0),
        _ => false,
    }
}

/// The cache `after` and result `r` of deleting `category` from `before` when
/// storage answered `stored`.
pub open spec fn category_deleted(
    before: CategoryService,
    after: CategoryService,
    stored: Result<(), DBError>,
    category: CategoryID,
    r: Result<(), BartendError>,
) -> bool {
    match stored {
        Ok(()) => {
            &&& r == Ok::<(), BartendError>(())
            &&& after.category_map() == before.category_map().remove(category.0)
            &&& after.relations() == relations_without(before.relations(), category.0)
            &&& after.member_map() == before.member_map().remove(category.0)
            &&& after.item_map() == without_category(before.item_map(), category.0)
            &&& before.consistent() ==> after.consistent()
        },
        Err(e) => r == Err::<(), BartendError>(BartendError::Db(e)) && after == before,
    }
}

/// The cache `after` and result `r` of deleting the relation `parent -> child`
/// from `before` when storage answered `stored`.
pub open spec fn relation_removed(
    before: CategoryService,
    after: CategoryService,
    stored: Result<(), DBError>,
    parent: CategoryID,
    child: CategoryID,
    r: Result<(), BartendError>,
) -> bool {
    &&& after.category_map() == before.category_map()
    &&& after.member_map() == before.member_map()
    &&& after.item_map() == before.item_map()
    &&& before.consistent() ==> after.consistent()
    &&& r == passed_on(stored)
    &&& after.relations() == if stored is Ok && before.relations().contains_key(parent.0) {
        before.relations().insert(parent.0, before.relations()[parent.0].remove(child.0))
    } else {
        before.relations()
    }
}

/// The cache `after` and result `r` of recording that `item` belongs to
/// `category` in `before` when storage answered `stored`.
pub open spec fn mapping_added(
    before: CategoryService,
    after: CategoryService,
    stored: Result<(), DBError>,
    item: ItemID,
    category: CategoryID,
    r: Result<(), BartendError>,
) -> bool {
    match stored {
        Ok(()) => {
            &&& r == Ok::<(), BartendError>(())
            &&& after.category_map() == before.category_map()
            &&& after.relations() == before.relations()
            &&& after.member_map() == with_member(before.member_map(), category.0, item.0)
            &&& after.item_map() == before.item_map().insert(item.0, category.0)
            &&& before.consistent() && !before.item_map().contains_key(item.0)
                ==> after.consistent()
        },
        Err(e) => r == Err::<(), BartendError>(BartendError::Db(e)) && after == before,
    }
}

/// The cache `after` and result `r` of taking `item` out of its category
/// `prev` in `before` when storage answered `stored`; with `leaving` the item
/// leaves every category, otherwise it is about to move to another.
pub open spec fn mapping_removed(
    before: CategoryService,
    after: CategoryService,
    stored: Result<(), DBError>,
    item: ItemID,
    prev: CategoryID,
    leaving: bool,
    r: Result<(), BartendError>,
) -> bool {
    let m0 = before.member_map();
    let i0 = before.item_map();
    &&& after.category_map() == before.category_map()
    &&& after.relations() == before.relations()
    &&& match stored {
        Err(e) => r == Err::<(), BartendError>(BartendError::Db(e)) && after == before,
        Ok(()) => if m0.contains_key(prev.0) {
            &&& r == Ok::<(), BartendError>(())
            &&& after.member_map() == m0.insert(prev.0, m0[prev.0].remove(item.0))
            &&& after.item_map() == i0.remove(item.0)
            &&& before.consistent() ==> after.consistent()
        } else {
            &&& r == Err::<(), BartendError>(BartendError::Logic(LogicError::InvalidCategory(prev)))
            &&& after.member_map() == m0
            &&& after.item_map() == if leaving {
                i0.remove(item.0)
            } else {
                i0
            }
        },
    }
}

impl CategoryService {
    /// The cached body of each category.
    pub closed spec fn category_map(&self) -> Map<i64, CategoryBody> {
        self.categories@
    }

    /// The cached items of each category.
    pub closed spec fn member_map(&self) -> Map<i64, Set<i64>> {
        adjacency(self.category_mapping@)
    }

    /// The cached category of each item.
    pub closed spec fn item_map(&self) -> Map<i64, i64> {
        self.item_mapping@
    }

    /// The cached relations between categories.
    pub closed spec fn relations(&self) -> Map<i64, Set<i64>> {
        self.graph@
    }

    /// The item sets agree with the item mapping, and every category is in the relations.
    pub open spec fn consistent(&self) -> bool {
        &&& item_sets_agree(self.member_map(), self.item_map())
        &&& forall|c: i64| #[trigger] self.category_map().contains_key(c) ==> self.relations().contains_key(c)
    }

    /// The cache built from what storage returned.
    pub fn from_parts(
        categories: HashMap<i64, CategoryBody>,
        item_mapping: HashMap<i64, i64>,
        relations: HashMap<i64, HashSet<i64>>,
    ) -> (r: Self)
        ensures
            r.category_map() == categories@,
            r.item_map() == item_mapping@,
            r.member_map() == members_of(item_mapping@),
            r.relations() == with_vertices(adjacency(relations@), categories@.dom()),
    {
        let ghost items = item_mapping@;
        let item_keys = vertex_list(&item_mapping);
        let mut category_mapping: HashMap<i64, HashSet<i64>> = HashMap::new();
        let n = item_keys.len();
        let mut j: usize = 0;
        while j < n
            invariant
                items == item_mapping@,
                n == item_keys@.len(),
                j <= n,
                item_keys@.to_set() == items.dom(),
                item_keys@.no_duplicates(),
                adjacency(category_mapping@) == members_of(
                    items.restrict(item_keys@.take(j as int).to_set()),
                ),
            decreases n - j,
        {
            let item = item_keys[j];
            proof {
                assert(item_keys@.to_set().contains(item));
            }
            let category = *item_mapping.get(&item).unwrap();
            let ghost before = adjacency(category_mapping@);
            let mut set = match category_mapping.remove(&category) {
                Some(s) => s,
                None => HashSet::new(),
            };
            let ghost set0 = set@;
            proof {
                if before.contains_key(category) {
                    assert(set0 == before[category]);
                } else {
                    assert(set0 =~= Set::<i64>::empty());
                }
            }
            set.insert(item);
            category_mapping.insert(category, set);
            proof {
                let t0 = item_keys@.take(j as int);
                let t1 = item_keys@.take(j + 1);
                assert(t1 == t0.push(item));
                t0.lemma_push_to_set_commute(item);
                let r0 = items.restrict(t0.to_set());
                let r1 = items.restrict(t1.to_set());
                assert(r1 =~= r0.insert(item, category));
                if r0.contains_key(item) {
                    let k = choose|k: int| 0 <= k < t0.len() && t0[k] == item;
                    assert(item_keys@[k] == item);
                    assert(false);
                }
                assert forall|c: i64| #[trigger] members_of(r1).contains_key(c) <==> adjacency(category_mapping@).contains_key(c) by {
                    if c == category {
                        assert(r1.contains_key(item) && r1[item] == c);
                    } else if members_of(r0).contains_key(c) {
                        let i = choose|i: i64| r0.contains_key(i) && r0[i] == c;
                        assert(r1.contains_key(i) && r1[i] == c);
                    } else if members_of(r1).contains_key(c) {
                        let i = choose|i: i64| r1.contains_key(i) && r1[i] == c;
                        assert(r0.contains_key(i) && r0[i] == c);
                    }
                }
                assert forall|c: i64| #[trigger] members_of(r1).contains_key(c) implies members_of(r1)[c] =~= adjacency(category_mapping@)[c] by {
                    if c != category {
                        let i = choose|i: i64| r1.contains_key(i) && r1[i] == c;
                        assert(r0.contains_key(i) && r0[i] == c);
                        assert(members_of(r0).contains_key(c));
                        assert(members_of(r1)[c] =~= members_of(r0)[c]);
                        assert(adjacency(category_mapping@)[c] == before[c]);
                    } else {
                        assert(adjacency(category_mapping@)[c] == set0.insert(item));
                        if members_of(r0).contains_key(c) {
                            assert(before.contains_key(c));
                            assert(set0 == members_of(r0)[c]);
                            assert(members_of(r1)[c] =~= members_of(r0)[c].insert(item));
                        } else {
                            assert(!before.contains_key(c));
                            assert forall|i: i64| !(r0.contains_key(i) && r0[i] == c) by {}
                            assert(members_of(r1)[c] =~= Set::<i64>::empty().insert(item));
                        }
                    }
                }
                assert(members_of(r1) =~= adjacency(category_mapping@));
            }
            j = j + 1;
        }
        proof {
            assert(item_keys@.take(n as int) == item_keys@);
            assert(items.restrict(item_keys@.to_set()) =~= items);
        }
        let mut graph = DirectedAcyclicGraph::load(relations);
        let ghost g0 = graph@;
        let category_keys = vertex_list(&categories);
        let m = category_keys.len();
        let mut k: usize = 0;
        while k < m
            invariant
                m == category_keys@.len(),
                k <= m,
                category_keys@.to_set() == categories@.dom(),
                graph@ == with_vertices(g0, category_keys@.take(k as int).to_set()),
            decreases m - k,
        {
            proof {
                let t0 = category_keys@.take(k as int);
                assert(category_keys@.take(k + 1) == t0.push(category_keys@[k as int]));
                t0.lemma_push_to_set_commute(category_keys@[k as int]);
            }
            graph.insert_vertex(category_keys[k]);
            proof {
                assert(graph@ =~= with_vertices(g0, category_keys@.take(k + 1).to_set()));
            }
            k = k + 1;
        }
        proof {
            assert(category_keys@.take(m as int) == category_keys@);
        }
        CategoryService { categories, category_mapping, item_mapping, graph }
    }

    /// Loads every category, relation and item mapping from storage.
    pub fn new<D: CategoryRepository>(db: &D) -> (r: Result<Self, BartendError>)
        ensures
            r matches Ok(s) ==> s.consistent(),
            r matches Err(e) ==> e is Db,
            loaded_through_storage(db, r),
    {
        let categories = db.get_all();
        let item_mapping = if categories.is_ok() {
            db.get_map()
        } else {
            Ok(HashMap::new())
        };
        let relations = if categories.is_ok() && item_mapping.is_ok() {
            db.get_graph()
        } else {
            Ok(HashMap::new())
        };
        Self::from_reads(categories, item_mapping, relations)
    }

    /// The cache built from storage's answers to the reads of the categories,
    /// the item mapping and the relations, in that order: the error of the
    /// first read that failed is passed on; when all succeeded, the cache holds
    /// exactly what they returned.
    pub fn from_reads(
        categories: Result<HashMap<i64, CategoryBody>, DBError>,
        item_mapping: Result<HashMap<i64, i64>, DBError>,
        relations: Result<HashMap<i64, HashSet<i64>>, DBError>,
    ) -> (r: Result<Self, BartendError>)
        ensures
            match (categories, item_mapping, relations) {
                (Err(e), _, _) => r == Err::<Self, BartendError>(BartendError::Db(e)),
                (Ok(_), Err(e), _) => r == Err::<Self, BartendError>(BartendError::Db(e)),
                (Ok(_), Ok(_), Err(e)) => r == Err::<Self, BartendError>(BartendError::Db(e)),
                (Ok(c), Ok(m), Ok(g)) => r matches Ok(s) && {
                    &&& s.category_map() == c@
                    &&& s.item_map() == m@
                    &&& s.member_map() == members_of(m@)
                    &&& s.relations() == with_vertices(adjacency(g@), c@.dom())
                    &&& s.consistent()
                },
            },
            categories_from_reads(categories, item_mapping, relations, r),
    {
        let categories = match categories {
            Ok(c) => c,
            Err(e) => return Err(BartendError::Db(e)),
        };
        let item_mapping = match item_mapping {
            Ok(m) => m,
            Err(e) => return Err(BartendError::Db(e)),
        };
        let relations = match relations {
            Ok(g) => g,
            Err(e) => return Err(BartendError::Db(e)),
        };
        let s = Self::from_parts(categories, item_mapping, relations);
        proof {
            lemma_members_of_agree(s.item_map());
        }
        Ok(s)
    }

    /// The category that `item` is mapped to, if any.
    pub fn item_category(&self, item: &ItemID) -> (r: Option<CategoryID>)
        ensures
            r == if self.item_map().contains_key(item.0) {
                Some(CategoryID(self.item_map()[item.0]))
            } else {
                None::<CategoryID>
            },
    {
        match self.item_mapping.get(&item.0) {
            Some(c) => Some(CategoryID(*c)),
            None => None,
        }
    }

    /// The direct children of `category`.
    pub fn child_categories(&self, category: &CategoryID) -> (r: Result<HashSet<i64>, BartendError>)
        ensures
            match r {
                Ok(children) => self.relations().contains_key(category.0) && children@
                    == self.relations()[category.0],
                Err(e) => !self.relations().contains_key(category.0) && e == BartendError::Logic(
                    LogicError::CategoryNotInGraph(*category),
                ),
            },
    {
        match self.graph.get_edges(&category.0) {
            Some(children) => Ok(children),
            None => Err(BartendError::Logic(LogicError::CategoryNotInGraph(*category))),
        }
    }

    /// Every cached category, in no particular order.
    #[must_use]
    pub fn get_all(&self, _filter: CategoryFilter) -> (r: Vec<Category>)
        ensures
            r@.len() == self.category_map().len(),
            forall|i: int|
                0 <= i < r@.len() ==> #[trigger] self.category_map().contains_key(r@[i].id.0)
                    && r@[i].body == self.category_map()[r@[i].id.0],
            forall|i: int, j: int| 0 <= i < j < r@.len() ==> r@[i].id != r@[j].id,
            forall|c: i64|
                #[trigger] self.category_map().contains_key(c) ==> exists|i: int|
                    0 <= i < r@.len() && r@[i].id.0 == c,
    {
        let keys = vertex_list(&self.categories);
        let mut r: Vec<Category> = Vec::new();
        let n = keys.len();
        let mut j: usize = 0;
        while j < n
            invariant
                n == keys@.len(),
                j <= n,
                keys@.to_set() == self.categories@.dom(),
                keys@.no_duplicates(),
                r@.len() == j,
                forall|i: int|
                    0 <= i < j ==> r@[i].id.0 == keys@[i] && r@[i].body == self.categories@[keys@[i]],
            decreases n - j,
        {
            let k = keys[j];
            proof {
                assert(keys@.to_set().contains(k));
            }
            let body = self.categories.get(&k).unwrap();
            r.push(Category { id: CategoryID(k), body: CategoryBody { name: body.name.clone() } });
            j = j + 1;
        }
        proof {
            keys@.unique_seq_to_set();
            assert forall|i: int, j: int| 0 <= i < j < r@.len() implies r@[i].id != r@[j].id by {
                assert(keys@[i] != keys@[j]);
            }
            assert forall|c: i64| #[trigger] self.category_map().contains_key(c) implies exists|i: int|
                0 <= i < r@.len() && r@[i].id.0 == c by {
                assert(keys@.to_set().contains(c));
                let i = choose|i: int| 0 <= i < keys@.len() && keys@[i] == c;
                assert(r@[i].id.0 == c);
            }
            assert forall|i: int| 0 <= i < r@.len() implies #[trigger] self.category_map().contains_key(r@[i].id.0)
                && r@[i].body == self.category_map()[r@[i].id.0] by {
                assert(keys@.to_set().contains(keys@[i]));
            }
        }
        r
    }

    /// The cached body of category `id`.
    pub fn get(&self, id: &CategoryID) -> (r: Result<&CategoryBody, BartendError>)
        ensures
            match r {
                Ok(body) => self.category_map().contains_key(id.0) && *body == self.category_map()[id.0],
                Err(e) => !self.category_map().contains_key(id.0) && e == BartendError::Logic(
                    LogicError::InvalidCategory(*id),
                ),
            },
    {
        match self.categories.get(&id.0) {
            Some(body) => Ok(body),
            None => Err(BartendError::Logic(LogicError::InvalidCategory(*id))),
        }
    }

    /// The items mapped directly to `category`.
    pub fn get_items(&self, category: &CategoryID) -> (r: HashSet<i64>)
        ensures
            r@ == items_in(self.member_map(), category.0),
    {
        match self.category_mapping.get(&category.0) {
            Some(set) => copy_set(set),
            None => {
                let r: HashSet<i64> = HashSet::new();
                proof {
                    assert(r@ =~= Set::<i64>::empty());
                }
                r
            },
        }
    }

    /// Stores a new category and caches it as a vertex without relations.
    pub fn insert<D: CategoryRepository>(&mut self, db: &D, body: &CategoryBody) -> (r: Result<
        CategoryID,
        BartendError,
    >)
        ensures
            match r {
                Ok(id) => {
                    &&& final(self).category_map() == old(self).category_map().insert(id.0, *body)
                    &&& final(self).relations() == with_vertex(old(self).relations(), id.0)
                    &&& final(self).member_map() == old(self).member_map()
                    &&& final(self).item_map() == old(self).item_map()
                    &&& old(self).consistent() ==> final(self).consistent()
                },
                Err(e) => e is Db && *final(self) == *old(self),
            },
            exists|stored: Result<CategoryID, DBError>|
                #[trigger] call_ensures(D::insert, (db, body), stored) && category_inserted(
                    *old(self),
                    *final(self),
                    stored,
                    *body,
                    r,
                ),
    {
        let stored = db.insert(body);
        self.finish_insert(stored, body)
    }

    /// Caches a category once storage has answered the request to store `body`:
    /// under the identifier that storage assigned, or not at all when storage failed.
    pub fn finish_insert(&mut self, stored: Result<CategoryID, DBError>, body: &CategoryBody) -> (r:
        Result<CategoryID, BartendError>)
        ensures
            match stored {
                Ok(id) => {
                    &&& r == Ok::<CategoryID, BartendError>(id)
                    &&& final(self).category_map() == old(self).category_map().insert(id.0, *body)
                    &&& final(self).relations() == with_vertex(old(self).relations(), id.0)
                    &&& final(self).member_map() == old(self).member_map()
                    &&& final(self).item_map() == old(self).item_map()
                    &&& old(self).consistent() ==> final(self).consistent()
                },
                Err(e) => r == Err::<CategoryID, BartendError>(BartendError::Db(e)) && *final(self)
                    == *old(self),
            },
            category_inserted(*old(self), *final(self), stored, *body, r),
    {
        let id = match stored {
            Ok(id) => id,
            Err(e) => return Err(BartendError::Db(e)),
        };
        self.categories.insert(id.0, CategoryBody { name: body.name.clone() });
        self.graph.insert_vertex(id.0);
        proof {
            if old(self).consistent() {
                assert forall|d: i64| #[trigger] self.category_map().contains_key(d) implies self.relations().contains_key(d) by {
                    if d != id.0 {
                        assert(old(self).category_map().contains_key(d));
                    }
                }
            }
        }
        Ok(id)
    }

    /// Stores a new body for an existing category and caches it.
    pub fn update<D: CategoryRepository>(&mut self, db: &D, category: &Category) -> (r: Result<
        (),
        BartendError,
    >)
        ensures
            match r {
                Ok(()) => {
                    &&& old(self).category_map().contains_key(category.id.0)
                    &&& final(self).category_map() == old(self).category_map().insert(
                        category.id.0,
                        category.body,
                    )
                    &&& final(self).relations() == old(self).relations()
                    &&& final(self).member_map() == old(self).member_map()
                    &&& final(self).item_map() == old(self).item_map()
                    &&& old(self).consistent() ==> final(self).consistent()
                },
                Err(BartendError::Logic(e)) => {
                    &&& !old(self).category_map().contains_key(category.id.0)
                    &&& e == LogicError::InvalidCategory(category.id)
                    &&& *final(self) == *old(self)
                },
                Err(e) => e is Db && *final(self) == *old(self),
            },
            exists|stored: Result<(), DBError>|
                #[trigger] call_ensures(D::update, (db, category), stored) && category_updated(
                    *old(self),
                    *final(self),
                    stored,
                    *category,
                    r,
                ),
    {
        let stored = db.update(category);
        self.finish_update(stored, category)
    }

    /// Caches a category's new body once storage has answered the request to
    /// store it: storage's error is passed on; otherwise a cached category
    /// takes the new body and an uncached one is refused.
    pub fn finish_update(&mut self, stored: Result<(), DBError>, category: &Category) -> (r: Result<
        (),
        BartendError,
    >)
        ensures
            match stored {
                Err(e) => r == Err::<(), BartendError>(BartendError::Db(e)) && *final(self) == *old(
                    self,
                ),
                Ok(()) => if old(self).category_map().contains_key(category.id.0) {
                    &&& r == Ok::<(), BartendError>(())
                    &&& final(self).category_map() == old(self).category_map().insert(
                        category.id.0,
                        category.body,
                    )
                    &&& final(self).relations() == old(self).relations()
                    &&& final(self).member_map() == old(self).member_map()
                    &&& final(self).item_map() == old(self).item_map()
                    &&& old(self).consistent() ==> final(self).consistent()
                } else {
                    &&& r == Err::<(), BartendError>(
                        BartendError::Logic(LogicError::InvalidCategory(category.id)),
                    )
                    &&& *final(self) == *old(self)
                },
            },
            category_updated(*old(self), *final(self), stored, *category, r),
    {
        if let Err(e) = stored {
            return Err(BartendError::Db(e));
        }
        if self.categories.contains_key(&category.id.0) {
            self.categories.insert(
                category.id.0,
                CategoryBody { name: category.body.name.clone() },
            );
            proof {
                if old(self).consistent() {
                    assert forall|d: i64| #[trigger] self.category_map().contains_key(d) implies self.relations().contains_key(d) by {
                        assert(old(self).category_map().contains_key(d));
                    }
                }
            }
            Ok(())
        } else {
            Err(BartendError::Logic(LogicError::InvalidCategory(category.id)))
        }
    }

    /// Stores and caches the relation `parent -> child`, unless it would close a cycle.
    pub fn add_category_relation<D: CategoryRepository>(
        &mut self,
        db: &D,
        parent: &CategoryID,
        child: &CategoryID,
    ) -> (r: Result<(), BartendError>)
        ensures
            final(self).category_map() == old(self).category_map(),
            final(self).member_map() == old(self).member_map(),
            final(self).item_map() == old(self).item_map(),
            old(self).consistent() ==> final(self).consistent(),
            ({
                let g = old(self).relations();
                let (p, c) = (parent.0, child.0);
                if !(g.contains_key(p) && g.contains_key(c)) {
                    &&& r == Err::<(), BartendError>(
                        BartendError::Logic(LogicError::CategoryNotInGraph(*parent)),
                    )
                    &&& final(self).relations() == g
                } else if reaches_or_same(g, c, p) {
                    &&& r == Err::<(), BartendError>(
                        BartendError::Logic(
                            LogicError::InvalidCategoryRelation { parent: *parent, child: *child },
                        ),
                    )
                    &&& final(self).relations() == g
                } else {
                    &&& final(self).relations() == g.insert(p, g[p].insert(c))
                    &&& (r is Ok || r matches Err(BartendError::Db(_)))
                    &&& exists|stored: Result<(), DBError>|
                        #[trigger] call_ensures(D::insert_relation, (db, *parent, *child), stored)
                            && r == passed_on(stored)
                }
            }),
    {
        let r = self.graph.insert_edge(&parent.0, &child.0);
        proof {
            if old(self).consistent() {
                assert forall|d: i64| #[trigger] self.category_map().contains_key(d) implies self.relations().contains_key(d) by {
                    assert(old(self).category_map().contains_key(d));
                }
            }
        }
        match r {
            Ok(()) => {
                let stored = db.insert_relation(*parent, *child);
                Self::finish_add_relation(stored)
            },
            Err(GraphError::EdgeEndpointNotInGraph) => {
                Err(BartendError::Logic(LogicError::CategoryNotInGraph(*parent)))
            },
            Err(GraphError::WouldIntroduceCycle) => {
                Err(
                    BartendError::Logic(
                        LogicError::InvalidCategoryRelation { parent: *parent, child: *child },
                    ),
                )
            },
        }
    }

    /// The result of adding a relation, given storage's answer to the request
    /// to store it: its error passed on, or success.
    pub fn finish_add_relation(stored: Result<(), DBError>) -> (r: Result<(), BartendError>)
        ensures
            r == passed_on(stored),
            match stored {
                Ok(()) => r == Ok::<(), BartendError>(()),
                Err(e) => r == Err::<(), BartendError>(BartendError::Db(e)),
            },
    {
        match stored {
            Ok(()) => Ok(()),
            Err(e) => Err(BartendError::Db(e)),
        }
    }

    /// Deletes the relation `parent -> child` from storage and then from the cache.
    pub fn remove_category_relation<D: CategoryRepository>(
        &mut self,
        db: &D,
        parent: &CategoryID,
        child: &CategoryID,
    ) -> (r: Result<(), BartendError>)
        ensures
            final(self).category_map() == old(self).category_map(),
            final(self).member_map() == old(self).member_map(),
            final(self).item_map() == old(self).item_map(),
            old(self).consistent() ==> final(self).consistent(),
            match r {
                Ok(()) => final(self).relations() == if old(self).relations().contains_key(
                    parent.0,
                ) {
                    old(self).relations().insert(
                        parent.0,
                        old(self).relations()[parent.0].remove(child.0),
                    )
                } else {
                    old(self).relations()
                },
                Err(e) => e is Db && final(self).relations() == old(self).relations(),
            },
            exists|stored: Result<(), DBError>|
                #[trigger] call_ensures(D::delete_edge, (db, *parent, *child), stored)
                    && relation_removed(*old(self), *final(self), stored, *parent, *child, r),
    {
        let stored = db.delete_edge(*parent, *child);
        self.finish_remove_relation(stored, parent, child)
    }

    /// Drops the relation `parent -> child` from the cache once storage has
    /// answered the request to delete it: storage's error is passed on with
    /// nothing changed; otherwise the edge is gone, if it was there.
    pub fn finish_remove_relation(
        &mut self,
        stored: Result<(), DBError>,
        parent: &CategoryID,
        child: &CategoryID,
    ) -> (r: Result<(), BartendError>)
        ensures
            final(self).category_map() == old(self).category_map(),
            final(self).member_map() == old(self).member_map(),
            final(self).item_map() == old(self).item_map(),
            old(self).consistent() ==> final(self).consistent(),
            match stored {
                Ok(()) => r == Ok::<(), BartendError>(()) && final(self).relations() == if old(self).relations().contains_key(parent.0) {
                    old(self).relations().insert(
                        parent.0,
                        old(self).relations()[parent.0].remove(child.0),
                    )
                } else {
                    old(self).relations()
                },
                Err(e) => r == Err::<(), BartendError>(BartendError::Db(e))
                    && final(self).relations() == old(self).relations(),
            },
            relation_removed(*old(self), *final(self), stored, *parent, *child, r),
    {
        if let Err(e) = stored {
            return Err(BartendError::Db(e));
        }
        self.graph.remove_edge(&parent.0, &child.0);
        proof {
            if old(self).consistent() {
                assert forall|d: i64| #[trigger] self.category_map().contains_key(d) implies self.relations().contains_key(d) by {
                    assert(old(self).category_map().contains_key(d));
                }
            }
        }
        Ok(())
    }

    /// The items of `category` and of every category below it.
    pub fn satisfying_items(&self, category: &CategoryID) -> (r: HashSet<i64>)
        ensures
            r@ == satisfying(self.member_map(), self.relations(), category.0),
    {
        let ghost m = self.member_map();
        let ghost g = self.relations();
        let c = category.0;
        let mut items = self.get_items(category);
        let below = match self.graph.get_all_children(&c) {
            Some(set) => set,
            None => {
                proof {
                    assert forall|i: i64| items@.contains(i) <==> satisfying(m, g, c).contains(i) by {
                        if satisfying(m, g, c).contains(i) {
                            let d = choose|d: i64| reaches_or_same(g, c, d) && #[trigger] items_in(m, d).contains(i);
                            if d != c {
                                lemma_reaches_source_is_vertex(g, c, d);
                            }
                        }
                        assert(reaches_or_same(g, c, c));
                    }
                    assert(items@ =~= satisfying(m, g, c));
                }
                return items;
            },
        };
        let ds = set_elements(&below);
        let n = ds.len();
        let mut j: usize = 0;
        while j < n
            invariant
                m == self.member_map(),
                g == self.relations(),
                n == ds@.len(),
                j <= n,
                ds@.to_set() == descendants(g, c),
                forall|i: i64|
                    #[trigger] items@.contains(i) <==> (items_in(m, c).contains(i) || exists|k: int|
                        0 <= k < j && items_in(m, ds@[k]).contains(i)),
            decreases n - j,
        {
            let d = ds[j];
            let extra = self.get_items(&CategoryID(d));
            let ghost before = items@;
            extend_set(&mut items, &extra);
            proof {
                assert forall|i: i64|
                    #[trigger] items@.contains(i) <==> (items_in(m, c).contains(i) || exists|k: int|
                        0 <= k < j + 1 && items_in(m, ds@[k]).contains(i)) by {
                    if exists|k: int| 0 <= k < j + 1 && items_in(m, ds@[k]).contains(i) {
                        let k = choose|k: int| 0 <= k < j + 1 && items_in(m, ds@[k]).contains(i);
                        if k < j {
                            assert(before.contains(i));
                        }
                    }
                    if extra@.contains(i) {
                        assert(items_in(m, ds@[j as int]).contains(i));
                    }
                }
            }
            j = j + 1;
        }
        proof {
            assert forall|i: i64| items@.contains(i) <==> satisfying(m, g, c).contains(i) by {
                if satisfying(m, g, c).contains(i) {
                    let d = choose|d: i64| reaches_or_same(g, c, d) && #[trigger] items_in(m, d).contains(i);
                    if d != c {
                        assert(ds@.to_set().contains(d));
                        let k = choose|k: int| 0 <= k < ds@.len() && ds@[k] == d;
                        assert(items_in(m, ds@[k]).contains(i));
                    }
                }
                if items@.contains(i) {
                    assert(reaches_or_same(g, c, c));
                    if !items_in(m, c).contains(i) {
                        let k = choose|k: int| 0 <= k < n && items_in(m, ds@[k]).contains(i);
                        assert(ds@.to_set().contains(ds@[k]));
                        assert(reaches_or_same(g, c, ds@[k]));
                    }
                }
            }
            assert(items@ =~= satisfying(m, g, c));
        }
        items
    }

    /// Deletes a category from storage and then from the cache: its parents
    /// adopt its children and its items lose their category.
    pub fn delete<D: CategoryRepository>(&mut self, db: &D, category: CategoryID) -> (r: Result<
        (),
        BartendError,
    >)
        ensures
            match r {
                Ok(()) => {
                    &&& final(self).category_map() == old(self).category_map().remove(category.0)
                    &&& final(self).relations() == relations_without(old(self).relations(), category.0)
                    &&& final(self).member_map() == old(self).member_map().remove(category.0)
                    &&& final(self).item_map() == without_category(old(self).item_map(), category.0)
                    &&& old(self).consistent() ==> final(self).consistent()
                },
                Err(e) => e is Db && *final(self) == *old(self),
            },
            deleted_through_storage(db, *old(self), *final(self), category, r),
    {
        let patch = self.removal_patch(&category);
        let stored = db.delete(&patch);
        self.finish_delete(stored, category)
    }

    /// What storage is asked to change when `category` is deleted: the
    /// category, with its parents and children when it is in the relations.
    pub fn removal_patch(&self, category: &CategoryID) -> (r: GraphPatch)
        ensures
            r.to_remove == category.0,
            match (r.parents, r.children) {
                (Some(ps), Some(cs)) => {
                    &&& self.relations().contains_key(category.0)
                    &&& ps@.to_set() == parents(self.relations(), category.0)
                    &&& ps@.no_duplicates()
                    &&& cs@.to_set() == self.relations()[category.0]
                    &&& cs@.no_duplicates()
                },
                (None, None) => !self.relations().contains_key(category.0),
                _ => false,
            },
            is_removal_patch(self.relations(), *category, r),
    {
        self.graph.get_removal_patch(&category.0)
    }

    /// Forgets a category once storage has answered the request to delete
    /// it: storage's error is passed on with nothing changed; otherwise the
    /// category leaves the cache, its parents adopt its children and its items
    /// lose their category.
    pub fn finish_delete(&mut self, stored: Result<(), DBError>, category: CategoryID) -> (r: Result<
        (),
        BartendError,
    >)
        ensures
            match stored {
                Ok(()) => {
                    &&& r == Ok::<(), BartendError>(())
                    &&& final(self).category_map() == old(self).category_map().remove(category.0)
                    &&& final(self).relations() == relations_without(old(self).relations(), category.0)
                    &&& final(self).member_map() == old(self).member_map().remove(category.0)
                    &&& final(self).item_map() == without_category(old(self).item_map(), category.0)
                    &&& old(self).consistent() ==> final(self).consistent()
                },
                Err(e) => r == Err::<(), BartendError>(BartendError::Db(e)) && *final(self) == *old(
                    self,
                ),
            },
            category_deleted(*old(self), *final(self), stored, category, r),
    {
        let c = category.0;
        if let Err(e) = stored {
            return Err(BartendError::Db(e));
        }
        self.categories.remove(&c);
        let _ = self.graph.remove(c);
        self.category_mapping.remove(&c);
        proof {
            assert(self.member_map() =~= old(self).member_map().remove(c));
        }
        let ghost items0 = self.item_mapping@;
        let keys = vertex_list(&self.item_mapping);
        let n = keys.len();
        let mut j: usize = 0;
        while j < n
            invariant
                n == keys@.len(),
                j <= n,
                keys@.to_set() == items0.dom(),
                keys@.no_duplicates(),
                items0 == old(self).item_map(),
                self.category_map() == old(self).category_map().remove(c),
                self.relations() == relations_without(old(self).relations(), c),
                self.member_map() == old(self).member_map().remove(c),
                self.item_mapping@ == Map::new(
                    |i: i64| items0.contains_key(i) && !(keys@.take(j as int).contains(i) && items0[i] == c),
                    |i: i64| items0[i],
                ),
            decreases n - j,
        {
            let k = keys[j];
            proof {
                assert(keys@.to_set().contains(k));
                let t0 = keys@.take(j as int);
                if t0.contains(k) {
                    let x = choose|x: int| 0 <= x < t0.len() && t0[x] == k;
                    assert(keys@[x] == k);
                }
            }
            let value = *self.item_mapping.get(&k).unwrap();
            if value == c {
                self.item_mapping.remove(&k);
            }
            proof {
                let t0 = keys@.take(j as int);
                let t1 = keys@.take(j + 1);
                assert(t1 == t0.push(k));
                assert forall|z: i64| t1.contains(z) <==> (t0.contains(z) || z == k) by {
                    if t1.contains(z) {
                        let x = choose|x: int| 0 <= x < t1.len() && t1[x] == z;
                        if x < j {
                            assert(t0[x] == z);
                        }
                    }
                    if t0.contains(z) {
                        let x = choose|x: int| 0 <= x < t0.len() && t0[x] == z;
                        assert(t1[x] == z);
                    }
                    assert(t1[j as int] == k);
                }
                assert(self.item_mapping@ =~= Map::new(
                    |i: i64| items0.contains_key(i) && !(t1.contains(i) && items0[i] == c),
                    |i: i64| items0[i],
                ));
            }
            j = j + 1;
        }
        proof {
            assert(keys@.take(n as int) == keys@);
            assert forall|i: i64| keys@.contains(i) <==> items0.contains_key(i) by {
                assert(keys@.to_set().contains(i) <==> keys@.contains(i));
            }
            assert(self.item_mapping@ =~= without_category(items0, c));
            if old(self).consistent() {
                let m0 = old(self).member_map();
                let m1 = self.member_map();
                let i1 = self.item_map();
                assert forall|d: i64| #[trigger] items_in(m1, d) == Set::new(|i: i64| i1.contains_key(i) && i1[i] == d) by {
                    assert(items_in(m0, d) == Set::new(|i: i64| items0.contains_key(i) && items0[i] == d));
                    if d == c {
                        assert(items_in(m1, d) =~= Set::new(|i: i64| i1.contains_key(i) && i1[i] == d));
                    } else {
                        assert(items_in(m1, d) =~= Set::new(|i: i64| i1.contains_key(i) && i1[i] == d));
                    }
                }
                assert forall|d: i64| #[trigger] self.category_map().contains_key(d) implies self.relations().contains_key(d) by {
                    assert(old(self).category_map().contains_key(d));
                }
            }
        }
        Ok(())
    }

    /// Stores that `item` belongs to `category` and records it in the cache.
    pub fn add_item_mapping<D: CategoryRepository>(
        &mut self,
        db: &D,
        item: &ItemID,
        category: &CategoryID,
    ) -> (r: Result<(), BartendError>)
        ensures
            final(self).category_map() == old(self).category_map(),
            final(self).relations() == old(self).relations(),
            match r {
                Ok(()) => {
                    &&& final(self).member_map() == with_member(old(self).member_map(), category.0, item.0)
                    &&& final(self).item_map() == old(self).item_map().insert(item.0, category.0)
                    &&& old(self).consistent() && !old(self).item_map().contains_key(item.0)
                        ==> final(self).consistent()
                },
                Err(e) => e is Db && *final(self) == *old(self),
            },
            exists|stored: Result<(), DBError>|
                #[trigger] call_ensures(D::map_insert, (db, item, category), stored)
                    && mapping_added(*old(self), *final(self), stored, *item, *category, r),
    {
        let stored = db.map_insert(item, category);
        self.finish_add_item_mapping(stored, item, category)
    }

    /// Records that `item` belongs to `category` once storage has answered the
    /// request to store it: storage's error is passed on with nothing changed.
    pub fn finish_add_item_mapping(
        &mut self,
        stored: Result<(), DBError>,
        item: &ItemID,
        category: &CategoryID,
    ) -> (r: Result<(), BartendError>)
        ensures
            match stored {
                Ok(()) => {
                    &&& r == Ok::<(), BartendError>(())
                    &&& final(self).category_map() == old(self).category_map()
                    &&& final(self).relations() == old(self).relations()
                    &&& final(self).member_map() == with_member(old(self).member_map(), category.0, item.0)
                    &&& final(self).item_map() == old(self).item_map().insert(item.0, category.0)
                    &&& old(self).consistent() && !old(self).item_map().contains_key(item.0)
                        ==> final(self).consistent()
                },
                Err(e) => r == Err::<(), BartendError>(BartendError::Db(e)) && *final(self) == *old(
                    self,
                ),
            },
            mapping_added(*old(self), *final(self), stored, *item, *category, r),
    {
        if let Err(e) = stored {
            return Err(BartendError::Db(e));
        }
        self.record_mapping(item.0, category.0);
        Ok(())
    }

    /// Records in the cache that item `i` belongs to category `c`.
    fn record_mapping(&mut self, i: i64, c: i64)
        ensures
            final(self).category_map() == old(self).category_map(),
            final(self).relations() == old(self).relations(),
            final(self).member_map() == with_member(old(self).member_map(), c, i),
            final(self).item_map() == old(self).item_map().insert(i, c),
            old(self).consistent() && !old(self).item_map().contains_key(i) ==> final(self).consistent(),
    {
        let ghost m0 = self.member_map();
        let mut set = match self.category_mapping.remove(&c) {
            Some(s) => s,
            None => HashSet::new(),
        };
        proof {
            assert(set@ =~= items_in(m0, c));
        }
        set.insert(i);
        self.category_mapping.insert(c, set);
        self.item_mapping.insert(i, c);
        proof {
            assert(self.member_map() =~= with_member(m0, c, i));
            if old(self).consistent() && !old(self).item_map().contains_key(i) {
                let i0 = old(self).item_map();
                let i1 = self.item_map();
                assert forall|d: i64| #[trigger] items_in(self.member_map(), d) == Set::new(|x: i64| i1.contains_key(x) && i1[x] == d) by {
                    assert(items_in(m0, d) == Set::new(|x: i64| i0.contains_key(x) && i0[x] == d));
                    assert(items_in(self.member_map(), d) =~= Set::new(|x: i64| i1.contains_key(x) && i1[x] == d));
                }
                assert forall|d: i64| #[trigger] self.category_map().contains_key(d) implies self.relations().contains_key(d) by {
                    assert(old(self).category_map().contains_key(d));
                }
            }
        }
    }

    /// Removes item `i` from the cached items of category `c`, which must have an entry.
    fn forget_member(&mut self, i: i64, c: i64)
        requires
            old(self).member_map().contains_key(c),
        ensures
            final(self).category_map() == old(self).category_map(),
            final(self).relations() == old(self).relations(),
            final(self).item_map() == old(self).item_map(),
            final(self).member_map() == old(self).member_map().insert(c, old(self).member_map()[c].remove(i)),
    {
        let mut set = self.category_mapping.remove(&c).unwrap();
        set.remove(&i);
        self.category_mapping.insert(c, set);
        proof {
            assert(self.member_map() =~= old(self).member_map().insert(c, old(self).member_map()[c].remove(i)));
        }
    }

    /// Moves `item` to `category`, or out of any category when it is `None`,
    /// first in storage and then in the cache.
    pub fn update_item_mapping<D: CategoryRepository>(
        &mut self,
        db: &D,
        item: &ItemID,
        category: &Option<CategoryID>,
    ) -> (r: Result<(), BartendError>)
        ensures
            final(self).category_map() == old(self).category_map(),
            final(self).relations() == old(self).relations(),
            ({
                let m0 = old(self).member_map();
                let i0 = old(self).item_map();
                let m = final(self).member_map();
                let im = final(self).item_map();
                let i = item.0;
                let unchanged = m == m0 && im == i0;
                if !i0.contains_key(i) {
                    match *category {
                        None => r is Ok && unchanged,
                        Some(n) => match r {
                            Ok(()) => m == with_member(m0, n.0, i) && im == i0.insert(i, n.0),
                            Err(e) => e is Db && unchanged,
                        },
                    }
                } else {
                    let oc = i0[i];
                    let m1 = m0.insert(oc, m0[oc].remove(i));
                    let i1 = i0.remove(i);
                    match *category {
                        None => if r matches Err(BartendError::Db(_)) {
                            unchanged
                        } else if m0.contains_key(oc) {
                            r is Ok && m == m1 && im == i1
                        } else {
                            r == Err::<(), BartendError>(
                                BartendError::Logic(LogicError::InvalidCategory(CategoryID(oc))),
                            ) && m == m0 && im == i1
                        },
                        Some(n) => if !m0.contains_key(oc) {
                            unchanged && (r matches Err(BartendError::Db(_)) || r == Err::<
                                (),
                                BartendError,
                            >(BartendError::Logic(LogicError::InvalidCategory(CategoryID(oc)))))
                        } else {
                            match r {
                                Ok(()) => m == with_member(m1, n.0, i) && im == i1.insert(i, n.0),
                                Err(e) => e is Db && (unchanged || (m == m1 && im == i1)),
                            }
                        },
                    }
                }
            }),
            r is Ok ==> match *category {
                Some(n) => final(self).item_map().contains_key(item.0) && final(self).item_map()[item.0] == n.0
                    && items_in(final(self).member_map(), n.0).contains(item.0),
                None => !final(self).item_map().contains_key(item.0),
            },
            old(self).consistent() && r is Ok ==> final(self).consistent(),
            ({
                let i0 = old(self).item_map();
                if !i0.contains_key(item.0) {
                    match *category {
                        None => true,
                        Some(n) => exists|stored: Result<(), DBError>|
                            #[trigger] call_ensures(D::map_insert, (db, item, &n), stored)
                                && mapping_added(*old(self), *final(self), stored, *item, n, r),
                    }
                } else {
                    let prev = CategoryID(i0[item.0]);
                    match *category {
                        None => exists|stored: Result<(), DBError>|
                            #[trigger] call_ensures(D::map_delete, (db, item, &prev), stored)
                                && mapping_removed(
                                *old(self),
                                *final(self),
                                stored,
                                *item,
                                prev,
                                true,
                                r,
                            ),
                        Some(n) => exists|
                            first: Result<(), DBError>,
                            mid: CategoryService,
                            moved: Result<(), BartendError>,
                        |
                            #![trigger call_ensures(D::map_delete, (db, item, &prev), first), mapping_removed(*old(self), mid, first, *item, prev, false, moved)]
                            call_ensures(D::map_delete, (db, item, &prev), first) && mapping_removed(
                                *old(self),
                                mid,
                                first,
                                *item,
                                prev,
                                false,
                                moved,
                            ) && (moved is Err ==> r == moved && *final(self) == mid) && (moved is Ok
                                ==> exists|second: Result<(), DBError>|
                                #[trigger] call_ensures(D::map_insert, (db, item, &n), second)
                                    && mapping_added(mid, *final(self), second, *item, n, r)),
                    }
                }
            }),
    {
        let change = self.mapping_change(item, category);
        match (change.remove, change.add) {
            (None, Some((i, new))) => self.add_item_mapping(db, &i, &new),
            (Some((i, prev)), None) => {
                let stored = db.map_delete(&i, &prev);
                self.finish_unmap(stored, &i, &prev)
            },
            (Some((i, prev)), Some((j, new))) => {
                let first = db.map_delete(&i, &prev);
                let moved = self.finish_move_out(first, &i, &prev);
                let ghost mid = *self;
                match moved {
                    Ok(()) => {},
                    Err(e) => return Err(e),
                }
                let second = db.map_insert(&j, &new);
                self.finish_add_item_mapping(second, &j, &new)
            },
            (None, None) => Ok(()),
        }
    }

    /// The storage writes that moving `item` to `category` takes: the mapping
    /// to delete first (the item's current category, if it has one), then the
    /// mapping to add (when it moves into a category).
    pub fn mapping_change(&self, item: &ItemID, category: &Option<CategoryID>) -> (r: MappingChange)
        ensures
            r.remove == if self.item_map().contains_key(item.0) {
                Some((*item, CategoryID(self.item_map()[item.0])))
            } else {
                None::<(ItemID, CategoryID)>
            },
            r.add == match *category {
                Some(n) => Some((*item, n)),
                None => None::<(ItemID, CategoryID)>,
            },
    {
        let remove = match self.item_category(item) {
            Some(prev) => Some((*item, prev)),
            None => None,
        };
        let add = match category {
            Some(n) => Some((*item, *n)),
            None => None,
        };
        MappingChange { remove, add }
    }

    /// Takes `item` out of its category `prev` once storage has answered the
    /// request to delete that mapping: storage's error is passed on with
    /// nothing changed. Otherwise the item loses its category; when the cache
    /// holds no item set for `prev`, that is refused after the item lost it.
    pub fn finish_unmap(&mut self, stored: Result<(), DBError>, item: &ItemID, prev: &CategoryID) -> (r:
        Result<(), BartendError>)
        requires
            old(self).item_map().contains_key(item.0),
            old(self).item_map()[item.0] == prev.0,
        ensures
            final(self).category_map() == old(self).category_map(),
            final(self).relations() == old(self).relations(),
            ({
                let m0 = old(self).member_map();
                let i0 = old(self).item_map();
                match stored {
                    Err(e) => r == Err::<(), BartendError>(BartendError::Db(e)) && *final(self)
                        == *old(self),
                    Ok(()) => if m0.contains_key(prev.0) {
                        &&& r == Ok::<(), BartendError>(())
                        &&& final(self).member_map() == m0.insert(prev.0, m0[prev.0].remove(item.0))
                        &&& final(self).item_map() == i0.remove(item.0)
                        &&& old(self).consistent() ==> final(self).consistent()
                    } else {
                        &&& r == Err::<(), BartendError>(
                            BartendError::Logic(LogicError::InvalidCategory(*prev)),
                        )
                        &&& final(self).member_map() == m0
                        &&& final(self).item_map() == i0.remove(item.0)
                    },
                }
            }),
            mapping_removed(*old(self), *final(self), stored, *item, *prev, true, r),
    {
        let ghost before = *self;
        if let Err(e) = stored {
            return Err(BartendError::Db(e));
        }
        self.item_mapping.remove(&item.0);
        if self.category_mapping.contains_key(&prev.0) {
            self.forget_member(item.0, prev.0);
            proof {
                self.lemma_forget_keeps_agreement(before, item.0);
            }
            Ok(())
        } else {
            Err(BartendError::Logic(LogicError::InvalidCategory(*prev)))
        }
    }

    /// Takes `item` out of its category `prev`, before it moves to another,
    /// once storage has answered the request to delete that mapping: storage's
    /// error is passed on with nothing changed, and when the cache holds no
    /// item set for `prev` the move is refused with nothing changed.
    pub fn finish_move_out(&mut self, stored: Result<(), DBError>, item: &ItemID, prev: &CategoryID) -> (r:
        Result<(), BartendError>)
        requires
            old(self).item_map().contains_key(item.0),
            old(self).item_map()[item.0] == prev.0,
        ensures
            final(self).category_map() == old(self).category_map(),
            final(self).relations() == old(self).relations(),
            ({
                let m0 = old(self).member_map();
                let i0 = old(self).item_map();
                match stored {
                    Err(e) => r == Err::<(), BartendError>(BartendError::Db(e)) && *final(self)
                        == *old(self),
                    Ok(()) => if m0.contains_key(prev.0) {
                        &&& r == Ok::<(), BartendError>(())
                        &&& final(self).member_map() == m0.insert(prev.0, m0[prev.0].remove(item.0))
                        &&& final(self).item_map() == i0.remove(item.0)
                        &&& old(self).consistent() ==> final(self).consistent()
                    } else {
                        &&& r == Err::<(), BartendError>(
                            BartendError::Logic(LogicError::InvalidCategory(*prev)),
                        )
                        &&& *final(self) == *old(self)
                    },
                }
            }),
            mapping_removed(*old(self), *final(self), stored, *item, *prev, false, r),
    {
        let ghost before = *self;
        if let Err(e) = stored {
            return Err(BartendError::Db(e));
        }
        if !self.category_mapping.contains_key(&prev.0) {
            return Err(BartendError::Logic(LogicError::InvalidCategory(*prev)));
        }
        self.forget_member(item.0, prev.0);
        self.item_mapping.remove(&item.0);
        proof {
            self.lemma_forget_keeps_agreement(before, item.0);
        }
        Ok(())
    }

    /// After an item leaves its category in both maps, the item sets still agree.
    proof fn lemma_forget_keeps_agreement(&self, before: Self, i: i64)
        requires
            before.item_map().contains_key(i),
            before.member_map().contains_key(before.item_map()[i]),
            self.item_map() == before.item_map().remove(i),
            self.member_map() == before.member_map().insert(
                before.item_map()[i],
                before.member_map()[before.item_map()[i]].remove(i),
            ),
            self.category_map() == before.category_map(),
            self.relations() == before.relations(),
        ensures
            before.consistent() ==> self.consistent(),
    {
        if before.consistent() {
            let i0 = before.item_map();
            let i1 = self.item_map();
            let m0 = before.member_map();
            assert forall|d: i64| #[trigger] items_in(self.member_map(), d) == Set::new(|x: i64| i1.contains_key(x) && i1[x] == d) by {
                assert(items_in(m0, d) == Set::new(|x: i64| i0.contains_key(x) && i0[x] == d));
                assert(items_in(self.member_map(), d) =~= Set::new(|x: i64| i1.contains_key(x) && i1[x] == d));
            }
        }
    }

    /// The identifiers of page `page_number`, of `page_size` entries each, of
    /// the categories in order of lower-case name and then identifier.
    pub fn get_page(&self, page_number: usize, page_size: usize) -> (r: Vec<CategoryID>)
        requires
            page_number * page_size <= usize::MAX,
        ensures
            exists|s: Seq<i64>|
                #[trigger] is_name_order(self.category_map(), s) && r@ == page_of(
                    s,
                    page_number as int,
                    page_size as int,
                ).map_values(|k: i64| CategoryID(k)),
    {
        let page_offset = page_number * page_size;
        let sorted = self.get_sorted();
        let n = sorted.len();
        let start = if page_offset < n { page_offset } else { n };
        let end = if page_size < n - start { start + page_size } else { n };
        let mut r: Vec<CategoryID> = Vec::new();
        let mut j: usize = start;
        while j < end
            invariant
                start <= j <= end <= n,
                n == sorted@.len(),
                r@ == sorted@.subrange(start as int, j as int).map_values(|k: i64| CategoryID(k)),
            decreases end - j,
        {
            r.push(CategoryID(sorted[j]));
            proof {
                assert(r@ =~= sorted@.subrange(start as int, j + 1).map_values(|k: i64| CategoryID(k)));
            }
            j = j + 1;
        }
        proof {
            assert(r@ =~= page_of(sorted@, page_number as int, page_size as int).map_values(
                |k: i64| CategoryID(k),
            ));
            assert(is_name_order(self.category_map(), sorted@));
        }
        r
    }

    /// Every category identifier, ordered by lower-case name and then identifier.
    fn get_sorted(&self) -> (r: Vec<i64>)
        ensures
            is_name_order(self.category_map(), r@),
    {
        let ghost c = self.category_map();
        let keys = vertex_list(&self.categories);
        let mut pool: Vec<(Vec<char>, i64)> = Vec::new();
        let n = keys.len();
        let mut j: usize = 0;
        while j < n
            invariant
                c == self.category_map(),
                n == keys@.len(),
                j <= n,
                keys@.to_set() == c.dom(),
                keys@.no_duplicates(),
                pool@.len() == j,
                forall|i: int| 0 <= i < j ==> #[trigger] pool@[i].1 == keys@[i] && pool@[i].0@ == lowercase(c[keys@[i]].name@),
            decreases n - j,
        {
            let k = keys[j];
            proof {
                assert(keys@.to_set().contains(k));
            }
            let body = self.categories.get(&k).unwrap();
            pool.push((lowercase_chars(&body.name), k));
            j = j + 1;
        }
        proof {
            assert forall|i: int| 0 <= i < pool@.len() implies name_keys(c).contains_key(
                #[trigger] pool@[i].1,
            ) && pool@[i].0@ == name_keys(c)[pool@[i].1] by {
                assert(keys@.to_set().contains(keys@[i]));
            }
            assert forall|i: int, k: int| 0 <= i < k < pool@.len() implies pool@[i].1 != pool@[k].1 by {
                assert(pool@[i].1 == keys@[i]);
                assert(pool@[k].1 == keys@[k]);
            }
            assert forall|x: i64| name_keys(c).contains_key(x) implies exists|i: int|
                0 <= i < pool@.len() && pool@[i].1 == x by {
                assert(keys@.to_set().contains(x));
                let i = choose|i: int| 0 <= i < keys@.len() && keys@[i] == x;
                assert(pool@[i].1 == x);
            }
        }
        sort_by_name(pool, Ghost(name_keys(c)))
    }

    /// The categories that may become children of `category` without closing a cycle.
    pub fn valid_relations(&self, category: &CategoryID) -> (r: HashSet<i64>)
        ensures
            r@ == if self.relations().contains_key(category.0) {
                non_cyclic_additions(self.relations(), category.0)
            } else {
                Set::empty()
            },
    {
        match self.graph.get_non_cyclic_additions(&category.0) {
            Some(set) => set,
            None => {
                let r: HashSet<i64> = HashSet::new();
                proof {
                    assert(r@ =~= Set::<i64>::empty());
                }
                r
            },
        }
    }
}

/// What `insert` stored, `get` reads back, and the new category takes part
/// in the relations.
pub proof fn law_insert_reads_back(
    before: CategoryService,
    after: CategoryService,
    id: CategoryID,
    body: CategoryBody,
)
    requires
        after.category_map() == before.category_map().insert(id.0, body),
        after.relations() == with_vertex(before.relations(), id.0),
    ensures
        after.category_map().contains_key(id.0),
        after.category_map()[id.0] == body,
        after.relations().contains_key(id.0),
{
}

/// What `update` stored, `get` reads back.
pub proof fn law_update_reads_back(before: CategoryService, after: CategoryService, category: Category)
    requires
        after.category_map() == before.category_map().insert(category.id.0, category.body),
    ensures
        after.category_map().contains_key(category.id.0),
        after.category_map()[category.id.0] == category.body,
{
}

/// After `delete`, the category is gone from the bodies and the relations,
/// and no item is mapped to it any more.
pub proof fn law_delete_forgets(before: CategoryService, after: CategoryService, id: CategoryID)
    requires
        after.category_map() == before.category_map().remove(id.0),
        after.relations() == relations_without(before.relations(), id.0),
        after.item_map() == without_category(before.item_map(), id.0),
    ensures
        !after.category_map().contains_key(id.0),
        !after.relations().contains_key(id.0),
        forall|i: i64| #[trigger] after.item_map().contains_key(i) ==> after.item_map()[i] != id.0,
{
}

/// When both categories exist, the child does not already lead back to the
/// parent, and storage accepts the write, adding the relation succeeds: the
/// child becomes a child of the parent and the relations stay acyclic.
pub proof fn law_valid_relation_is_added<D: CategoryRepository>(
    db: &D,
    g: Map<i64, Set<i64>>,
    after: Map<i64, Set<i64>>,
    parent: CategoryID,
    child: CategoryID,
    r: Result<(), BartendError>,
)
    requires
        g.contains_key(parent.0),
        g.contains_key(child.0),
        !reaches_or_same(g, child.0, parent.0),
        after == g.insert(parent.0, g[parent.0].insert(child.0)),
        exists|stored: Result<(), DBError>|
            #[trigger] call_ensures(D::insert_relation, (db, parent, child), stored) && r
                == passed_on(stored),
        forall|stored: Result<(), DBError>|
            #[trigger] call_ensures(D::insert_relation, (db, parent, child), stored) ==> stored is Ok,
    ensures
        r == Ok::<(), BartendError>(()),
        after[parent.0].contains(child.0),
        acyclic(g) ==> acyclic(after),
{
    if acyclic(g) {
        law_insert_edge_keeps_acyclic(g, parent.0, child.0);
    }
}

/// When storage accepts the removal, deleting a category succeeds: the category
/// leaves the bodies and the relations, every parent of it adopts every child
/// of it, and no item is mapped to it any more.
pub proof fn law_accepted_delete_removes_the_category<D: CategoryRepository>(
    db: &D,
    before: CategoryService,
    after: CategoryService,
    category: CategoryID,
    r: Result<(), BartendError>,
)
    requires
        deleted_through_storage(db, before, after, category, r),
        forall|patch: GraphPatch, stored: Result<(), DBError>|
            #[trigger] call_ensures(D::delete, (db, &patch), stored) ==> stored is Ok,
    ensures
        r == Ok::<(), BartendError>(()),
        !after.category_map().contains_key(category.0),
        !after.relations().contains_key(category.0),
        forall|p: i64, x: i64|
            p != category.0 && before.relations().contains_key(p) && before.relations()[p].contains(
                category.0,
            ) && before.relations().contains_key(category.0) && #[trigger] before.relations()[category.0].contains(x)
                ==> #[trigger] after.relations()[p].contains(x),
        forall|i: i64| #[trigger] after.item_map().contains_key(i) ==> after.item_map()[i] != category.0,
{
}

/// When storage accepts the write, giving an item without a category the
/// category `n` succeeds, and the item is then in `n` in both mappings.
pub proof fn law_uncategorised_item_gets_its_category<D: CategoryRepository>(
    db: &D,
    before: CategoryService,
    after: CategoryService,
    item: ItemID,
    n: CategoryID,
    r: Result<(), BartendError>,
)
    requires
        !before.item_map().contains_key(item.0),
        exists|stored: Result<(), DBError>|
            #[trigger] call_ensures(D::map_insert, (db, &item, &n), stored) && mapping_added(
                before,
                after,
                stored,
                item,
                n,
                r,
            ),
        forall|stored: Result<(), DBError>|
            #[trigger] call_ensures(D::map_insert, (db, &item, &n), stored) ==> stored is Ok,
    ensures
        r == Ok::<(), BartendError>(()),
        after.item_map().contains_key(item.0) && after.item_map()[item.0] == n.0,
        items_in(after.member_map(), n.0).contains(item.0),
        before.consistent() ==> after.consistent(),
{
}

/// Loading keeps the stored hierarchy: when storage answers the three reads
/// with categories `c`, mapping `m` and relations `g`, loading succeeds, every
/// stored relation is in the cache, every category is a vertex, and the
/// categories and the mapping are exactly those read.
pub proof fn law_load_keeps_the_stored_hierarchy<D: CategoryRepository>(
    db: &D,
    c: HashMap<i64, CategoryBody>,
    m: HashMap<i64, i64>,
    g: HashMap<i64, HashSet<i64>>,
    r: Result<CategoryService, BartendError>,
)
    requires
        loaded_through_storage(db, r),
        forall|read: Result<HashMap<i64, CategoryBody>, DBError>|
            #[trigger] call_ensures(D::get_all, (db,), read) ==> read == Ok::<
                HashMap<i64, CategoryBody>,
                DBError,
            >(c),
        forall|read: Result<HashMap<i64, i64>, DBError>|
            #[trigger] call_ensures(D::get_map, (db,), read) ==> read == Ok::<
                HashMap<i64, i64>,
                DBError,
            >(m),
        forall|read: Result<HashMap<i64, HashSet<i64>>, DBError>|
            #[trigger] call_ensures(D::get_graph, (db,), read) ==> read == Ok::<
                HashMap<i64, HashSet<i64>>,
                DBError,
            >(g),
    ensures
        r matches Ok(s) && {
            &&& s.category_map() == c@
            &&& s.item_map() == m@
            &&& forall|p: i64| #[trigger] g@.contains_key(p) ==> s.relations().contains_key(p)
                && s.relations()[p] == g@[p]@
            &&& forall|k: i64| #[trigger] c@.contains_key(k) ==> s.relations().contains_key(k)
            &&& s.consistent()
        },
{
    let rc = choose|rc: Result<HashMap<i64, CategoryBody>, DBError>|
        #[trigger] call_ensures(D::get_all, (db,), rc) && match rc {
            Err(e) => r == Err::<CategoryService, BartendError>(BartendError::Db(e)),
            Ok(_) => exists|rm: Result<HashMap<i64, i64>, DBError>|
                #[trigger] call_ensures(D::get_map, (db,), rm) && match rm {
                    Err(e) => r == Err::<CategoryService, BartendError>(BartendError::Db(e)),
                    Ok(_) => exists|rg: Result<HashMap<i64, HashSet<i64>>, DBError>|
                        #[trigger] call_ensures(D::get_graph, (db,), rg) && categories_from_reads(
                            rc,
                            rm,
                            rg,
                            r,
                        ),
                },
        };
    assert(rc == Ok::<HashMap<i64, CategoryBody>, DBError>(c));
    let rm = choose|rm: Result<HashMap<i64, i64>, DBError>|
        #[trigger] call_ensures(D::get_map, (db,), rm) && match rm {
            Err(e) => r == Err::<CategoryService, BartendError>(BartendError::Db(e)),
            Ok(_) => exists|rg: Result<HashMap<i64, HashSet<i64>>, DBError>|
                #[trigger] call_ensures(D::get_graph, (db,), rg) && categories_from_reads(
                    rc,
                    rm,
                    rg,
                    r,
                ),
        };
    assert(rm == Ok::<HashMap<i64, i64>, DBError>(m));
    let rg = choose|rg: Result<HashMap<i64, HashSet<i64>>, DBError>|
        #[trigger] call_ensures(D::get_graph, (db,), rg) && categories_from_reads(rc, rm, rg, r);
    assert(rg == Ok::<HashMap<i64, HashSet<i64>>, DBError>(g));
}

} // verus!
