//! Categories and the manager that keeps their names and relations together.
//!
//! Storage is not touched here: a caller stores a category first and hands the
//! identifier that storage gave it to `add_category`, and deletes a category
//! from storage after `remove_category`.

pub mod graph;

use crate::common::category::graph::{edge_added, DirectedAcyclicGraph, GraphError};
use crate::logic::graph::bypass;
use crate::logic::reach::{descendants, vertex_list};
pub use crate::models::CategoryID;
use std::collections::HashMap;
use std::collections::HashSet;
use vstd::prelude::*;

verus! {

broadcast use vstd::std_specs::hash::group_hash_axioms;

/// A named category. Two categories are equal when their identifiers are.
#[derive(Debug, Clone)]
pub struct Category {
    id: CategoryID,
    name: String,
}

/// The names of the categories and the relations between them.
#[derive(Debug)]
pub struct CategoryManager {
    relations: DirectedAcyclicGraph,
    names: HashMap<i64, String>,
}

impl Category {
    /// The identifier of the category.
    pub closed spec fn identifier(&self) -> CategoryID {
        self.id
    }

    /// The name of the category.
    pub closed spec fn label(&self) -> Seq<char> {
        self.name@
    }

    fn new(id: CategoryID, name: String) -> (r: Self)
        ensures
            r.identifier() == id,
            r.label() == name@,
    {
        Self { id, name }
    }

    pub fn id(&self) -> (r: CategoryID)
        ensures
            r == self.identifier(),
    {
        self.id
    }

    /// The category used to try out the interface: identifier 1, named "test".
    pub fn test_cat() -> (r: Self)
        ensures
            r.identifier() == CategoryID(1),
            r.label() == "test"@,
    {
        Category { id: CategoryID(1), name: String::from_str("test") }
    }

    /// The text shown for the category: its name.
    pub fn name(&self) -> (r: String)
        ensures
            r@ == self.label(),
    {
        self.name.clone()
    }
}

impl PartialEq for Category {
    fn eq(&self, other: &Self) -> (r: bool) {
        self.id.0 == other.id.0
    }
}

impl vstd::std_specs::cmp::PartialEqSpecImpl for Category {
    open spec fn obeys_eq_spec() -> bool {
        true
    }

    open spec fn eq_spec(&self, other: &Self) -> bool {
        self.identifier() == other.identifier()
    }
}

impl CategoryManager {
    /// The relations between categories, parent to children.
    pub closed spec fn relations(&self) -> Map<i64, Set<i64>> {
        self.relations@
    }

    /// The name of each category.
    pub closed spec fn names(&self) -> Map<i64, Seq<char>> {
        Map::new(|k: i64| self.names@.contains_key(k), |k: i64| self.names@[k]@)
    }

    /// Exactly the named categories take part in the relations.
    pub open spec fn well_formed(&self) -> bool {
        self.names().dom() == self.relations().dom()
    }

    /// A manager without categories.
    pub fn new() -> (r: Self)
        ensures
            r.relations() == Map::<i64, Set<i64>>::empty(),
            r.names() == Map::<i64, Seq<char>>::empty(),
            r.well_formed(),
    {
        let r = Self { relations: DirectedAcyclicGraph::new(), names: HashMap::new() };
        proof {
            assert(r.names() =~= Map::<i64, Seq<char>>::empty());
        }
        r
    }

    /// Every category that `id` implies; empty when `id` is unknown.
    pub fn get_children(&self, id: &CategoryID) -> (r: HashSet<i64>)
        ensures
            r@ == descendants(self.relations(), id.0),
    {
        self.relations.implies_set(&id.0)
    }

    /// Every named category, in no particular order.
    pub fn get_categories(&self) -> (r: Vec<Category>)
        ensures
            r@.len() == self.names().len(),
            forall|i: int|
                0 <= i < r@.len() ==> #[trigger] self.names().contains_key(r@[i].identifier().0)
                    && r@[i].label() == self.names()[r@[i].identifier().0],
            forall|i: int, j: int|
                0 <= i < j < r@.len() ==> r@[i].identifier() != r@[j].identifier(),
            forall|c: i64|
                #[trigger] self.names().contains_key(c) ==> exists|i: int|
                    0 <= i < r@.len() && r@[i].identifier().0 == c,
    {
        let keys = vertex_list(&self.names);
        let mut r: Vec<Category> = Vec::new();
        let n = keys.len();
        let mut j: usize = 0;
        while j < n
            invariant
                n == keys@.len(),
                j <= n,
                keys@.to_set() == self.names@.dom(),
                keys@.no_duplicates(),
                r@.len() == j,
                forall|i: int|
                    0 <= i < j ==> r@[i].identifier().0 == keys@[i] && r@[i].label()
                        == self.names@[keys@[i]]@,
            decreases n - j,
        {
            let k = keys[j];
            proof {
                assert(keys@.to_set().contains(k));
            }
            let name = self.names.get(&k).unwrap();
            r.push(Category::new(CategoryID(k), name.clone()));
            j = j + 1;
        }
        proof {
            keys@.unique_seq_to_set();
            assert(self.names().dom() =~= self.names@.dom());
            assert forall|i: int, j: int| 0 <= i < j < r@.len() implies r@[i].identifier()
                != r@[j].identifier() by {
                assert(keys@[i] != keys@[j]);
            }
            assert forall|c: i64| #[trigger] self.names().contains_key(c) implies exists|i: int|
                0 <= i < r@.len() && r@[i].identifier().0 == c by {
                assert(keys@.to_set().contains(c));
                let i = choose|i: int| 0 <= i < keys@.len() && keys@[i] == c;
                assert(r@[i].identifier().0 == c);
            }
            assert forall|i: int| 0 <= i < r@.len() implies #[trigger] self.names().contains_key(
                r@[i].identifier().0,
            ) && r@[i].label() == self.names()[r@[i].identifier().0] by {
                assert(keys@.to_set().contains(keys@[i]));
            }
        }
        r
    }

    /// Forgets category `id`: its name goes, and every category that had it as a
    /// child adopts its children.
    pub fn remove_category(&mut self, id: CategoryID)
        ensures
            final(self).names() == old(self).names().remove(id.0),
            final(self).relations() == if old(self).relations().contains_key(id.0) {
                bypass(old(self).relations(), id.0)
            } else {
                old(self).relations()
            },
            old(self).well_formed() ==> final(self).well_formed(),
    {
        self.names.remove(&id.0);
        self.relations.remove(id.0);
        proof {
            assert(self.names() =~= old(self).names().remove(id.0));
            if old(self).relations().contains_key(id.0) {
                assert(bypass(old(self).relations(), id.0).dom() =~= old(self).relations().dom().remove(id.0));
            }
            if old(self).well_formed() {
                assert(self.names().dom() =~= self.relations().dom());
            }
        }
    }

    /// Records category `id`, which storage has just created, under `name`.
    pub fn add_category(&mut self, id: CategoryID, name: String)
        ensures
            final(self).names() == old(self).names().insert(id.0, name@),
            final(self).relations() == if old(self).relations().contains_key(id.0) {
                old(self).relations()
            } else {
                old(self).relations().insert(id.0, Set::empty())
            },
            old(self).well_formed() ==> final(self).well_formed(),
    {
        self.names.insert(id.0, name);
        self.relations.insert_vertex(id.0);
        proof {
            assert(self.names() =~= old(self).names().insert(id.0, name@));
            if old(self).well_formed() {
                assert(self.names().dom() =~= self.relations().dom());
            }
        }
    }

    /// Makes `child` a child of `parent`; refused as `insert_edge` refuses it.
    pub fn add_relation(&mut self, parent: &CategoryID, child: &CategoryID) -> (r: Result<
        (),
        GraphError,
    >)
        ensures
            final(self).names() == old(self).names(),
            match r {
                Ok(()) => edge_added(old(self).relations(), (parent.0, child.0)) == Ok::<
                    Map<i64, Set<i64>>,
                    GraphError,
                >(final(self).relations()),
                Err(e) => {
                    &&& edge_added(old(self).relations(), (parent.0, child.0)) == Err::<
                        Map<i64, Set<i64>>,
                        GraphError,
                    >(e)
                    &&& final(self).relations() == old(self).relations()
                },
            },
            old(self).well_formed() ==> final(self).well_formed(),
    {
        let r = self.relations.insert_edge(&(parent.0, child.0));
        proof {
            if old(self).well_formed() && r is Ok {
                assert(self.relations().dom() =~= old(self).relations().dom());
            }
        }
        r
    }
}

} // verus!
