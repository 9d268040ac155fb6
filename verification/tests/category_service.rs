use bartend::logic::category_service::CategoryService;
use bartend::logic::graph::GraphPatch;
use bartend::models::{
    BartendError, Category, CategoryBody, CategoryFilter, CategoryID, DBError, ItemID, LogicError,
};
use bartend::persistence::repositories::CategoryRepository;
use std::collections::{HashMap, HashSet};

struct TestDB {
    counter: i64,
    graph: HashMap<i64, HashSet<i64>>,
    mapping: HashMap<i64, i64>,
    fail: bool,
}

impl TestDB {
    fn new() -> Self {
        Self { counter: 30, graph: HashMap::new(), mapping: HashMap::new(), fail: false }
    }
    fn _get_next(&self) -> CategoryID {
        CategoryID(self.counter + 1)
    }
    fn result(&self) -> Result<(), DBError> {
        if self.fail {
            Err(DBError::External("offline".to_string()))
        } else {
            Ok(())
        }
    }
}

impl CategoryRepository for TestDB {
    fn insert(&self, _body: &CategoryBody) -> Result<CategoryID, DBError> {
        self.result()?;
        Ok(CategoryID(self.counter))
    }
    fn update(&self, _category: &Category) -> Result<(), DBError> {
        self.result()
    }
    fn delete(&self, _patch: &GraphPatch) -> Result<(), DBError> {
        self.result()
    }
    fn get_all(&self) -> Result<HashMap<i64, CategoryBody>, DBError> {
        self.result()?;
        let mut result = HashMap::new();
        for i in 0..30 {
            result.insert(i, CategoryBody { name: format!("category {}", i + 1) });
        }
        Ok(result)
    }
    fn get_map(&self) -> Result<HashMap<i64, i64>, DBError> {
        self.result()?;
        Ok(self.mapping.clone())
    }
    fn get_graph(&self) -> Result<HashMap<i64, HashSet<i64>>, DBError> {
        self.result()?;
        Ok(self.graph.clone())
    }
    fn insert_relation(&self, _parent: CategoryID, _child: CategoryID) -> Result<(), DBError> {
        self.result()
    }
    fn delete_edge(&self, _parent: CategoryID, _child: CategoryID) -> Result<(), DBError> {
        self.result()
    }
    fn map_insert(&self, _item: &ItemID, _category: &CategoryID) -> Result<(), DBError> {
        self.result()
    }
    fn map_delete(&self, _item: &ItemID, _category: &CategoryID) -> Result<(), DBError> {
        self.result()
    }
}

fn failing(db: &TestDB) -> TestDB {
    TestDB { counter: db.counter, graph: db.graph.clone(), mapping: db.mapping.clone(), fail: true }
}

#[test]
fn category_service_loads_in_all_data() {
    let db = TestDB::new();
    let category_service = CategoryService::new(&db).unwrap();

    assert_eq!(category_service.get_all(CategoryFilter {}).len(), 30);
}

#[test]
fn initializes_id_in_table_and_graph() {
    let db = TestDB::new();
    let mut service = CategoryService::new(&db).unwrap();
    let stub_body = CategoryBody { name: "test".to_string() };
    let next_id = db._get_next();
    assert!(service.child_categories(&next_id).is_err());

    let id = service.insert(&db, &stub_body).expect("Should be valid");

    assert!(service.get(&id).is_ok());
    assert!(service.child_categories(&id).is_ok());
    assert_eq!(service.get(&id).unwrap().name, stub_body.name);
}

#[test]
fn removes_id_from_table_and_graph() {
    let db = TestDB::new();
    let mut service = CategoryService::new(&db).unwrap();
    let stub_body = CategoryBody { name: "test".to_string() };
    let id = service.insert(&db, &stub_body).expect("should be valid");
    assert!(service.get(&id).is_ok());
    assert!(service.child_categories(&id).is_ok());

    _ = service.delete(&db, id.clone());

    assert!(service.get(&id).is_err());
    assert!(service.child_categories(&id).is_err());
}

#[test]
fn updates_in_table() {
    let db = TestDB::new();
    let mut service = CategoryService::new(&db).unwrap();
    let initial_body = CategoryBody { name: "test".to_string() };
    let updated_body = CategoryBody { name: "next".to_string() };
    let id = service.insert(&db, &initial_body).expect("valid for test");
    assert!(service.get(&id).is_ok());
    assert_eq!(service.get(&id).unwrap().name, initial_body.name);

    _ = service.update(&db, &Category { id, body: updated_body.clone() });

    assert_eq!(service.get(&id).unwrap().name, updated_body.name);
}

#[test]
fn addition_updates_both_mappings() {
    let db = &TestDB::new();
    let mut service = CategoryService::new(db).unwrap();
    let item = ItemID(0);
    let category = CategoryID(0);

    _ = service.add_item_mapping(db, &item, &category);

    assert!(service.get_items(&category).contains(&item.0));
    assert_eq!(service.item_category(&item), Some(category));
}

#[test]
fn loading_fails_when_storage_fails() {
    let db = failing(&TestDB::new());

    let result = CategoryService::new(&db);

    assert!(matches!(result, Err(BartendError::Db(DBError::External(_)))));
}

#[test]
fn update_of_unknown_category_is_refused() {
    let db = TestDB::new();
    let mut service = CategoryService::new(&db).unwrap();
    let id = CategoryID(99);

    let result = service.update(&db, &Category { id, body: CategoryBody { name: "x".to_string() } });

    assert!(matches!(result, Err(BartendError::Logic(LogicError::InvalidCategory(CategoryID(99))))));
    assert!(service.get(&id).is_err());
}

#[test]
fn failed_insert_leaves_cache_alone() {
    let db = TestDB::new();
    let mut service = CategoryService::new(&db).unwrap();
    let broken = failing(&db);

    let result = service.insert(&broken, &CategoryBody { name: "x".to_string() });

    assert!(matches!(result, Err(BartendError::Db(_))));
    assert_eq!(service.get_all(CategoryFilter {}).len(), 30);
}

#[test]
fn pages_follow_lower_case_name_order() {
    let db = TestDB::new();
    let mut service = CategoryService::new(&db).unwrap();
    let id = service.insert(&db, &CategoryBody { name: "Absinthe".to_string() }).unwrap();

    let first = service.get_page(0, 4);
    let second = service.get_page(1, 4);
    let past_end = service.get_page(100, 4);

    assert_eq!(first, vec![id, CategoryID(0), CategoryID(9), CategoryID(10)]);
    assert_eq!(second, vec![CategoryID(11), CategoryID(12), CategoryID(13), CategoryID(14)]);
    assert!(past_end.is_empty());
}

#[test]
fn equal_names_are_ordered_by_identifier() {
    let db = TestDB::new();
    let mut service = CategoryService::new(&db).unwrap();
    service.update(&db, &Category { id: CategoryID(5), body: CategoryBody { name: "CATEGORY 1".to_string() } }).unwrap();

    let page = service.get_page(0, 3);

    assert_eq!(page, vec![CategoryID(0), CategoryID(5), CategoryID(9)]);
}

#[test]
fn relations_are_refused_when_they_would_close_a_cycle() {
    let db = TestDB::new();
    let mut service = CategoryService::new(&db).unwrap();

    assert!(service.add_category_relation(&db, &CategoryID(1), &CategoryID(2)).is_ok());
    assert!(service.add_category_relation(&db, &CategoryID(2), &CategoryID(3)).is_ok());

    let cycle = service.add_category_relation(&db, &CategoryID(3), &CategoryID(1));
    let self_loop = service.add_category_relation(&db, &CategoryID(3), &CategoryID(3));
    let missing = service.add_category_relation(&db, &CategoryID(77), &CategoryID(3));

    assert!(matches!(
        cycle,
        Err(BartendError::Logic(LogicError::InvalidCategoryRelation { parent: CategoryID(3), child: CategoryID(1) }))
    ));
    assert!(matches!(self_loop, Err(BartendError::Logic(LogicError::InvalidCategoryRelation { .. }))));
    assert!(matches!(missing, Err(BartendError::Logic(LogicError::CategoryNotInGraph(CategoryID(77))))));
    assert_eq!(service.child_categories(&CategoryID(3)).unwrap(), HashSet::new());
}

#[test]
fn valid_relations_exclude_ancestors_self_and_children() {
    let db = TestDB::new();
    let mut service = CategoryService::new(&db).unwrap();
    service.add_category_relation(&db, &CategoryID(1), &CategoryID(2)).unwrap();
    service.add_category_relation(&db, &CategoryID(2), &CategoryID(3)).unwrap();

    let valid = service.valid_relations(&CategoryID(2));

    assert!(!valid.contains(&1));
    assert!(!valid.contains(&2));
    assert!(!valid.contains(&3));
    assert_eq!(valid.len(), 27);
    assert!(service.valid_relations(&CategoryID(500)).is_empty());
}

#[test]
fn satisfying_items_collects_items_of_descendants() {
    let db = TestDB::new();
    let mut service = CategoryService::new(&db).unwrap();
    service.add_category_relation(&db, &CategoryID(1), &CategoryID(2)).unwrap();
    service.add_category_relation(&db, &CategoryID(2), &CategoryID(3)).unwrap();
    service.add_item_mapping(&db, &ItemID(10), &CategoryID(1)).unwrap();
    service.add_item_mapping(&db, &ItemID(20), &CategoryID(3)).unwrap();
    service.add_item_mapping(&db, &ItemID(30), &CategoryID(4)).unwrap();

    assert_eq!(service.satisfying_items(&CategoryID(1)), HashSet::from([10, 20]));
    assert_eq!(service.satisfying_items(&CategoryID(2)), HashSet::from([20]));
    assert_eq!(service.satisfying_items(&CategoryID(4)), HashSet::from([30]));
}

#[test]
fn deleting_a_category_reattaches_children_and_unmaps_items() {
    let db = TestDB::new();
    let mut service = CategoryService::new(&db).unwrap();
    service.add_category_relation(&db, &CategoryID(1), &CategoryID(2)).unwrap();
    service.add_category_relation(&db, &CategoryID(2), &CategoryID(3)).unwrap();
    service.add_item_mapping(&db, &ItemID(7), &CategoryID(2)).unwrap();

    service.delete(&db, CategoryID(2)).unwrap();

    assert_eq!(service.child_categories(&CategoryID(1)).unwrap(), HashSet::from([3]));
    assert_eq!(service.item_category(&ItemID(7)), None);
    assert!(service.get_items(&CategoryID(2)).is_empty());
    assert_eq!(service.get_all(CategoryFilter {}).len(), 29);
}

#[test]
fn removing_a_relation_drops_only_that_edge() {
    let db = TestDB::new();
    let mut service = CategoryService::new(&db).unwrap();
    service.add_category_relation(&db, &CategoryID(1), &CategoryID(2)).unwrap();
    service.add_category_relation(&db, &CategoryID(1), &CategoryID(3)).unwrap();

    service.remove_category_relation(&db, &CategoryID(1), &CategoryID(2)).unwrap();

    assert_eq!(service.child_categories(&CategoryID(1)).unwrap(), HashSet::from([3]));
}

#[test]
fn moving_an_item_between_categories() {
    let db = TestDB::new();
    let mut service = CategoryService::new(&db).unwrap();
    service.add_item_mapping(&db, &ItemID(4), &CategoryID(1)).unwrap();

    service.update_item_mapping(&db, &ItemID(4), &Some(CategoryID(2))).unwrap();

    assert_eq!(service.item_category(&ItemID(4)), Some(CategoryID(2)));
    assert!(!service.get_items(&CategoryID(1)).contains(&4));
    assert!(service.get_items(&CategoryID(2)).contains(&4));

    service.update_item_mapping(&db, &ItemID(4), &None).unwrap();

    assert_eq!(service.item_category(&ItemID(4)), None);
    assert!(!service.get_items(&CategoryID(2)).contains(&4));
}

#[test]
fn stored_relations_and_mappings_are_loaded() {
    let mut db = TestDB::new();
    db.graph.insert(1, HashSet::from([2]));
    db.graph.insert(2, HashSet::new());
    db.mapping.insert(8, 2);

    let service = CategoryService::new(&db).unwrap();

    assert_eq!(service.child_categories(&CategoryID(1)).unwrap(), HashSet::from([2]));
    assert_eq!(service.satisfying_items(&CategoryID(1)), HashSet::from([8]));
    assert!(service.child_categories(&CategoryID(29)).is_ok());
}

#[test]
fn insert_returns_and_caches_the_identifier_storage_assigned() {
    let db = TestDB::new();
    let mut service = CategoryService::new(&db).unwrap();

    let id = service.insert(&db, &CategoryBody { name: "test".to_string() }).unwrap();

    assert_eq!(id, CategoryID(30));
    assert_eq!(service.get(&CategoryID(30)).unwrap().name, "test");
    assert_eq!(service.child_categories(&CategoryID(30)).unwrap(), HashSet::new());
}

#[test]
fn finish_insert_follows_the_storage_answer() {
    let db = TestDB::new();
    let mut service = CategoryService::new(&db).unwrap();
    let body = CategoryBody { name: "amaro".to_string() };

    let stored = service.finish_insert(Ok(CategoryID(57)), &body);
    let refused = service.finish_insert(Err(DBError::RestrictViolation), &body);

    assert!(matches!(stored, Ok(CategoryID(57))));
    assert_eq!(service.get(&CategoryID(57)).unwrap().name, "amaro");
    assert!(matches!(refused, Err(BartendError::Db(DBError::RestrictViolation))));
    assert_eq!(service.get_all(CategoryFilter {}).len(), 31);
}

#[test]
fn from_reads_passes_on_the_first_failed_read() {
    let first = CategoryService::from_reads(
        Err(DBError::NotABartendDB),
        Err(DBError::InvalidUnit),
        Ok(HashMap::new()),
    );
    let second = CategoryService::from_reads(Ok(HashMap::new()), Err(DBError::InvalidUnit), Err(DBError::RestrictViolation));
    let third = CategoryService::from_reads(Ok(HashMap::new()), Ok(HashMap::new()), Err(DBError::RestrictViolation));

    assert!(matches!(first, Err(BartendError::Db(DBError::NotABartendDB))));
    assert!(matches!(second, Err(BartendError::Db(DBError::InvalidUnit))));
    assert!(matches!(third, Err(BartendError::Db(DBError::RestrictViolation))));
}

#[test]
fn from_reads_holds_what_was_read() {
    let mut categories = HashMap::new();
    categories.insert(1, CategoryBody { name: "gin".to_string() });
    categories.insert(2, CategoryBody { name: "london dry".to_string() });
    let mut mapping = HashMap::new();
    mapping.insert(9, 2);
    let mut graph = HashMap::new();
    graph.insert(1, HashSet::from([2]));

    let service = CategoryService::from_reads(Ok(categories), Ok(mapping), Ok(graph)).unwrap();

    assert_eq!(service.get(&CategoryID(2)).unwrap().name, "london dry");
    assert_eq!(service.item_category(&ItemID(9)), Some(CategoryID(2)));
    assert_eq!(service.get_items(&CategoryID(2)), HashSet::from([9]));
    assert_eq!(service.child_categories(&CategoryID(1)).unwrap(), HashSet::from([2]));
    assert_eq!(service.child_categories(&CategoryID(2)).unwrap(), HashSet::new());
}

#[test]
fn finish_update_follows_the_storage_answer() {
    let db = TestDB::new();
    let mut service = CategoryService::new(&db).unwrap();
    let known = Category { id: CategoryID(3), body: CategoryBody { name: "rye".to_string() } };
    let unknown = Category { id: CategoryID(300), body: CategoryBody { name: "x".to_string() } };

    let refused = service.finish_update(Err(DBError::RestrictViolation), &known);
    assert!(matches!(refused, Err(BartendError::Db(DBError::RestrictViolation))));
    assert_eq!(service.get(&CategoryID(3)).unwrap().name, "category 4");

    assert!(service.finish_update(Ok(()), &known).is_ok());
    assert_eq!(service.get(&CategoryID(3)).unwrap().name, "rye");

    let missing = service.finish_update(Ok(()), &unknown);
    assert!(matches!(missing, Err(BartendError::Logic(LogicError::InvalidCategory(CategoryID(300))))));
}

#[test]
fn finish_delete_follows_the_storage_answer() {
    let db = TestDB::new();
    let mut service = CategoryService::new(&db).unwrap();
    service.add_category_relation(&db, &CategoryID(1), &CategoryID(2)).unwrap();
    service.add_category_relation(&db, &CategoryID(2), &CategoryID(3)).unwrap();

    let patch = service.removal_patch(&CategoryID(2));
    assert_eq!(patch.to_remove, 2);
    assert_eq!(patch.parents, Some(vec![1]));
    assert_eq!(patch.children, Some(vec![3]));

    let refused = service.finish_delete(Err(DBError::RestrictViolation), CategoryID(2));
    assert!(matches!(refused, Err(BartendError::Db(DBError::RestrictViolation))));
    assert!(service.get(&CategoryID(2)).is_ok());

    assert!(service.finish_delete(Ok(()), CategoryID(2)).is_ok());
    assert!(matches!(service.get(&CategoryID(2)), Err(BartendError::Logic(LogicError::InvalidCategory(CategoryID(2))))));
    assert!(matches!(
        service.child_categories(&CategoryID(2)),
        Err(BartendError::Logic(LogicError::CategoryNotInGraph(CategoryID(2))))
    ));
    assert_eq!(service.child_categories(&CategoryID(1)).unwrap(), HashSet::from([3]));
}

#[test]
fn finish_remove_relation_follows_the_storage_answer() {
    let db = TestDB::new();
    let mut service = CategoryService::new(&db).unwrap();
    service.add_category_relation(&db, &CategoryID(1), &CategoryID(2)).unwrap();

    let refused = service.finish_remove_relation(Err(DBError::InvalidUnit), &CategoryID(1), &CategoryID(2));
    assert!(matches!(refused, Err(BartendError::Db(DBError::InvalidUnit))));
    assert_eq!(service.child_categories(&CategoryID(1)).unwrap(), HashSet::from([2]));

    assert!(service.finish_remove_relation(Ok(()), &CategoryID(1), &CategoryID(2)).is_ok());
    assert!(service.child_categories(&CategoryID(1)).unwrap().is_empty());
}

#[test]
fn mapping_steps_follow_the_storage_answers() {
    let db = TestDB::new();
    let mut service = CategoryService::new(&db).unwrap();

    let refused = service.finish_add_item_mapping(Err(DBError::RestrictViolation), &ItemID(5), &CategoryID(1));
    assert!(matches!(refused, Err(BartendError::Db(DBError::RestrictViolation))));
    assert_eq!(service.item_category(&ItemID(5)), None);

    assert!(service.finish_add_item_mapping(Ok(()), &ItemID(5), &CategoryID(1)).is_ok());
    assert_eq!(service.item_category(&ItemID(5)), Some(CategoryID(1)));

    let kept = service.finish_move_out(Err(DBError::InvalidUnit), &ItemID(5), &CategoryID(1));
    assert!(matches!(kept, Err(BartendError::Db(DBError::InvalidUnit))));
    assert_eq!(service.item_category(&ItemID(5)), Some(CategoryID(1)));

    assert!(service.finish_move_out(Ok(()), &ItemID(5), &CategoryID(1)).is_ok());
    assert_eq!(service.item_category(&ItemID(5)), None);
    assert!(service.get_items(&CategoryID(1)).is_empty());

    service.finish_add_item_mapping(Ok(()), &ItemID(5), &CategoryID(2)).unwrap();
    assert!(service.finish_unmap(Ok(()), &ItemID(5), &CategoryID(2)).is_ok());
    assert_eq!(service.item_category(&ItemID(5)), None);
    assert!(service.get_items(&CategoryID(2)).is_empty());
}

#[test]
fn mapping_change_names_the_writes_of_a_move() {
    let db = TestDB::new();
    let mut service = CategoryService::new(&db).unwrap();
    service.add_item_mapping(&db, &ItemID(0), &CategoryID(0)).unwrap();

    let moved = service.mapping_change(&ItemID(0), &Some(CategoryID(1)));
    let cleared = service.mapping_change(&ItemID(0), &None);
    let fresh = service.mapping_change(&ItemID(8), &Some(CategoryID(1)));
    let nothing = service.mapping_change(&ItemID(8), &None);

    assert_eq!(moved.remove, Some((ItemID(0), CategoryID(0))));
    assert_eq!(moved.add, Some((ItemID(0), CategoryID(1))));
    assert_eq!(cleared.remove, Some((ItemID(0), CategoryID(0))));
    assert_eq!(cleared.add, None);
    assert_eq!(fresh.remove, None);
    assert_eq!(fresh.add, Some((ItemID(8), CategoryID(1))));
    assert_eq!(nothing.remove, None);
    assert_eq!(nothing.add, None);
}

#[test]
fn finish_add_relation_passes_on_the_storage_answer() {
    assert!(CategoryService::finish_add_relation(Ok(())).is_ok());
    assert!(matches!(
        CategoryService::finish_add_relation(Err(DBError::RestrictViolation)),
        Err(BartendError::Db(DBError::RestrictViolation))
    ));
}
