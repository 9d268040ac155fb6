use bartend::logic::item_service::{Item, ItemService};
use bartend::models::{BartendError, DBError, ItemID, LogicError};
use bartend::persistence::repositories::ItemRepository;
use std::collections::HashMap;

#[derive(Debug, Clone, PartialEq)]
struct ItemBody {
    name: String,
    quantity: f32,
}

struct TestDB {
    counter: i64,
    fail: bool,
}

impl TestDB {
    fn new() -> Self {
        Self { counter: 30, fail: false }
    }
    fn result(&self) -> Result<(), DBError> {
        if self.fail {
            Err(DBError::RestrictViolation)
        } else {
            Ok(())
        }
    }
}

impl ItemRepository<ItemBody> for TestDB {
    fn insert(&self, _body: &ItemBody) -> Result<ItemID, DBError> {
        self.result()?;
        Ok(ItemID(self.counter))
    }
    fn update(&self, _item: &Item<ItemBody>) -> Result<(), DBError> {
        self.result()
    }
    fn delete(&self, _item: ItemID) -> Result<(), DBError> {
        self.result()
    }
    fn get_all(&self) -> Result<HashMap<i64, ItemBody>, DBError> {
        self.result()?;
        let mut result = HashMap::new();
        for i in 0..30 {
            result.insert(i, ItemBody { name: format!("item {}", i + 1), quantity: 1.0 });
        }
        Ok(result)
    }
}

#[test]
fn new_loads_in_whole_db() {
    let db = TestDB::new();
    let item_service = ItemService::new(&db).unwrap();

    assert_eq!(item_service.len(), 30);
}

#[test]
fn delete_removes_value() {
    let db = TestDB::new();
    let mut item_service = ItemService::new(&db).unwrap();
    let item = ItemID(0);

    item_service.delete(&db, item).unwrap();

    assert!(item_service.get(&item).is_err());
}

#[test]
fn unknown_item_is_an_invalid_item() {
    let db = TestDB::new();
    let item_service = ItemService::new(&db).unwrap();

    let result = item_service.get(&ItemID(77));

    assert!(matches!(result, Err(BartendError::Logic(LogicError::InvalidItem(ItemID(77))))));
}

#[test]
fn add_caches_under_the_stored_identifier() {
    let db = TestDB::new();
    let mut item_service = ItemService::new(&db).unwrap();
    let body = ItemBody { name: "gin".to_string(), quantity: 700.0 };

    let id = item_service.add(&db, body.clone()).unwrap();

    assert_eq!(id, ItemID(30));
    assert_eq!(item_service.get(&id).unwrap(), &body);
    assert_eq!(item_service.len(), 31);
}

#[test]
fn update_replaces_the_cached_body() {
    let db = TestDB::new();
    let mut item_service = ItemService::new(&db).unwrap();
    let body = ItemBody { name: "rum".to_string(), quantity: 2.5 };

    item_service.update(&db, Item { id: ItemID(3), body: body.clone() }).unwrap();

    assert_eq!(item_service.get(&ItemID(3)).unwrap(), &body);
}

#[test]
fn failed_storage_leaves_cache_alone() {
    let db = TestDB::new();
    let mut item_service = ItemService::new(&db).unwrap();
    let broken = TestDB { counter: 30, fail: true };

    let result = item_service.delete(&broken, ItemID(0));

    assert!(matches!(result, Err(BartendError::Db(DBError::RestrictViolation))));
    assert!(item_service.get(&ItemID(0)).is_ok());
}

#[test]
fn pages_cover_every_item_once() {
    let db = TestDB::new();
    let item_service = ItemService::new(&db).unwrap();

    let mut seen: Vec<i64> = Vec::new();
    for page in 0..3 {
        let ids = item_service.get_page(page);
        assert!(ids.len() <= 15);
        seen.extend(ids.iter().map(|id| id.0));
    }
    seen.sort();

    assert_eq!(seen, (0..30).collect::<Vec<i64>>());
    assert!(item_service.get_page(2).is_empty());
}

#[test]
fn item_finish_add_follows_the_storage_answer() {
    let db = TestDB::new();
    let mut item_service = ItemService::new(&db).unwrap();
    let body = ItemBody { name: "bitters".to_string(), quantity: 0.5 };

    let stored = item_service.finish_add(Ok(ItemID(44)), body.clone());
    let refused = item_service.finish_add(Err(DBError::InvalidUnit), body.clone());

    assert_eq!(stored.unwrap(), ItemID(44));
    assert_eq!(item_service.get(&ItemID(44)).unwrap(), &body);
    assert!(matches!(refused, Err(BartendError::Db(DBError::InvalidUnit))));
    assert_eq!(item_service.len(), 31);
}

#[test]
fn item_steps_follow_the_storage_answers() {
    let db = TestDB::new();
    let mut item_service = ItemService::new(&db).unwrap();
    let body = ItemBody { name: "vodka".to_string(), quantity: 3.0 };

    let refused = item_service.finish_update(Err(DBError::InvalidUnit), Item { id: ItemID(2), body: body.clone() });
    assert!(matches!(refused, Err(BartendError::Db(DBError::InvalidUnit))));
    assert_eq!(item_service.get(&ItemID(2)).unwrap().name, "item 3");

    item_service.finish_update(Ok(()), Item { id: ItemID(2), body: body.clone() }).unwrap();
    assert_eq!(item_service.get(&ItemID(2)).unwrap(), &body);

    let kept = item_service.finish_delete(Err(DBError::RestrictViolation), ItemID(2));
    assert!(matches!(kept, Err(BartendError::Db(DBError::RestrictViolation))));
    assert!(item_service.get(&ItemID(2)).is_ok());

    item_service.finish_delete(Ok(()), ItemID(2)).unwrap();
    assert!(item_service.get(&ItemID(2)).is_err());
}

#[test]
fn from_read_passes_on_the_read_or_its_error() {
    let failed: Result<ItemService<ItemBody>, BartendError> = ItemService::from_read(Err(DBError::NotABartendDB));
    assert!(matches!(failed, Err(BartendError::Db(DBError::NotABartendDB))));

    let mut items = HashMap::new();
    items.insert(4, ItemBody { name: "soda".to_string(), quantity: 1.0 });
    let service = ItemService::from_read(Ok(items)).unwrap();
    assert_eq!(service.len(), 1);
    assert_eq!(service.get(&ItemID(4)).unwrap().name, "soda");
}

#[test]
fn the_same_page_twice_is_the_same_page() {
    let db = TestDB::new();
    let item_service = ItemService::new(&db).unwrap();

    assert_eq!(item_service.get_page(1), item_service.get_page(1));
    let first = item_service.get_page(0);
    let second = item_service.get_page(1);
    assert!(first.iter().all(|id| !second.contains(id)));
    assert_eq!(first.len() + second.len(), 30);
}
