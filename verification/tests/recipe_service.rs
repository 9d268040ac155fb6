use bartend::logic::recipe_service::RecipeService;
use bartend::models::{
    BartendError, CategoryID, DBError, Ingredient, LogicError, Recipe, RecipeBody, RecipeID,
};
use bartend::persistence::repositories::RecipeRepository;
use std::collections::HashMap;

struct TestDB {
    next: i64,
}

impl RecipeRepository<f32> for TestDB {
    fn insert(&self, _body: &RecipeBody<f32>) -> Result<RecipeID, DBError> {
        Ok(RecipeID(self.next))
    }
    fn update(&self, _item: &Recipe<f32>) -> Result<(), DBError> {
        Ok(())
    }
    fn delete(&self, _item: RecipeID) -> Result<(), DBError> {
        Ok(())
    }
    fn get_all(&self) -> Result<HashMap<i64, RecipeBody<f32>>, DBError> {
        let mut all = HashMap::new();
        for (i, name) in ["Negroni", "daiquiri", "Martini", "margarita"].iter().enumerate() {
            all.insert(
                i as i64,
                RecipeBody {
                    name: name.to_string(),
                    ingredients: vec![Ingredient { category: CategoryID(i as i64), quantity: 30.0 }],
                },
            );
        }
        Ok(all)
    }
}

#[test]
fn recipes_load_and_page_by_lower_case_name() {
    let db = TestDB { next: 10 };
    let service = RecipeService::new(&db).unwrap();

    assert_eq!(service.recipe_count(), 4);
    assert_eq!(service.get_page(0, 3), vec![RecipeID(1), RecipeID(3), RecipeID(2)]);
    assert_eq!(service.get_page(1, 3), vec![RecipeID(0)]);
    assert!(service.get_page(2, 3).is_empty());
}

#[test]
fn get_returns_a_copy_of_the_body() {
    let db = TestDB { next: 10 };
    let service = RecipeService::new(&db).unwrap();

    let body = service.get(RecipeID(2)).unwrap();

    assert_eq!(body.name, "Martini");
    assert_eq!(body.ingredients.len(), 1);
    assert_eq!(body.ingredients[0].category, CategoryID(2));
    assert!(matches!(
        service.get(RecipeID(9)),
        Err(BartendError::Logic(LogicError::InvalidRecipe(RecipeID(9))))
    ));
}

#[test]
fn add_update_and_delete() {
    let db = TestDB { next: 10 };
    let mut service = RecipeService::new(&db).unwrap();

    let id = service.add(&db, RecipeBody { name: "Sazerac".to_string(), ingredients: vec![] }).unwrap();
    assert_eq!(id, RecipeID(10));
    assert_eq!(service.recipe_count(), 5);

    service
        .update(&db, Recipe { id, body: RecipeBody { name: "Vieux Carre".to_string(), ingredients: vec![] } })
        .unwrap();
    assert_eq!(service.get(id).unwrap().name, "Vieux Carre");

    let missing = service.update(&db, Recipe { id: RecipeID(77), body: RecipeBody::default() });
    assert!(matches!(missing, Err(BartendError::Logic(LogicError::InvalidRecipe(RecipeID(77))))));

    service.delete(&db, id).unwrap();
    assert!(service.get(id).is_err());
    assert_eq!(service.get_all().len(), 4);
}

#[test]
fn default_recipe_is_marked_invalid() {
    let body: RecipeBody<f32> = RecipeBody::default();

    assert_eq!(body.name, "Invalid Recipe");
    assert!(body.ingredients.is_empty());
}

#[test]
fn recipes_are_equal_by_identifier() {
    let a: Recipe<f32> = Recipe { id: RecipeID(1), body: RecipeBody::default() };
    let b: Recipe<f32> = Recipe { id: RecipeID(1), body: RecipeBody { name: "x".to_string(), ingredients: vec![] } };

    assert!(a == b);
}

#[test]
fn recipe_finish_add_follows_the_storage_answer() {
    let db = TestDB { next: 10 };
    let mut service = RecipeService::new(&db).unwrap();

    let stored = service.finish_add(Ok(RecipeID(21)), RecipeBody { name: "Gimlet".to_string(), ingredients: vec![] });
    let refused = service.finish_add(Err(DBError::NotABartendDB), RecipeBody::default());

    assert_eq!(stored.unwrap(), RecipeID(21));
    assert_eq!(service.get(RecipeID(21)).unwrap().name, "Gimlet");
    assert!(matches!(refused, Err(BartendError::Db(DBError::NotABartendDB))));
    assert_eq!(service.recipe_count(), 5);
}

#[test]
fn recipe_steps_follow_the_storage_answers() {
    let db = TestDB { next: 10 };
    let mut service = RecipeService::new(&db).unwrap();

    let failed: Result<RecipeService<f32>, BartendError> = RecipeService::from_read(Err(DBError::InvalidUnit));
    assert!(matches!(failed, Err(BartendError::Db(DBError::InvalidUnit))));

    let renamed = Recipe { id: RecipeID(0), body: RecipeBody { name: "Boulevardier".to_string(), ingredients: vec![] } };
    let refused = service.finish_update(Err(DBError::RestrictViolation), renamed.clone());
    assert!(matches!(refused, Err(BartendError::Db(DBError::RestrictViolation))));
    assert_eq!(service.get(RecipeID(0)).unwrap().name, "Negroni");

    service.finish_update(Ok(()), renamed).unwrap();
    assert_eq!(service.get(RecipeID(0)).unwrap().name, "Boulevardier");

    let unknown = Recipe { id: RecipeID(99), body: RecipeBody::default() };
    assert!(matches!(
        service.finish_update(Ok(()), unknown),
        Err(BartendError::Logic(LogicError::InvalidRecipe(RecipeID(99))))
    ));

    let kept = service.finish_delete(Err(DBError::InvalidUnit), RecipeID(0));
    assert!(matches!(kept, Err(BartendError::Db(DBError::InvalidUnit))));
    assert!(service.get(RecipeID(0)).is_ok());
    service.finish_delete(Ok(()), RecipeID(0)).unwrap();
    assert!(service.get(RecipeID(0)).is_err());
}
