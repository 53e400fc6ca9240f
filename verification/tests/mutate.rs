use categories::entity::NewCategory;
use categories::error::CategoryError;
use categories::store::Store;

fn new_cat(i: u64) -> NewCategory {
    NewCategory {
        name: format!("cat{i}"),
        sub_categories: vec![],
        image_url: None,
        parent_id: None,
        ap_id: format!("http://localhost/category/cat{i}"),
        local: true,
    }
}

fn demo_store() -> Store {
    let mut store = Store::new();
    for i in 1..=3u64 {
        store.create(new_cat(i), i, 100 * i).unwrap();
    }
    store
}

#[test]
fn create_category() {
    let mut store = demo_store();
    let category = NewCategory {
        name: "Something".into(),
        ap_id: "http://localhost".to_string(),
        local: true,
        sub_categories: vec![],
        image_url: None,
        parent_id: None,
    };
    let response = store.create(category, 4, 400).unwrap();
    let ap_id = response.ap_id;
    let fetched = store.category_by_ap_id(&ap_id);
    assert!(fetched.is_some());
}

#[test]
fn create_duplicate_ap_id_is_rejected() {
    let mut store = demo_store();
    let mut category = new_cat(1);
    category.name = "again".into();
    let before = store.len();
    let response = store.create(category, 9, 900);
    assert_eq!(
        response.unwrap_err(),
        CategoryError::UniqueConstraintViolation
    );
    assert_eq!(store.len(), before);
}

#[test]
fn create_invalid_url_is_rejected() {
    let mut store = demo_store();
    let mut category = new_cat(7);
    category.image_url = Some("not a url".to_string());
    let before = store.len();
    let response = store.create(category, 7, 700);
    assert_eq!(response.unwrap_err(), CategoryError::InvalidUrl);
    assert_eq!(store.len(), before);
}

#[test]
fn upsert_category_create() {
    let mut store = demo_store();
    let category = NewCategory {
        name: "Something".into(),
        ap_id: "http://localhost".to_string(),
        local: true,
        sub_categories: vec![],
        image_url: None,
        parent_id: None,
    };
    let response = store.upsert(category, 4, 400).unwrap();
    let fetched = store.category_by_ap_id(&response.ap_id);
    assert!(fetched.is_some());
}

#[test]
fn upsert_category_update() {
    let mut store = demo_store();
    let name = "Electro-test";
    let category = NewCategory {
        name: name.into(),
        ap_id: "http://localhost/category/cat1".to_string(),
        local: true,
        sub_categories: vec![],
        image_url: None,
        parent_id: None,
    };
    let response = store.upsert(category, 4, 400).unwrap();
    let fetched = store
        .category_by_ap_id(&response.ap_id)
        .expect("upserted row is stored");
    assert_eq!(fetched.name, name);
}

#[test]
fn upsert_keeps_the_creation_timestamp() {
    let mut store = demo_store();
    let mut category = new_cat(1);
    category.name = "renamed".into();
    let response = store.upsert(category, 4, 999).unwrap();
    assert_eq!(response.created_at, 100);
    assert_eq!(response.updated_at, 999);
}

#[test]
fn upsert_id_collision_is_rejected() {
    let mut store = demo_store();
    // A fresh external id may not reuse the numeric id of another row.
    let category = new_cat(9);
    let response = store.upsert(category, 2, 900);
    assert_eq!(
        response.unwrap_err(),
        CategoryError::UniqueConstraintViolation
    );
}

#[test]
fn delete_category() {
    let mut store = Store::new();
    let ap_id = "http://localhost/category/item7".to_string();
    let category = NewCategory {
        name: "item7".into(),
        ap_id: ap_id.clone(),
        local: true,
        sub_categories: vec![],
        image_url: None,
        parent_id: None,
    };
    store.create(category, 7, 700).unwrap();

    store.delete(&ap_id);

    let response = store.category_by_ap_id(&ap_id);
    assert!(response.is_none());
}

#[test]
fn category_by_ap_id() {
    let store = demo_store();
    let ap_id = "http://localhost/category/cat1".to_string();
    let response = store.category_by_ap_id(&ap_id);
    assert!(response.is_some());
    assert_eq!(response.unwrap().id, 1);

    let missing = "http://localhost/category/none".to_string();
    assert!(store.category_by_ap_id(&missing).is_none());
}

#[test]
fn category_by_ap_id_skips_federated_rows() {
    let mut store = Store::new();
    let mut remote = new_cat(1);
    remote.local = false;
    store.create(remote, 1, 100).unwrap();
    let ap_id = "http://localhost/category/cat1".to_string();
    assert!(store.category_by_ap_id(&ap_id).is_none());
}
