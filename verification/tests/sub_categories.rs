use categories::entity::NewCategory;
use categories::error::CategoryError;
use categories::pagination::{CursorValue, Index, PageRequest};
use categories::store::Store;

const MAX: u32 = 100;

fn new_cat(i: u64) -> NewCategory {
    NewCategory {
        name: format!("cat{i}"),
        sub_categories: vec![],
        image_url: None,
        parent_id: None,
        ap_id: format!("http://localhost/category/cat{i}"),
        local: true,
    }
}

fn demo_store() -> Store {
    let mut store = Store::new();
    for i in 1..=3u64 {
        store.create(new_cat(i), i, 100 * i).unwrap();
    }
    store
}

fn edge_ids(conn: &categories::pagination::Connection) -> Vec<u64> {
    conn.edges.iter().map(|e| e.node.id).collect()
}

#[test]
fn sub_no_parent_last() {
    let store = demo_store();
    let getter = PageRequest {
        cursor_value: None,
        index: Some(Index::Last(2)),
    };
    let response = store.sub_categories(&None, &getter, MAX).unwrap();
    assert_eq!(response.edges.len(), 2);
    // The last two rows, presented in ascending store order.
    assert_eq!(edge_ids(&response), vec![2, 3]);
}

#[test]
fn sub_no_parent_first() {
    let store = demo_store();
    let getter = PageRequest {
        cursor_value: None,
        index: Some(Index::First(2)),
    };
    let response = store.sub_categories(&None, &getter, MAX).unwrap();
    assert_eq!(response.edges.len(), 2);
    assert_eq!(edge_ids(&response), vec![1, 2]);
}

#[test]
fn sub_no_parent_first_lots() {
    let store = demo_store();
    let getter = PageRequest {
        cursor_value: None,
        index: Some(Index::First(500)),
    };
    let response = store.sub_categories(&None, &getter, 500).unwrap();
    assert_eq!(response.edges.len(), 3);
    assert_eq!(edge_ids(&response), vec![1, 2, 3]);
    assert!(!response.page_info.has_next_page);
}

#[test]
fn sub_no_parent_last_exact() {
    let store = demo_store();
    let getter = PageRequest {
        cursor_value: None,
        index: Some(Index::Last(2)),
    };
    let response = store.sub_categories(&None, &getter, MAX).unwrap();
    assert_eq!(response.edges.len(), 2);
    assert_eq!(edge_ids(&response), vec![2, 3]);
}

#[test]
fn sub_cursor_last() {
    let store = demo_store();
    let getter = PageRequest {
        cursor_value: None,
        index: Some(Index::Last(2)),
    };
    let response = store.sub_categories(&None, &getter, MAX).unwrap();
    assert_eq!(response.edges.len(), 2);
    assert_eq!(edge_ids(&response), vec![2, 3]);

    let cursor = response.page_info.end_cursor.unwrap();
    let getter = PageRequest {
        cursor_value: Some(CursorValue::Before(cursor)),
        index: Some(Index::Last(1)),
    };
    let response = store.sub_categories(&None, &getter, MAX).unwrap();
    assert_eq!(response.edges.len(), 1);
    assert_eq!(edge_ids(&response), vec![1]);
}

#[test]
fn sub_no_index() {
    let store = demo_store();
    let getter = PageRequest {
        cursor_value: None,
        index: None,
    };
    let response = store.sub_categories(&None, &getter, MAX);
    // no pagination index
    assert!(response.is_err());
}

#[test]
fn sub_cursor_first() {
    let store = demo_store();
    let getter = PageRequest {
        cursor_value: None,
        index: Some(Index::First(2)),
    };
    let response = store.sub_categories(&None, &getter, MAX).unwrap();
    assert_eq!(response.edges.len(), 2);
    assert_eq!(edge_ids(&response), vec![1, 2]);

    let cursor = response.page_info.end_cursor.unwrap();
    let getter = PageRequest {
        cursor_value: Some(CursorValue::After(cursor)),
        index: Some(Index::First(1)),
    };
    let response = store.sub_categories(&None, &getter, MAX).unwrap();
    assert_eq!(response.edges.len(), 1);
    assert_eq!(edge_ids(&response), vec![3]);
}

#[test]
fn sub_scope_filters_on_parent() {
    let mut store = Store::new();
    store.create(new_cat(1), 1, 100).unwrap();
    let mut child_a = new_cat(2);
    child_a.parent_id = Some("http://localhost/category/cat1".to_string());
    store.create(child_a, 2, 200).unwrap();
    let mut child_b = new_cat(3);
    child_b.parent_id = Some("http://localhost/category/cat1".to_string());
    store.create(child_b, 3, 300).unwrap();

    let getter = PageRequest {
        cursor_value: None,
        index: Some(Index::First(10)),
    };
    let parent = Some("http://localhost/category/cat1".to_string());
    let children = store.sub_categories(&parent, &getter, MAX).unwrap();
    assert_eq!(edge_ids(&children), vec![2, 3]);

    let top = store.sub_categories(&None, &getter, MAX).unwrap();
    assert_eq!(edge_ids(&top), vec![1]);
}

#[test]
fn sub_items_are_joined_in_reference_order() {
    let mut store = Store::new();
    store.create(new_cat(1), 1, 100).unwrap();
    store.create(new_cat(2), 2, 200).unwrap();
    let mut parent = new_cat(3);
    parent.sub_categories = vec![
        "http://localhost/category/cat2".to_string(),
        "http://localhost/category/cat1".to_string(),
        "http://localhost/category/missing".to_string(),
    ];
    store.create(parent, 3, 300).unwrap();

    let getter = PageRequest {
        cursor_value: None,
        index: Some(Index::First(10)),
    };
    let response = store.sub_categories(&None, &getter, MAX).unwrap();
    let entity = &response.edges[2].node;
    assert_eq!(entity.id, 3);
    // Resolved in reference-list order; the dangling reference is dropped.
    let subs: Vec<&str> = entity
        .sub_categories
        .iter()
        .map(|s| s.ap_id.as_str())
        .collect();
    assert_eq!(
        subs,
        vec![
            "http://localhost/category/cat2",
            "http://localhost/category/cat1"
        ]
    );
    assert_eq!(entity.sub_categories[0].name, "cat2");
}

#[test]
fn empty_scope_is_an_empty_page() {
    let store = Store::new();
    let getter = PageRequest {
        cursor_value: None,
        index: Some(Index::First(5)),
    };
    let response = store.sub_categories(&None, &getter, MAX).unwrap();
    assert!(response.edges.is_empty());
    assert!(!response.page_info.has_next_page);
    assert!(!response.page_info.has_previous_page);
    assert!(response.page_info.start_cursor.is_none());
    assert!(response.page_info.end_cursor.is_none());
}
