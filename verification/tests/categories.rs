use categories::entity::NewCategory;
use categories::error::CategoryError;
use categories::pagination::{CursorValue, Index, PageRequest};
use categories::store::Store;

const MAX: u32 = 100;

fn new_cat(i: u64) -> NewCategory {
    NewCategory {
        name: format!("cat{i}"),
        sub_categories: vec![],
        image_url: None,
        parent_id: None,
        ap_id: format!("http://localhost/category/cat{i}"),
        local: true,
    }
}

fn demo_store() -> Store {
    let mut store = Store::new();
    for i in 1..=3u64 {
        store.create(new_cat(i), i, 100 * i).unwrap();
    }
    store
}

fn edge_ids(conn: &categories::pagination::Connection) -> Vec<u64> {
    conn.edges.iter().map(|e| e.node.id).collect()
}

#[test]
fn no_parent_last() {
    let store = demo_store();
    let getter = PageRequest {
        cursor_value: None,
        index: Some(Index::Last(2)),
    };
    let response = store.categories(&getter, MAX).unwrap();
    assert_eq!(response.edges.len(), 2);
}

#[test]
fn no_parent_first() {
    let store = demo_store();
    let getter = PageRequest {
        cursor_value: None,
        index: Some(Index::First(2)),
    };
    let response = store.categories(&getter, MAX).unwrap();
    assert_eq!(response.edges.len(), 2);
}

#[test]
fn no_parent_last_exact() {
    let store = demo_store();
    let getter = PageRequest {
        cursor_value: None,
        index: Some(Index::Last(2)),
    };
    let response = store.categories(&getter, MAX).unwrap();
    assert_eq!(response.edges.len(), 2);
}

#[test]
fn cursor_last() {
    let store = demo_store();
    let getter = PageRequest {
        cursor_value: None,
        index: Some(Index::Last(2)),
    };
    let response = store.categories(&getter, MAX).unwrap();
    assert_eq!(response.edges.len(), 2);
    let cursor = response.page_info.end_cursor.unwrap();

    let getter = PageRequest {
        cursor_value: Some(CursorValue::Before(cursor)),
        index: Some(Index::Last(1)),
    };
    let response = store.categories(&getter, MAX).unwrap();
    assert_eq!(response.edges.len(), 1);
}

#[test]
fn no_index() {
    let store = demo_store();
    let getter = PageRequest {
        cursor_value: None,
        index: None,
    };
    let response = store.categories(&getter, MAX);
    // no pagination index
    assert!(response.is_err());
    assert_eq!(response.unwrap_err(), CategoryError::MissingPaginationIndex);
}

#[test]
fn cursor_first_sub() {
    let store = demo_store();
    let getter = PageRequest {
        cursor_value: None,
        index: Some(Index::First(2)),
    };
    let response = store.categories(&getter, MAX).unwrap();
    assert_eq!(response.edges.len(), 2);
    let cursor = response.page_info.end_cursor.unwrap();

    let getter = PageRequest {
        cursor_value: Some(CursorValue::After(cursor)),
        index: Some(Index::First(1)),
    };
    let response = store.categories(&getter, MAX).unwrap();
    assert_eq!(response.edges.len(), 1);
    assert_eq!(edge_ids(&response), vec![3]);
}

#[test]
fn garbage_cursor_is_rejected() {
    let store = demo_store();
    let getter = PageRequest {
        cursor_value: Some(CursorValue::After("garbage".to_string())),
        index: Some(Index::First(1)),
    };
    let response = store.categories(&getter, MAX);
    assert_eq!(response.unwrap_err(), CategoryError::InvalidCursor);
}

#[test]
fn count_is_clamped_to_maximum() {
    let store = demo_store();
    let getter = PageRequest {
        cursor_value: None,
        index: Some(Index::First(10)),
    };
    let response = store.categories(&getter, 2).unwrap();
    assert_eq!(edge_ids(&response), vec![1, 2]);
    assert!(response.page_info.has_next_page);
}

#[test]
fn timestamp_ties_break_on_id() {
    // Two rows share a timestamp: the composite (created_at, id) comparison
    // must keep them apart, or pages would skip or repeat rows.
    let mut store = Store::new();
    store.create(new_cat(1), 1, 100).unwrap();
    store.create(new_cat(2), 2, 100).unwrap();
    store.create(new_cat(3), 3, 100).unwrap();

    let getter = PageRequest {
        cursor_value: None,
        index: Some(Index::First(2)),
    };
    let first = store.categories(&getter, MAX).unwrap();
    assert_eq!(edge_ids(&first), vec![1, 2]);

    let cursor = first.page_info.end_cursor.unwrap();
    let getter = PageRequest {
        cursor_value: Some(CursorValue::After(cursor)),
        index: Some(Index::First(2)),
    };
    let rest = store.categories(&getter, MAX).unwrap();
    assert_eq!(edge_ids(&rest), vec![3]);
    assert!(!rest.page_info.has_next_page);
    assert!(rest.page_info.has_previous_page);
}

#[test]
fn federated_rows_are_not_listed() {
    let mut store = Store::new();
    store.create(new_cat(1), 1, 100).unwrap();
    let mut remote = new_cat(2);
    remote.local = false;
    store.create(remote, 2, 200).unwrap();

    let getter = PageRequest {
        cursor_value: None,
        index: Some(Index::First(10)),
    };
    let response = store.categories(&getter, MAX).unwrap();
    assert_eq!(edge_ids(&response), vec![1]);
}
