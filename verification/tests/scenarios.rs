use categories::codec::{decode_cursor, encode_cursor};
use categories::entity::{CategoryDetailed, NewCategory};
use categories::error::CategoryError;
use categories::pagination::{CursorValue, Index, PageRequest};
use categories::query::{prepare_categories, prepare_single_category};
use categories::store::Store;
use categories::utils::{check_url, validate_input};

const MAX: u32 = 1000;

fn new_cat(i: u64) -> NewCategory {
    NewCategory {
        name: format!("cat{i}"),
        sub_categories: vec![],
        image_url: None,
        parent_id: None,
        ap_id: format!("http://localhost/category/cat{i}"),
        local: true,
    }
}

fn demo_store() -> Store {
    let mut store = Store::new();
    for i in 1..=3u64 {
        store.create(new_cat(i), i, 100 * i).unwrap();
    }
    store
}

fn edge_ids(conn: &categories::pagination::Connection) -> Vec<u64> {
    conn.edges.iter().map(|e| e.node.id).collect()
}

fn first(n: u32) -> PageRequest {
    PageRequest {
        index: Some(Index::First(n)),
        cursor_value: None,
    }
}

fn last(n: u32) -> PageRequest {
    PageRequest {
        index: Some(Index::Last(n)),
        cursor_value: None,
    }
}

#[test]
fn round_trip_concrete() {
    let token = encode_cursor(3, 300);
    assert_eq!(decode_cursor(&token), Ok((3, 300)));
}

#[test]
fn delete_is_idempotent() {
    let mut store = demo_store();
    let ap_id = "http://localhost/category/cat2".to_string();

    store.delete(&ap_id);
    let after_first: Vec<u64> = edge_ids(&store.categories(&first(10), MAX).unwrap());

    store.delete(&ap_id);
    let after_second: Vec<u64> = edge_ids(&store.categories(&first(10), MAX).unwrap());

    assert_eq!(after_first, vec![1, 3]);
    assert_eq!(after_second, after_first);
    assert_eq!(store.len(), 2);
}

#[test]
fn forward_then_backward_returns_the_predecessor() {
    let store = demo_store();
    // First(2) ends at row 2; Last(1) before that cursor is row 1: the item
    // immediately preceding the second one.
    let page = store.categories(&first(2), MAX).unwrap();
    let end = page.page_info.end_cursor.unwrap();

    let back = PageRequest {
        index: Some(Index::Last(1)),
        cursor_value: Some(CursorValue::Before(end)),
    };
    let previous = store.categories(&back, MAX).unwrap();
    assert_eq!(edge_ids(&previous), vec![1]);
}

#[test]
fn following_after_cursors_reproduces_the_set() {
    let mut store = Store::new();
    for i in 1..=7u64 {
        store.create(new_cat(i), i, 50 * i).unwrap();
    }

    let mut collected: Vec<u64> = Vec::new();
    let mut request = first(3);
    loop {
        let page = store.categories(&request, MAX).unwrap();
        collected.extend(edge_ids(&page));
        if !page.page_info.has_next_page {
            break;
        }
        request = PageRequest {
            index: Some(Index::First(3)),
            cursor_value: Some(CursorValue::After(page.page_info.end_cursor.unwrap())),
        };
    }
    assert_eq!(collected, vec![1, 2, 3, 4, 5, 6, 7]);
}

#[test]
fn boundary_oversized_page_returns_everything() {
    let store = demo_store();
    let response = store.categories(&first(500), MAX).unwrap();
    assert_eq!(response.edges.len(), 3);
    assert!(!response.page_info.has_next_page);
}

#[test]
fn first_two_of_three() {
    let store = demo_store();
    let response = store.categories(&first(2), MAX).unwrap();
    assert_eq!(edge_ids(&response), vec![1, 2]);
    assert!(response.page_info.has_next_page);
    assert!(!response.page_info.has_previous_page);
}

#[test]
fn last_two_of_three() {
    let store = demo_store();
    let response = store.categories(&last(2), MAX).unwrap();
    assert_eq!(edge_ids(&response), vec![2, 3]);
    assert!(response.page_info.has_previous_page);
    assert!(!response.page_info.has_next_page);
}

#[test]
fn backward_cursor_from_last_page() {
    let store = demo_store();
    let page = store.categories(&last(2), MAX).unwrap();
    let end = page.page_info.end_cursor.unwrap();

    let back = PageRequest {
        index: Some(Index::Last(1)),
        cursor_value: Some(CursorValue::Before(end)),
    };
    let previous = store.categories(&back, MAX).unwrap();
    assert_eq!(edge_ids(&previous), vec![1]);
}

#[test]
fn missing_pagination_index_fails() {
    let store = demo_store();
    let request = PageRequest {
        index: None,
        cursor_value: None,
    };
    assert_eq!(
        store.categories(&request, MAX).unwrap_err(),
        CategoryError::MissingPaginationIndex
    );
}

#[test]
fn upsert_creates_then_updates_in_place() {
    let mut store = Store::new();
    let ap_id = "http://localhost/category/fresh".to_string();

    let mut category = new_cat(1);
    category.ap_id = ap_id.clone();
    store.upsert(category, 1, 100).unwrap();
    assert_eq!(store.len(), 1);

    let mut renamed = new_cat(1);
    renamed.ap_id = ap_id.clone();
    renamed.name = "renamed".into();
    store.upsert(renamed, 2, 200).unwrap();
    assert_eq!(store.len(), 1);
    assert_eq!(store.category_by_ap_id(&ap_id).unwrap().name, "renamed");
}

fn bare_row(i: u64, sub: Option<(&str, &str)>) -> CategoryDetailed {
    CategoryDetailed {
        id: i,
        name: format!("cat{i}"),
        sub_category_name: sub.map(|s| s.0.to_string()),
        sub_category_ap_id: sub.map(|s| s.1.to_string()),
        image_url: None,
        parent_id: None,
        created_at: 100 * i,
        updated_at: 100 * i,
        ap_id: format!("http://localhost/category/cat{i}"),
        local: true,
    }
}

#[test]
fn aggregator_folds_rows_in_first_seen_order() {
    let rows = vec![
        bare_row(1, Some(("a", "http://localhost/a"))),
        bare_row(2, None),
        bare_row(1, Some(("b", "http://localhost/b"))),
        bare_row(1, Some(("a", "http://localhost/a"))),
    ];
    let cats = prepare_categories(rows);
    assert_eq!(cats.len(), 2);
    assert_eq!(cats[0].id, 1);
    assert_eq!(cats[1].id, 2);
    // Arrival order, repeated sub-items kept.
    let subs: Vec<&str> = cats[0]
        .sub_categories
        .iter()
        .map(|s| s.name.as_str())
        .collect();
    assert_eq!(subs, vec!["a", "b", "a"]);
    assert!(cats[1].sub_categories.is_empty());
}

#[test]
fn single_category_from_no_rows_is_an_error() {
    assert_eq!(
        prepare_single_category(vec![]).unwrap_err(),
        CategoryError::AmbiguousAggregation
    );
    let ok = prepare_single_category(vec![bare_row(5, None)]).unwrap();
    assert_eq!(ok.id, 5);
}

#[test]
fn url_validation_accepts_and_rejects() {
    assert!(check_url("http://localhost").is_ok());
    assert!(check_url("https://example.net/a?b=c").is_ok());
    assert_eq!(
        check_url("not a url").unwrap_err(),
        CategoryError::InvalidUrl
    );
    assert_eq!(check_url("/relative").unwrap_err(), CategoryError::InvalidUrl);

    let mut category = new_cat(1);
    assert!(validate_input(&category).is_ok());
    category.sub_categories = vec!["http://localhost/ok".into(), "broken".into()];
    assert_eq!(
        validate_input(&category).unwrap_err(),
        CategoryError::InvalidUrl
    );
}

#[test]
fn cursor_and_plain_paths_agree() {
    // A cursor standing before every row is the same logical position as
    // no cursor at all: both paths must produce identical page info.
    let store = demo_store();
    let plain = store.categories(&first(2), MAX).unwrap();

    let from_origin = PageRequest {
        index: Some(Index::First(2)),
        cursor_value: Some(CursorValue::After(encode_cursor(0, 0))),
    };
    let with_cursor = store.categories(&from_origin, MAX).unwrap();

    assert_eq!(edge_ids(&plain), edge_ids(&with_cursor));
    assert_eq!(plain.page_info, with_cursor.page_info);
}
