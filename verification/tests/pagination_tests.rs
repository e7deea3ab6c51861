use diary::diary_repository::DiaryRepository;
use diary::diary_service::{DiaryService, DiaryServiceError};
use diary::pagination::{page_offset, resolve_page, total_pages, PaginationQuery, PAGE_LIMIT};
use diary::store::DiaryDb;

fn db_with_entries(n: usize) -> DiaryDb {
    let mut db = DiaryDb::new();
    let repo = DiaryRepository::new();
    for i in 0..n {
        repo.create_simple_entry_at(&mut db, &format!("entry {}", i), i as i64);
    }
    db
}

#[test]
fn total_pages_is_the_ceiling() {
    assert_eq!(total_pages(0, 10), 0);
    assert_eq!(total_pages(1, 10), 1);
    assert_eq!(total_pages(10, 10), 1);
    assert_eq!(total_pages(11, 10), 2);
    assert_eq!(total_pages(25, 10), 3);
}

#[test]
fn page_offset_is_zero_based() {
    assert_eq!(page_offset(1, 10), 0);
    assert_eq!(page_offset(3, 10), 20);
}

#[test]
fn missing_page_defaults_to_first() {
    assert_eq!(resolve_page(&PaginationQuery { page: None }), 1);
    assert_eq!(resolve_page(&PaginationQuery { page: Some(7) }), 7);
}

#[test]
fn twenty_five_entries_paginate_into_three_pages() {
    let db = db_with_entries(25);
    let svc = DiaryService::new();

    let page1 = svc.get_entries_with_details(&db, 1, PAGE_LIMIT).unwrap();
    assert_eq!(page1.entries.len(), 10);
    assert_eq!(page1.total_pages, 3);
    assert_eq!(page1.current_page, 1);

    let page3 = svc.get_entries_with_details(&db, 3, PAGE_LIMIT).unwrap();
    assert_eq!(page3.entries.len(), 5);
    assert_eq!(page3.total_pages, 3);

    let page4 = svc.get_entries_with_details(&db, 4, PAGE_LIMIT).unwrap();
    assert_eq!(page4.entries.len(), 0);
    assert_eq!(page4.total_pages, 3);
}

#[test]
fn listing_is_ordered_newest_id_first() {
    let db = db_with_entries(12);
    let repo = DiaryRepository::new();
    let rows = repo.find_entries(&db, 10, 0);
    let ids: Vec<i32> = rows.iter().map(|e| e.id).collect();
    assert_eq!(ids, vec![12, 11, 10, 9, 8, 7, 6, 5, 4, 3]);
    let rest = repo.find_entries(&db, 10, 10);
    let ids: Vec<i32> = rest.iter().map(|e| e.id).collect();
    assert_eq!(ids, vec![2, 1]);
}

#[test]
fn page_zero_is_a_validation_error() {
    let db = db_with_entries(3);
    let svc = DiaryService::new();
    let r = svc.get_entries_with_details(&db, 0, PAGE_LIMIT);
    assert!(matches!(r, Err(DiaryServiceError::ValidationError)));
    let r = svc.get_entries_by_tag(&db, 1, 0, PAGE_LIMIT);
    assert!(matches!(r, Err(DiaryServiceError::ValidationError)));
}
