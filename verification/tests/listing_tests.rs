use diary::diary_repository::DiaryRepository;
use diary::diary_service::DiaryService;
use diary::models::EntryWithTags;
use diary::store::DiaryDb;
use diary::tag_repository::TagRepository;
use diary::tag_service::TagService;

fn request(content: &str, tags: &[&str]) -> EntryWithTags {
    EntryWithTags {
        content: content.to_string(),
        tags: tags.iter().map(|t| t.to_string()).collect(),
    }
}

fn create_at(db: &mut DiaryDb, content: &str, tags: &[&str], at: i64) -> i32 {
    DiaryService::new()
        .create_entry_with_tags_under_fault(db, &request(content, tags), at, None)
        .unwrap()
}

#[test]
fn tag_filtered_listing_is_ordered_by_timestamp_descending() {
    let mut db = DiaryDb::new();
    create_at(&mut db, "oldest", &["work"], 10);
    create_at(&mut db, "untagged", &[], 15);
    create_at(&mut db, "newest", &["work"], 30);
    create_at(&mut db, "middle", &["work"], 20);
    create_at(&mut db, "other tag", &["play"], 40);

    let repo = DiaryRepository::new();
    let rows = repo.find_entries_by_tag(&db, 1, 10, 0);
    let contents: Vec<&str> = rows.iter().map(|e| e.content.as_str()).collect();
    assert_eq!(contents, vec!["newest", "middle", "oldest"]);
    assert_eq!(repo.count_entries_by_tag(&db, 1), 3);
}

#[test]
fn entry_with_two_tags_appears_once_per_query() {
    let mut db = DiaryDb::new();
    let id = create_at(&mut db, "both", &["work", "play"], 10);
    create_at(&mut db, "only work", &["work"], 20);

    let repo = DiaryRepository::new();
    let work_rows = repo.find_entries_by_tag(&db, 1, 10, 0);
    let hits = work_rows.iter().filter(|e| e.id == id).count();
    assert_eq!(hits, 1);
    assert_eq!(work_rows.len(), 2);

    let play_rows = repo.find_entries_by_tag(&db, 2, 10, 0);
    assert_eq!(play_rows.len(), 1);
    assert_eq!(play_rows[0].id, id);
}

#[test]
fn tag_filtered_listing_paginates() {
    let mut db = DiaryDb::new();
    for i in 0..12 {
        create_at(&mut db, &format!("entry {}", i), &["work"], i as i64);
    }
    let svc = DiaryService::new();
    let (rows, total) = svc.get_entries_by_tag(&db, 1, 2, 10).unwrap();
    assert_eq!(total, 2);
    assert_eq!(rows.len(), 2);
    // the second page holds the two oldest
    assert_eq!(rows[0].content, "entry 1");
    assert_eq!(rows[1].content, "entry 0");
}

#[test]
fn all_tags_come_back_sorted_by_name() {
    let mut db = DiaryDb::new();
    let svc = TagService::new();
    svc.find_or_create_tag(&mut db, "zebra").unwrap();
    svc.find_or_create_tag(&mut db, "apple").unwrap();
    svc.find_or_create_tag(&mut db, "mango").unwrap();

    let tags = svc.get_all_tags(&db).unwrap();
    let names: Vec<&str> = tags.iter().map(|t| t.name.as_str()).collect();
    assert_eq!(names, vec!["apple", "mango", "zebra"]);
}

#[test]
fn tags_of_an_entry_come_back_sorted_by_name() {
    let mut db = DiaryDb::new();
    let id = create_at(&mut db, "note", &["work", "art", "life"], 10);
    let repo = TagRepository::new();
    let tags = repo.find_tags_for_entry(&db, id);
    let names: Vec<&str> = tags.iter().map(|t| t.name.as_str()).collect();
    assert_eq!(names, vec!["art", "life", "work"]);
}

#[test]
fn listing_bundles_each_entry_with_its_tags() {
    let mut db = DiaryDb::new();
    create_at(&mut db, "tagged", &["beta", "alpha"], 10);
    create_at(&mut db, "untagged", &[], 20);

    let svc = DiaryService::new();
    let resp = svc.get_entries_with_details(&db, 1, 10).unwrap();
    assert_eq!(resp.entries.len(), 2);
    // newest id first
    assert_eq!(resp.entries[0].content, "untagged");
    assert!(resp.entries[0].tags.is_empty());
    assert_eq!(resp.entries[1].content, "tagged");
    let names: Vec<&str> = resp.entries[1].tags.iter().map(|t| t.name.as_str()).collect();
    assert_eq!(names, vec!["alpha", "beta"]);
}
