use diary::diary_service::{DiaryService, DiaryServiceError};
use diary::models::{CreateEntryRequest, EntryWithTags};
use diary::store::{DiaryDb, DiaryTx};
use diary::tag_repository::TagRepository;
use diary::tag_service::{TagService, TagServiceError};
use diary::text::is_blank_tag;

fn request(content: &str, tags: &[&str]) -> EntryWithTags {
    EntryWithTags {
        content: content.to_string(),
        tags: tags.iter().map(|t| t.to_string()).collect(),
    }
}

#[test]
fn simple_entry_is_counted() {
    let mut db = DiaryDb::new();
    let svc = DiaryService::new();
    assert_eq!(svc.get_entry_count(&db).unwrap(), 0);
    svc.create_simple_entry(&mut db, &CreateEntryRequest { content: "hello".to_string() })
        .unwrap();
    assert_eq!(svc.get_entry_count(&db).unwrap(), 1);
    assert_eq!(db.entries[0].id, 1);
    assert_eq!(db.entries[0].content, "hello");
}

#[test]
fn count_grows_by_the_number_of_inserts() {
    let mut db = DiaryDb::new();
    let svc = DiaryService::new();
    svc.create_entry_with_tags(&mut db, &request("first", &["a"])).unwrap();
    let before = svc.get_entry_count(&db).unwrap();
    for i in 0..5 {
        svc.create_simple_entry(&mut db, &CreateEntryRequest { content: format!("more {}", i) })
            .unwrap();
    }
    assert_eq!(svc.get_entry_count(&db).unwrap(), before + 5);
}

#[test]
fn blank_tags_are_skipped() {
    let mut db = DiaryDb::new();
    let svc = DiaryService::new();
    svc.create_entry_with_tags(&mut db, &request("note", &["", "  ", "work"])).unwrap();
    assert_eq!(db.tags.len(), 1);
    assert_eq!(db.tags[0].name, "work");
    assert_eq!(db.links.len(), 1);
    assert_eq!(db.links[0].entry_id, 1);
    assert_eq!(db.links[0].tag_id, 1);
}

#[test]
fn repeated_tag_name_links_once() {
    let mut db = DiaryDb::new();
    let svc = DiaryService::new();
    let r = svc.create_entry_with_tags(&mut db, &request("note", &["work", "work"]));
    assert!(r.is_ok());
    assert_eq!(db.tags.len(), 1);
    assert_eq!(db.links.len(), 1);
}

#[test]
fn tag_names_are_trimmed_before_resolution() {
    let mut db = DiaryDb::new();
    let svc = TagService::new();
    let tag = svc.find_or_create_tag(&mut db, "  work  ").unwrap();
    assert_eq!(tag.name, "work");
    assert_eq!(tag.id, 1);
    // the same name with other surrounding whitespace resolves to the same row
    let again = svc.find_or_create_tag(&mut db, "work ").unwrap();
    assert_eq!(again.id, 1);
    assert_eq!(db.tags.len(), 1);
}

#[test]
fn blank_tag_name_is_rejected() {
    let mut db = DiaryDb::new();
    let svc = TagService::new();
    let r = svc.find_or_create_tag(&mut db, "   ");
    assert!(matches!(r, Err(TagServiceError::ValidationError)));
    assert_eq!(db.tags.len(), 0);
    assert!(is_blank_tag("   "));
    assert!(!is_blank_tag(" a "));
}

#[test]
fn find_or_create_is_idempotent_across_transactions() {
    let mut db = DiaryDb::new();

    let mut tx = DiaryTx::begin(&db);
    let first = TagRepository::find_or_create_tag_tx(&mut tx, "work");
    let second = TagRepository::find_or_create_tag_tx(&mut tx, "work");
    assert_eq!(first, second);
    tx.commit(&mut db);
    assert_eq!(db.tags.len(), 1);

    let mut tx = DiaryTx::begin(&db);
    let third = TagRepository::find_or_create_tag_tx(&mut tx, "work");
    assert_eq!(third, first);
    tx.commit(&mut db);
    assert_eq!(db.tags.len(), 1);
}

#[test]
fn dropped_transaction_leaves_no_trace() {
    let mut db = DiaryDb::new();
    {
        let mut tx = DiaryTx::begin(&db);
        TagRepository::find_or_create_tag_tx(&mut tx, "pending");
        tx.rollback();
    }
    assert_eq!(db.tags.len(), 0);
    let svc = DiaryService::new();
    assert_eq!(svc.get_entry_count(&db).unwrap(), 0);
}

#[test]
fn creation_is_atomic_under_a_fault_at_every_step() {
    let svc = DiaryService::new();
    // two non-blank tags: insert, resolve, link, resolve, link, commit
    let steps = 6u64;
    for k in 0..steps {
        let mut db = DiaryDb::new();
        svc.create_entry_with_tags(&mut db, &request("earlier", &["old"])).unwrap();
        let r = svc.create_entry_with_tags_under_fault(
            &mut db,
            &request("note", &["work", "life"]),
            77,
            Some(k),
        );
        assert!(matches!(r, Err(DiaryServiceError::DatabaseError)), "step {}", k);
        // nothing of the failed request is visible
        assert_eq!(db.entries.len(), 1);
        assert_eq!(db.tags.len(), 1);
        assert_eq!(db.links.len(), 1);
    }
    // a fault beyond the last statement strikes nothing
    let mut db = DiaryDb::new();
    let r = svc.create_entry_with_tags_under_fault(
        &mut db,
        &request("note", &["work", "life"]),
        77,
        Some(steps),
    );
    assert_eq!(r.unwrap(), 1);
    assert_eq!(db.entries.len(), 1);
    assert_eq!(db.tags.len(), 2);
    assert_eq!(db.links.len(), 2);
}

#[test]
fn faultless_creation_makes_everything_visible_together() {
    let mut db = DiaryDb::new();
    let svc = DiaryService::new();
    let id = svc
        .create_entry_with_tags_under_fault(&mut db, &request("note", &["work", "life"]), 5, None)
        .unwrap();
    assert_eq!(id, 1);
    assert_eq!(db.entries.len(), 1);
    assert_eq!(db.entries[0].content, "note");
    assert_eq!(db.entries[0].created_at, 5);
    let names: Vec<&str> = db.tags.iter().map(|t| t.name.as_str()).collect();
    assert_eq!(names, vec!["work", "life"]);
    assert_eq!(db.links.len(), 2);
}

#[test]
fn shared_tags_are_not_duplicated_by_later_entries() {
    let mut db = DiaryDb::new();
    let svc = DiaryService::new();
    svc.create_entry_with_tags(&mut db, &request("one", &["work"])).unwrap();
    svc.create_entry_with_tags(&mut db, &request("two", &["work", "play"])).unwrap();
    assert_eq!(db.tags.len(), 2);
    assert_eq!(db.links.len(), 3);
}
