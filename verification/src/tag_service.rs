//! The tag service: listing all tags and resolving a tag by name, with
//! blank names rejected before they reach storage.

use vstd::prelude::*;
use crate::models::{tags_view, Tag};
use crate::store::{spec_find_or_create, DiaryDb, DiaryTx};
use crate::tag_repository::{all_tags_ordered, TagRepository};
use crate::text::{is_blank_tag, trim_of};

verus! {

/// Errors of the tag service.
#[derive(Clone, Copy, Debug, PartialEq, Eq, Structural)]
pub enum TagServiceError {
    /// A storage statement failed.
    DatabaseError,
    /// The tag name is blank and never reached storage.
    ValidationError,
}

/// The tag service over a store handle.
pub struct TagService {
    tag_repo: TagRepository,
}

impl TagService {
    pub fn new() -> (r: TagService) {
        TagService { tag_repo: TagRepository::new() }
    }

    /// All tags, ordered by name ascending.
    pub fn get_all_tags(&self, db: &DiaryDb) -> (r: Result<Vec<Tag>, TagServiceError>)
        requires
            db.wf(),
        ensures
            r is Ok,
            r is Ok ==> tags_view(r->Ok_0@) == all_tags_ordered(db@),
    {
        Ok(self.tag_repo.find_all_tags(db))
    }

    /// Resolves a tag name: rejects a blank name as a validation error;
    /// otherwise finds or creates the tag in its own transaction and
    /// returns the full row.
    pub fn find_or_create_tag(&self, db: &mut DiaryDb, tag_name: &str) -> (r: Result<
        Tag,
        TagServiceError,
    >)
        requires
            old(db).wf(),
            old(db)@.tags.len() < i32::MAX,
        ensures
            final(db).wf(),
            (r is Ok <==> trim_of(tag_name@).len() > 0),
            r is Ok ==> ({
                let fc = spec_find_or_create(old(db)@, trim_of(tag_name@));
                &&& final(db)@ == fc.0
                &&& r->Ok_0@.id == fc.1
                &&& r->Ok_0@.name == trim_of(tag_name@)
            }),
            r is Err ==> final(db)@ == old(db)@ && r->Err_0 == TagServiceError::ValidationError,
    {
        if is_blank_tag(tag_name) {
            return Err(TagServiceError::ValidationError);
        }
        proof {
            crate::store::lemma_find_or_create(db@, trim_of(tag_name@));
        }
        let mut tx = DiaryTx::begin(db);
        let tag_id = TagRepository::find_or_create_tag_tx(&mut tx, tag_name);
        tx.commit(db);
        // the transaction yields only the id; re-read the full row
        let idx = (tag_id - 1) as usize;
        let tag = db.tags[idx].duplicate();
        proof {
            assert(db@.tags[idx as int] == tags_view(db.tags@)[idx as int]);
        }
        Ok(tag)
    }
}

} // verus!
