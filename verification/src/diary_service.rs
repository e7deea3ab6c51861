//! The diary service: orchestrates entry creation together with tag
//! resolution and linking as one atomic unit, and the two-read
//! (page of rows, total count) listing patterns.

use vstd::prelude::*;
use crate::clock::current_timestamp;
use crate::diary_repository::{entries_with_tag, entries_with_tag_ordered, DiaryRepository};
use crate::models::{entries_view, names_view, CreateEntryRequest, EntriesWithTagsResponse, Entry,
    EntryWithTags, EntryWithTagsResponse};
use crate::pagination::{page_of, spec_ceil_div, total_pages};
use crate::store::{fault_hits, has_link, has_tag_named, nonblank_count, spec_attach,
    spec_create_with_tags, spec_insert_entry, tag_id_of, DiaryDb, DiaryTx};
use crate::tag_repository::{tags_of_entry_ordered, TagRepository};
use crate::text::{is_blank_tag, trim_of};

verus! {

/// Errors of the diary service.
#[derive(Clone, Copy, Debug, PartialEq, Eq, Structural)]
pub enum DiaryServiceError {
    /// A storage statement failed; the transaction, if one was open,
    /// rolled back and nothing became visible.
    DatabaseError,
    /// The request itself is invalid (a page number of zero) and never
    /// reached storage.
    ValidationError,
    /// No connection could be acquired within the configured timeout.
    ConnectionError,
}

/// Whether the injected fault strikes the statement about to run.
fn fault_at(fail_step: &Option<u64>, step: u64) -> (r: bool)
    ensures
        r == match *fail_step {
            Some(k) => k == step,
            None => false,
        },
{
    match fail_step {
        Some(k) => *k == step,
        None => false,
    }
}

/// The diary transaction coordinator.
pub struct DiaryService {
    diary_repo: DiaryRepository,
    tag_repo: TagRepository,
}

impl DiaryService {
    pub fn new() -> (r: DiaryService) {
        DiaryService { diary_repo: DiaryRepository::new(), tag_repo: TagRepository::new() }
    }

    /// Creates an entry together with its tag links inside one
    /// transaction, under an injected storage fault: `fail_step` is the
    /// index of the statement (entry insert, each tag resolution, each
    /// link insert, the commit) at which the backing store reports an
    /// error. Either the fault misses and the entry and every non-blank
    /// tag link become visible together, or the transaction rolls back
    /// and the store is left exactly as it was.
    pub fn create_entry_with_tags_under_fault(
        &self,
        db: &mut DiaryDb,
        entry_data: &EntryWithTags,
        created_at: i64,
        fail_step: Option<u64>,
    ) -> (r: Result<i32, DiaryServiceError>)
        requires
            old(db).wf(),
            old(db)@.entries.len() < i32::MAX,
            old(db)@.tags.len() + entry_data.tags@.len() <= i32::MAX,
        ensures
            final(db).wf(),
            (r is Ok <==> !fault_hits(fail_step, names_view(entry_data.tags@))),
            r is Ok ==> ({
                let cr = spec_create_with_tags(
                    old(db)@,
                    entry_data.content@,
                    names_view(entry_data.tags@),
                    created_at as int,
                );
                final(db)@ == cr.0 && r->Ok_0 as int == cr.1
            }),
            r is Ok ==> forall|j: int|
                0 <= j < entry_data.tags@.len() && trim_of(entry_data.tags@[j]@).len() > 0
                    ==> has_tag_named(final(db)@, #[trigger] trim_of(entry_data.tags@[j]@))
                    && has_link(
                    final(db)@,
                    r->Ok_0 as int,
                    tag_id_of(final(db)@, trim_of(entry_data.tags@[j]@)),
                ),
            r is Err ==> final(db)@ == old(db)@ && r->Err_0 == DiaryServiceError::DatabaseError,
    {
        let ghost names = names_view(entry_data.tags@);
        proof {
            crate::store::lemma_nonblank_count_bounds(names, names.len() as int);
        }
        let mut step: u64 = 0;
        let mut tx = DiaryTx::begin(db);
        if fault_at(&fail_step, step) {
            tx.rollback();
            return Err(DiaryServiceError::DatabaseError);
        }
        let entry_id = DiaryRepository::create_entry_with_tags_tx(
            &mut tx,
            entry_data.content.as_str(),
            created_at,
        );
        step = 1;
        let ghost m1 = spec_insert_entry(old(db)@, entry_data.content@, created_at as int);
        let mut i: usize = 0;
        while i < entry_data.tags.len()
            invariant
                db.wf(),
                db@ == old(db)@,
                old(db)@.entries.len() < i32::MAX,
                old(db)@.tags.len() + entry_data.tags@.len() <= i32::MAX,
                names == names_view(entry_data.tags@),
                m1 == spec_insert_entry(old(db)@, entry_data.content@, created_at as int),
                entry_id as int == old(db)@.entries.len() + 1,
                i <= entry_data.tags@.len(),
                tx.work@ == spec_attach(m1, entry_id as int, names, i as int),
                tx.work.wf(),
                tx.work@.entries.len() == old(db)@.entries.len() + 1,
                tx.work@.tags.len() <= old(db)@.tags.len() + nonblank_count(names, i as int),
                step as int == 1 + 2 * nonblank_count(names, i as int),
                match fail_step {
                    Some(k) => k >= step,
                    None => true,
                },
            decreases entry_data.tags@.len() - i,
        {
            proof {
                crate::store::lemma_nonblank_count_bounds(names, i as int);
                crate::store::lemma_nonblank_count_bounds(names, i as int + 1);
            }
            let name = &entry_data.tags[i];
            proof {
                assert(names[i as int] == name@);
            }
            if is_blank_tag(name.as_str()) {
                i += 1;
                continue;
            }
            proof {
                crate::store::lemma_nonblank_count_monotone(
                    names,
                    i as int + 1,
                    names.len() as int,
                );
            }
            if fault_at(&fail_step, step) {
                tx.rollback();
                return Err(DiaryServiceError::DatabaseError);
            }
            step = step + 1;
            let ghost before = tx.work@;
            proof {
                crate::store::lemma_find_or_create(before, trim_of(name@));
            }
            let tag_id = TagRepository::find_or_create_tag_tx(&mut tx, name.as_str());
            if fault_at(&fail_step, step) {
                tx.rollback();
                return Err(DiaryServiceError::DatabaseError);
            }
            step = step + 1;
            proof {
                crate::store::lemma_associate(tx.work@, entry_id as int, tag_id as int);
            }
            TagRepository::associate_entry_with_tag_tx(&mut tx, entry_id, tag_id);
            i += 1;
        }
        proof {
            crate::store::lemma_nonblank_count_bounds(names, names.len() as int);
        }
        if fault_at(&fail_step, step) {
            tx.rollback();
            return Err(DiaryServiceError::DatabaseError);
        }
        proof {
            crate::store::lemma_attach(m1, entry_id as int, names, names.len() as int);
            assert forall|j: int|
                0 <= j < entry_data.tags@.len() && trim_of(entry_data.tags@[j]@).len() > 0
                    implies has_tag_named(tx.work@, #[trigger] trim_of(entry_data.tags@[j]@))
                    && has_link(
                    tx.work@,
                    entry_id as int,
                    tag_id_of(tx.work@, trim_of(entry_data.tags@[j]@)),
                ) by {
                assert(names[j] == entry_data.tags@[j]@);
            }
        }
        tx.commit(db);
        Ok(entry_id)
    }

    /// Creates an entry stamped with the current time together with its
    /// tag links, atomically. Blank tag names are skipped; repeating a
    /// name adds a single link.
    pub fn create_entry_with_tags(
        &self,
        db: &mut DiaryDb,
        entry_data: &EntryWithTags,
    ) -> (r: Result<(), DiaryServiceError>)
        requires
            old(db).wf(),
            old(db)@.entries.len() < i32::MAX,
            old(db)@.tags.len() + entry_data.tags@.len() <= i32::MAX,
        ensures
            final(db).wf(),
            r is Ok,
            exists|t: int|
                final(db)@ == spec_create_with_tags(
                    old(db)@,
                    entry_data.content@,
                    names_view(entry_data.tags@),
                    t,
                ).0,
    {
        let now = current_timestamp();
        match self.create_entry_with_tags_under_fault(db, entry_data, now, None) {
            Ok(_) => {
                proof {
                    assert(final(db)@ == spec_create_with_tags(
                        old(db)@,
                        entry_data.content@,
                        names_view(entry_data.tags@),
                        now as int,
                    ).0);
                }
                Ok(())
            },
            Err(e) => {
                proof {
                    assert(false);
                }
                Err(e)
            },
        }
    }

    /// Creates a tagless entry stamped with the current time; a single
    /// statement, so no transaction is opened.
    pub fn create_simple_entry(
        &self,
        db: &mut DiaryDb,
        request: &CreateEntryRequest,
    ) -> (r: Result<(), DiaryServiceError>)
        requires
            old(db).wf(),
            old(db)@.entries.len() < i32::MAX,
        ensures
            final(db).wf(),
            r is Ok,
            exists|t: int| final(db)@ == spec_insert_entry(old(db)@, request.content@, t),
    {
        self.diary_repo.create_simple_entry(db, request.content.as_str());
        Ok(())
    }

    /// The total number of entries.
    pub fn get_entry_count(&self, db: &DiaryDb) -> (r: Result<i64, DiaryServiceError>)
        requires
            db.wf(),
        ensures
            r is Ok,
            r->Ok_0 as int == db@.entries.len(),
    {
        Ok(self.diary_repo.count_entries(db))
    }

    /// One page of entries, newest id first, each bundled with its tags
    /// ordered by name, together with the page arithmetic. The page of
    /// rows and the total count are two independent reads of the store.
    pub fn get_entries_with_details(
        &self,
        db: &DiaryDb,
        page: u32,
        limit: u32,
    ) -> (r: Result<EntriesWithTagsResponse, DiaryServiceError>)
        requires
            db.wf(),
        ensures
            (r is Ok <==> page >= 1 && limit >= 1),
            r is Err ==> r->Err_0 == DiaryServiceError::ValidationError,
            r is Ok ==> ({
                let resp = r->Ok_0;
                let rows = page_of(
                    db@.entries.reverse(),
                    limit as int,
                    (page - 1) as int * limit as int,
                );
                &&& resp.current_page == page
                &&& resp.total_pages as int == spec_ceil_div(
                    db@.entries.len() as int,
                    limit as int,
                )
                &&& resp.entries@.len() == rows.len()
                &&& forall|k: int|
                    0 <= k < rows.len() ==> {
                        let ewt = (#[trigger] resp.entries@[k])@;
                        &&& ewt.id == rows[k].id
                        &&& ewt.content == rows[k].content
                        &&& ewt.created_at == rows[k].created_at
                        &&& ewt.tags == tags_of_entry_ordered(db@, rows[k].id)
                    }
            }),
    {
        if page == 0 || limit == 0 {
            return Err(DiaryServiceError::ValidationError);
        }
        let offset64: u64 = crate::pagination::page_offset(page, limit);
        let offset: u32 = if offset64 > (i32::MAX as u64) {
            i32::MAX as u32
        } else {
            offset64 as u32
        };
        proof {
            let rev = db@.entries.reverse();
            assert(page_of(rev, limit as int, offset as int) =~= page_of(
                rev,
                limit as int,
                offset64 as int,
            ));
        }
        let entries = self.diary_repo.find_entries(db, limit, offset);
        let count = self.diary_repo.count_entries(db);
        let tp = total_pages(count, limit);
        let ghost rows = entries_view(entries@);
        let mut out: Vec<EntryWithTagsResponse> = Vec::new();
        let mut i: usize = 0;
        while i < entries.len()
            invariant
                db.wf(),
                rows == entries_view(entries@),
                i <= entries@.len(),
                out@.len() == i,
                forall|k: int|
                    0 <= k < i ==> {
                        let ewt = (#[trigger] out@[k])@;
                        &&& ewt.id == rows[k].id
                        &&& ewt.content == rows[k].content
                        &&& ewt.created_at == rows[k].created_at
                        &&& ewt.tags == tags_of_entry_ordered(db@, rows[k].id)
                    },
            decreases entries@.len() - i,
        {
            let e = &entries[i];
            let tags = self.tag_repo.find_tags_for_entry(db, e.id);
            out.push(
                EntryWithTagsResponse {
                    id: e.id,
                    content: e.content.clone(),
                    created_at: e.created_at,
                    tags,
                },
            );
            i += 1;
        }
        Ok(EntriesWithTagsResponse { entries: out, total_pages: tp, current_page: page })
    }

    /// One page of the entries linked to a tag, most recent first,
    /// together with the number of pages of that tag's entries. Two
    /// independent reads, as in `get_entries_with_details`.
    pub fn get_entries_by_tag(
        &self,
        db: &DiaryDb,
        tag_id: i32,
        page: u32,
        limit: u32,
    ) -> (r: Result<(Vec<Entry>, u32), DiaryServiceError>)
        requires
            db.wf(),
        ensures
            (r is Ok <==> page >= 1 && limit >= 1),
            r is Err ==> r->Err_0 == DiaryServiceError::ValidationError,
            r is Ok ==> ({
                let (rows, tp) = r->Ok_0;
                &&& entries_view(rows@) == page_of(
                    entries_with_tag_ordered(db@, tag_id as int),
                    limit as int,
                    (page - 1) as int * limit as int,
                )
                &&& tp as int == spec_ceil_div(
                    entries_with_tag(db@, tag_id as int).len() as int,
                    limit as int,
                )
            }),
    {
        if page == 0 || limit == 0 {
            return Err(DiaryServiceError::ValidationError);
        }
        let offset64: u64 = crate::pagination::page_offset(page, limit);
        let offset: u32 = if offset64 > (i32::MAX as u64) {
            i32::MAX as u32
        } else {
            offset64 as u32
        };
        proof {
            broadcast use vstd::seq_lib::group_to_multiset_ensures;

            let full = entries_with_tag_ordered(db@, tag_id as int);
            let filtered = entries_with_tag(db@, tag_id as int);
            crate::order::lemma_entry_le_total_ordering();
            filtered.lemma_sort_by_ensures(crate::order::entry_le());
            db@.entries.lemma_filter_len(crate::diary_repository::by_tag_pred(db@, tag_id as int));
            assert(filtered.to_multiset().len() == filtered.len());
            assert(full.to_multiset().len() == full.len());
            assert(full.len() == filtered.len());
            assert(full.len() <= i32::MAX);
            assert(page_of(full, limit as int, offset as int) =~= page_of(
                full,
                limit as int,
                offset64 as int,
            ));
        }
        let entries = self.diary_repo.find_entries_by_tag(db, tag_id, limit, offset);
        let count = self.diary_repo.count_entries_by_tag(db, tag_id);
        let tp = total_pages(count, limit);
        Ok((entries, tp))
    }
}

} // verus!
