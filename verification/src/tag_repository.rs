//! Tag storage operations: find-or-create resolution inside a caller's
//! transaction, linking an entry to a tag, and the name-ordered tag
//! listings.

use vstd::prelude::*;
use vstd::relations::sorted_by;
use crate::models::{tags_view, Tag, TagModel};
use crate::order::{sort_tags_by_name, tag_le};
use crate::store::{has_link, has_tag_named, spec_associate, spec_find_or_create, DbModel,
    DiaryDb, DiaryTx};
use crate::text::{trim_of, trim_to_string};

verus! {

/// The predicate selecting the tags linked to an entry.
pub open spec fn for_entry_pred(m: DbModel, entry_id: int) -> spec_fn(TagModel) -> bool {
    |t: TagModel| has_link(m, entry_id, t.id)
}

/// The tags linked to an entry, in creation order.
pub open spec fn tags_of_entry(m: DbModel, entry_id: int) -> Seq<TagModel> {
    m.tags.filter(for_entry_pred(m, entry_id))
}

/// The tags linked to an entry, ordered by name ascending.
pub open spec fn tags_of_entry_ordered(m: DbModel, entry_id: int) -> Seq<TagModel> {
    tags_of_entry(m, entry_id).sort_by(tag_le())
}

/// All tags, ordered by name ascending.
pub open spec fn all_tags_ordered(m: DbModel) -> Seq<TagModel> {
    m.tags.sort_by(tag_le())
}

/// Tag storage operations over a store handle. The component itself is
/// stateless; every operation takes the store or a transaction.
pub struct TagRepository {}

impl TagRepository {
    pub fn new() -> (r: TagRepository) {
        TagRepository {}
    }

    /// The tags of one entry, ordered by name ascending, without
    /// duplicates (each tag row is considered once).
    pub fn find_tags_for_entry(&self, db: &DiaryDb, entry_id: i32) -> (r: Vec<Tag>)
        requires
            db.wf(),
        ensures
            tags_view(r@) == tags_of_entry_ordered(db@, entry_id as int),
            sorted_by(tags_view(r@), tag_le()),
    {
        let ghost m = db@;
        let ghost pred = for_entry_pred(m, entry_id as int);
        let mut matched: Vec<Tag> = Vec::new();
        let mut i: usize = 0;
        proof {
            assert(m.tags.take(0) =~= Seq::<TagModel>::empty());
            reveal(Seq::filter);
        }
        while i < db.tags.len()
            invariant
                db.wf(),
                m == db@,
                pred == for_entry_pred(m, entry_id as int),
                i <= db@.tags.len(),
                tags_view(matched@) == m.tags.take(i as int).filter(pred),
            decreases db@.tags.len() - i,
        {
            let t = &db.tags[i];
            proof {
                reveal(Seq::filter);
                assert(m.tags.take(i as int + 1).drop_last() =~= m.tags.take(i as int));
                assert(m.tags.take(i as int + 1).last() == m.tags[i as int]);
            }
            if db.has_link_row(entry_id, t.id) {
                proof {
                    assert(pred(m.tags[i as int]));
                }
                matched.push(t.duplicate());
                proof {
                    assert(tags_view(matched@) =~= m.tags.take(i as int).filter(pred).push(
                        m.tags[i as int],
                    ));
                }
            } else {
                proof {
                    assert(!pred(m.tags[i as int]));
                }
            }
            i += 1;
        }
        proof {
            assert(m.tags.take(m.tags.len() as int) =~= m.tags);
        }
        sort_tags_by_name(matched)
    }

    /// Resolves a tag name inside the caller's transaction: the name is
    /// trimmed, looked up exactly, and a new tag row is created only if
    /// no row carries the trimmed name. Returns the tag's id.
    pub fn find_or_create_tag_tx(tx: &mut DiaryTx, tag_name: &str) -> (r: i32)
        requires
            old(tx).work.wf(),
            trim_of(tag_name@).len() > 0,
            old(tx).work@.tags.len() < i32::MAX,
        ensures
            final(tx).work.wf(),
            final(tx).work@ == spec_find_or_create(old(tx).work@, trim_of(tag_name@)).0,
            r as int == spec_find_or_create(old(tx).work@, trim_of(tag_name@)).1,
    {
        let ghost m = old(tx).work@;
        let t = trim_to_string(tag_name);
        let mut i: usize = 0;
        while i < tx.work.tags.len()
            invariant
                tx == old(tx),
                tx.work.wf(),
                m == tx.work@,
                t@ == trim_of(tag_name@),
                i <= m.tags.len(),
                forall|k: int| 0 <= k < i ==> (#[trigger] m.tags[k]).name != t@,
            decreases m.tags.len() - i,
        {
            if tx.work.tags[i].name == t {
                let id = tx.work.tags[i].id;
                proof {
                    assert(tags_view(tx.work.tags@)[i as int] == tx.work.tags@[i as int]@);
                    crate::store::lemma_tag_id_unique(m, t@, i as int);
                }
                return id;
            }
            proof {
                assert(tags_view(tx.work.tags@)[i as int] == tx.work.tags@[i as int]@);
            }
            i += 1;
        }
        proof {
            if has_tag_named(m, t@) {
                let k = choose|k: int|
                    0 <= k < m.tags.len() && (#[trigger] m.tags[k]).name == t@;
            }
            assert(!has_tag_named(m, t@));
            crate::store::lemma_find_or_create(m, t@);
        }
        let id = tx.work.tags.len() as i32 + 1;
        tx.work.tags.push(Tag { id, name: t });
        proof {
            assert(tx.work@ =~= spec_find_or_create(m, trim_of(tag_name@)).0);
        }
        id
    }

    /// Links the entry and the tag inside the caller's transaction.
    /// Linking an already linked pair is a no-op, so one request never
    /// produces duplicate association rows.
    pub fn associate_entry_with_tag_tx(tx: &mut DiaryTx, entry_id: i32, tag_id: i32)
        requires
            old(tx).work.wf(),
            1 <= entry_id as int <= old(tx).work@.entries.len(),
            1 <= tag_id as int <= old(tx).work@.tags.len(),
        ensures
            final(tx).work.wf(),
            final(tx).work@ == spec_associate(old(tx).work@, entry_id as int, tag_id as int),
            has_link(final(tx).work@, entry_id as int, tag_id as int),
    {
        proof {
            crate::store::lemma_associate(old(tx).work@, entry_id as int, tag_id as int);
        }
        if !tx.work.has_link_row(entry_id, tag_id) {
            tx.work.links.push(crate::models::EntryTag { entry_id, tag_id });
            proof {
                assert(tx.work@ =~= spec_associate(
                    old(tx).work@,
                    entry_id as int,
                    tag_id as int,
                ));
            }
        }
    }

    /// All tags, ordered by name ascending.
    pub fn find_all_tags(&self, db: &DiaryDb) -> (r: Vec<Tag>)
        requires
            db.wf(),
        ensures
            tags_view(r@) == all_tags_ordered(db@),
            sorted_by(tags_view(r@), tag_le()),
    {
        let mut copy: Vec<Tag> = Vec::new();
        let mut i: usize = 0;
        while i < db.tags.len()
            invariant
                i <= db.tags@.len(),
                copy@.len() == i,
                forall|k: int| 0 <= k < i ==> (#[trigger] copy@[k])@ == db.tags@[k]@,
            decreases db.tags@.len() - i,
        {
            copy.push(db.tags[i].duplicate());
            i += 1;
        }
        proof {
            assert(tags_view(copy@) =~= tags_view(db.tags@));
        }
        sort_tags_by_name(copy)
    }
}

} // verus!
