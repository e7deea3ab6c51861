//! Entry storage operations: paginated listing newest-id first, counting,
//! inserting (plain and inside a transaction), and the tag-filtered
//! listing ordered by timestamp descending.

use vstd::prelude::*;
use vstd::relations::sorted_by;
use crate::clock::current_timestamp;
use crate::models::{entries_view, Entry, EntryModel};
use crate::order::{entry_le, sort_entries_recent_first};
use crate::pagination::page_of;
use crate::store::{has_link, spec_insert_entry, DbModel, DiaryDb, DiaryTx};

verus! {

/// The predicate selecting the entries linked to a tag.
pub open spec fn by_tag_pred(m: DbModel, tag_id: int) -> spec_fn(EntryModel) -> bool {
    |e: EntryModel| has_link(m, e.id, tag_id)
}

/// The entries linked to a tag, in insertion order.
pub open spec fn entries_with_tag(m: DbModel, tag_id: int) -> Seq<EntryModel> {
    m.entries.filter(by_tag_pred(m, tag_id))
}

/// The entries linked to a tag, most recent first.
pub open spec fn entries_with_tag_ordered(m: DbModel, tag_id: int) -> Seq<EntryModel> {
    entries_with_tag(m, tag_id).sort_by(entry_le())
}

/// Entry storage operations over a store handle.
pub struct DiaryRepository {}

impl DiaryRepository {
    pub fn new() -> (r: DiaryRepository) {
        DiaryRepository {}
    }

    /// One page of entries, ordered newest id first: the page slice of
    /// the reversed entry sequence.
    pub fn find_entries(&self, db: &DiaryDb, limit: u32, offset: u32) -> (r: Vec<Entry>)
        requires
            db.wf(),
        ensures
            entries_view(r@) == page_of(db@.entries.reverse(), limit as int, offset as int),
            forall|i: int, j: int| 0 <= i < j < r@.len() ==> r@[i]@.id > r@[j]@.id,
    {
        let len = db.entries.len();
        let off = offset as usize;
        let lim = limit as usize;
        let mut r: Vec<Entry> = Vec::new();
        let mut i: usize = 0;
        while i < lim && off < len && i < len - off
            invariant
                db.wf(),
                len == db@.entries.len(),
                off == offset as usize,
                lim == limit as usize,
                i <= lim,
                off < len ==> i <= len - off,
                off >= len ==> i == 0,
                r@.len() == i,
                forall|k: int| 0 <= k < i ==> (#[trigger] r@[k])@ == db@.entries[len - 1 - off - k],
            decreases lim - i,
        {
            let idx = len - 1 - off - i;
            r.push(db.entries[idx].duplicate());
            i += 1;
        }
        proof {
            let m = db@;
            let rev = m.entries.reverse();
            let page = page_of(rev, limit as int, offset as int);
            assert(entries_view(r@) =~= page);
            assert forall|p: int, q: int| 0 <= p < q < r@.len() implies r@[p]@.id > r@[q]@.id by {
                assert(r@[p]@ == m.entries[len - 1 - off - p]);
                assert(r@[q]@ == m.entries[len - 1 - off - q]);
            }
        }
        r
    }

    /// The total number of entries.
    pub fn count_entries(&self, db: &DiaryDb) -> (r: i64)
        requires
            db.wf(),
        ensures
            r as int == db@.entries.len(),
    {
        db.entries.len() as i64
    }

    /// Inserts an entry with an explicit timestamp, outside any
    /// transaction, and returns its generated id.
    pub fn create_simple_entry_at(
        &self,
        db: &mut DiaryDb,
        content: &str,
        created_at: i64,
    ) -> (r: u64)
        requires
            old(db).wf(),
            old(db)@.entries.len() < i32::MAX,
        ensures
            final(db)@ == spec_insert_entry(old(db)@, content@, created_at as int),
            final(db).wf(),
            r as int == old(db)@.entries.len() + 1,
    {
        let id = db.entries.len() as i32 + 1;
        db.entries.push(Entry { id, content: content.to_owned(), created_at });
        proof {
            assert(db@ =~= spec_insert_entry(old(db)@, content@, created_at as int));
        }
        id as u64
    }

    /// Inserts an entry stamped with the current time, outside any
    /// transaction, and returns its generated id.
    pub fn create_simple_entry(&self, db: &mut DiaryDb, content: &str) -> (r: u64)
        requires
            old(db).wf(),
            old(db)@.entries.len() < i32::MAX,
        ensures
            final(db).wf(),
            exists|t: int| final(db)@ == spec_insert_entry(old(db)@, content@, t),
            r as int == old(db)@.entries.len() + 1,
    {
        let now = current_timestamp();
        let r = self.create_simple_entry_at(db, content, now);
        proof {
            assert(db@ == spec_insert_entry(old(db)@, content@, now as int));
        }
        r
    }

    /// Inserts an entry within the caller's transaction and returns its
    /// generated id.
    pub fn create_entry_with_tags_tx(tx: &mut DiaryTx, content: &str, created_at: i64) -> (r: i32)
        requires
            old(tx).work.wf(),
            old(tx).work@.entries.len() < i32::MAX,
        ensures
            final(tx).work@ == spec_insert_entry(old(tx).work@, content@, created_at as int),
            final(tx).work.wf(),
            r as int == old(tx).work@.entries.len() + 1,
    {
        let id = tx.work.entries.len() as i32 + 1;
        tx.work.entries.push(Entry { id, content: content.to_owned(), created_at });
        proof {
            assert(tx.work@ =~= spec_insert_entry(old(tx).work@, content@, created_at as int));
        }
        id
    }

    /// One page of the entries linked to a tag, most recent first. An
    /// entry appears at most once however many links it carries, since
    /// rows are drawn from the entry table itself.
    pub fn find_entries_by_tag(
        &self,
        db: &DiaryDb,
        tag_id: i32,
        limit: u32,
        offset: u32,
    ) -> (r: Vec<Entry>)
        requires
            db.wf(),
        ensures
            entries_view(r@) == page_of(
                entries_with_tag_ordered(db@, tag_id as int),
                limit as int,
                offset as int,
            ),
            sorted_by(entries_view(r@), entry_le()),
            forall|i: int|
                0 <= i < r@.len() ==> has_link(db@, (#[trigger] r@[i])@.id, tag_id as int),
            forall|i: int, j: int| 0 <= i < j < r@.len() ==> r@[i]@.id != r@[j]@.id,
    {
        let ghost m = db@;
        let ghost pred = by_tag_pred(m, tag_id as int);
        let mut matched: Vec<Entry> = Vec::new();
        let mut i: usize = 0;
        proof {
            assert(m.entries.take(0) =~= Seq::<EntryModel>::empty());
            reveal(Seq::filter);
        }
        while i < db.entries.len()
            invariant
                db.wf(),
                m == db@,
                pred == by_tag_pred(m, tag_id as int),
                i <= db@.entries.len(),
                entries_view(matched@) == m.entries.take(i as int).filter(pred),
                forall|k: int|
                    0 <= k < matched@.len() ==> (#[trigger] matched@[k])@.id <= i,
                forall|p: int, q: int|
                    0 <= p < q < matched@.len() ==> matched@[p]@.id < matched@[q]@.id,
            decreases db@.entries.len() - i,
        {
            let e = &db.entries[i];
            proof {
                reveal(Seq::filter);
                assert(m.entries.take(i as int + 1).drop_last() =~= m.entries.take(i as int));
                assert(m.entries.take(i as int + 1).last() == m.entries[i as int]);
            }
            if db.has_link_row(e.id, tag_id) {
                proof {
                    assert(pred(m.entries[i as int]));
                }
                matched.push(e.duplicate());
                proof {
                    assert(entries_view(matched@) =~= m.entries.take(i as int).filter(pred).push(
                        m.entries[i as int],
                    ));
                }
            } else {
                proof {
                    assert(!pred(m.entries[i as int]));
                }
            }
            i += 1;
        }
        proof {
            assert(m.entries.take(m.entries.len() as int) =~= m.entries);
        }
        let ghost filtered = entries_with_tag(m, tag_id as int);
        let sorted = sort_entries_recent_first(matched);
        let ghost full = entries_with_tag_ordered(m, tag_id as int);
        proof {
            crate::order::lemma_entry_le_total_ordering();
            filtered.lemma_sort_by_ensures(entry_le());
        }
        let slen = sorted.len();
        let off = offset as usize;
        let lim = limit as usize;
        let mut r: Vec<Entry> = Vec::new();
        let mut k: usize = 0;
        while k < lim && off < slen && k < slen - off
            invariant
                slen == full.len(),
                entries_view(sorted@) == full,
                off == offset as usize,
                lim == limit as usize,
                k <= lim,
                off < slen ==> k <= slen - off,
                off >= slen ==> k == 0,
                r@.len() == k,
                forall|t: int| 0 <= t < k ==> (#[trigger] r@[t])@ == full[off + t],
            decreases lim - k,
        {
            r.push(sorted[off + k].duplicate());
            k += 1;
        }
        proof {
            assert(entries_view(r@) =~= page_of(full, limit as int, offset as int));
            // every returned row is linked to the tag
            assert forall|t: int|
                0 <= t < r@.len() implies has_link(db@, (#[trigger] r@[t])@.id, tag_id as int) by {
                let x = r@[t]@;
                assert(full[off + t] == x);
                assert(full.contains(x));
                lemma_member_of_filtered(m, tag_id as int, x);
            }
            // no entry appears twice on one page
            assert(entries_view(matched@) =~= filtered);
            lemma_strict_ids_no_duplicates(entries_view(matched@));
            entries_view(matched@).lemma_multiset_has_no_duplicates();
            full.lemma_multiset_has_no_duplicates_conv();
            assert forall|p: int, q: int|
                0 <= p < q < r@.len() implies r@[p]@.id != r@[q]@.id by {
                let x = r@[p]@;
                let y = r@[q]@;
                if x.id == y.id {
                    assert(full[off + p] == x);
                    assert(full[off + q] == y);
                    assert(full.contains(x));
                    assert(full.contains(y));
                    lemma_member_is_row(m, tag_id as int, x);
                    lemma_member_is_row(m, tag_id as int, y);
                    assert(x == y);
                    assert(full[off + p] == full[off + q]);
                }
            }
            // the page of a sorted listing is sorted
            assert forall|p: int, q: int|
                0 <= p < q < r@.len() implies entry_le()(
                entries_view(r@)[p],
                entries_view(r@)[q],
            ) by {
                assert(r@[p]@ == full[off + p]);
                assert(r@[q]@ == full[off + q]);
                assert(sorted_by(full, entry_le()));
            }
        }
        r
    }

    /// The number of entries linked to a tag.
    pub fn count_entries_by_tag(&self, db: &DiaryDb, tag_id: i32) -> (r: i64)
        requires
            db.wf(),
        ensures
            r as int == entries_with_tag(db@, tag_id as int).len(),
    {
        let ghost m = db@;
        let ghost pred = by_tag_pred(m, tag_id as int);
        let mut count: usize = 0;
        let mut i: usize = 0;
        proof {
            assert(m.entries.take(0) =~= Seq::<EntryModel>::empty());
            reveal(Seq::filter);
        }
        while i < db.entries.len()
            invariant
                db.wf(),
                m == db@,
                pred == by_tag_pred(m, tag_id as int),
                i <= db@.entries.len(),
                count == m.entries.take(i as int).filter(pred).len(),
                count <= i,
            decreases db@.entries.len() - i,
        {
            let e = &db.entries[i];
            proof {
                reveal(Seq::filter);
                assert(m.entries.take(i as int + 1).drop_last() =~= m.entries.take(i as int));
                assert(m.entries.take(i as int + 1).last() == m.entries[i as int]);
            }
            if db.has_link_row(e.id, tag_id) {
                proof {
                    assert(pred(m.entries[i as int]));
                }
                count += 1;
            } else {
                proof {
                    assert(!pred(m.entries[i as int]));
                }
            }
            i += 1;
        }
        proof {
            assert(m.entries.take(m.entries.len() as int) =~= m.entries);
        }
        count as i64
    }
}

/// Every member of the tag-filtered listing is linked to the tag.
proof fn lemma_member_of_filtered(m: DbModel, tag_id: int, x: EntryModel)
    requires
        entries_with_tag_ordered(m, tag_id).contains(x),
    ensures
        has_link(m, x.id, tag_id),
{
    broadcast use vstd::seq_lib::group_to_multiset_ensures;

    let filtered = entries_with_tag(m, tag_id);
    crate::order::lemma_entry_le_total_ordering();
    filtered.lemma_sort_by_ensures(entry_le());
    assert(filtered.to_multiset().count(x) > 0);
    assert(filtered.contains(x));
    let fi = choose|fi: int| 0 <= fi < filtered.len() && filtered[fi] == x;
    m.entries.lemma_filter_pred(by_tag_pred(m, tag_id), fi);
}

/// In a well-formed store, a member of the tag-filtered listing is the
/// entry row its id points at.
proof fn lemma_member_is_row(m: DbModel, tag_id: int, x: EntryModel)
    requires
        crate::store::db_wf(m),
        entries_with_tag_ordered(m, tag_id).contains(x),
    ensures
        1 <= x.id <= m.entries.len(),
        x == m.entries[x.id - 1],
{
    broadcast use vstd::seq_lib::group_to_multiset_ensures;

    let filtered = entries_with_tag(m, tag_id);
    crate::order::lemma_entry_le_total_ordering();
    filtered.lemma_sort_by_ensures(entry_le());
    assert(filtered.to_multiset().count(x) > 0);
    assert(filtered.contains(x));
    let fi = choose|fi: int| 0 <= fi < filtered.len() && filtered[fi] == x;
    lemma_filter_members_are_members(m.entries, by_tag_pred(m, tag_id), x);
    let ei = choose|ei: int| 0 <= ei < m.entries.len() && m.entries[ei] == x;
    assert(m.entries[ei].id == ei + 1);
}

/// Members of a filtered sequence are members of the sequence.
proof fn lemma_filter_members_are_members<A>(s: Seq<A>, pred: spec_fn(A) -> bool, x: A)
    requires
        s.filter(pred).contains(x),
    ensures
        s.contains(x),
    decreases s.len(),
{
    reveal(Seq::filter);
    if s.len() > 0 {
        if s.last() == x && pred(s.last()) {
            assert(s[s.len() - 1] == x);
        } else {
            lemma_filter_members_are_members(s.drop_last(), pred, x);
            let i = choose|i: int| 0 <= i < s.drop_last().len() && s.drop_last()[i] == x;
            assert(s[i] == x);
        }
    }
}

/// A sequence of entries with strictly increasing ids has no duplicates.
proof fn lemma_strict_ids_no_duplicates(s: Seq<EntryModel>)
    requires
        forall|p: int, q: int| 0 <= p < q < s.len() ==> s[p].id < s[q].id,
    ensures
        s.no_duplicates(),
{
}

} // verus!
