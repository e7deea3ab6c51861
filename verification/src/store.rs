//! The diary store: entries, tags, and entry-tag links, held in memory
//! with the same shape and invariants as the backing relational schema
//! (sequential generated ids, unique non-empty tag names, unique link
//! pairs, referential integrity). All write paths are specified by the
//! pure operations on `DbModel` defined here.

use vstd::prelude::*;
use crate::models::{entries_view, links_view, tags_view, Entry, EntryModel, EntryTag, Tag,
    TagModel};
use crate::text::trim_of;

verus! {

/// Ghost model of the whole store.
#[verifier::ext_equal]
pub ghost struct DbModel {
    pub entries: Seq<EntryModel>,
    pub tags: Seq<TagModel>,
    pub links: Seq<(int, int)>,
}

/// The store with no rows.
pub open spec fn empty_db() -> DbModel {
    DbModel { entries: Seq::empty(), tags: Seq::empty(), links: Seq::empty() }
}

/// Well-formedness: ids are generated sequentially from 1 (no row is
/// ever deleted), tag names are unique and non-empty, each link pair
/// occurs at most once, and links refer to existing rows.
pub open spec fn db_wf(m: DbModel) -> bool {
    &&& m.entries.len() <= i32::MAX
    &&& forall|i: int| 0 <= i < m.entries.len() ==> (#[trigger] m.entries[i]).id == i + 1
    &&& m.tags.len() <= i32::MAX
    &&& forall|i: int| 0 <= i < m.tags.len() ==> (#[trigger] m.tags[i]).id == i + 1
    &&& forall|i: int| 0 <= i < m.tags.len() ==> (#[trigger] m.tags[i]).name.len() > 0
    &&& forall|i: int, j: int|
        0 <= i < j < m.tags.len() ==> (#[trigger] m.tags[i]).name != (#[trigger] m.tags[j]).name
    &&& forall|i: int| 0 <= i < m.links.len() ==> 1 <= (#[trigger] m.links[i]).0 <= m.entries.len()
    &&& forall|i: int| 0 <= i < m.links.len() ==> 1 <= (#[trigger] m.links[i]).1 <= m.tags.len()
    &&& forall|i: int, j: int|
        0 <= i < j < m.links.len() ==> (#[trigger] m.links[i]) != (#[trigger] m.links[j])
}

/// Whether some tag row carries exactly this name.
pub open spec fn has_tag_named(m: DbModel, name: Seq<char>) -> bool {
    exists|i: int| 0 <= i < m.tags.len() && (#[trigger] m.tags[i]).name == name
}

/// The index of a tag row with this name.
pub open spec fn tag_index_of(m: DbModel, name: Seq<char>) -> int {
    choose|i: int| 0 <= i < m.tags.len() && (#[trigger] m.tags[i]).name == name
}

/// The id of the tag with this name.
pub open spec fn tag_id_of(m: DbModel, name: Seq<char>) -> int {
    m.tags[tag_index_of(m, name)].id
}

/// Whether the entry and the tag are linked.
pub open spec fn has_link(m: DbModel, entry_id: int, tag_id: int) -> bool {
    m.links.contains((entry_id, tag_id))
}

/// Appends an entry row with the next generated id.
pub open spec fn spec_insert_entry(m: DbModel, content: Seq<char>, created_at: int) -> DbModel {
    DbModel {
        entries: m.entries.push(
            EntryModel { id: m.entries.len() as int + 1, content, created_at },
        ),
        tags: m.tags,
        links: m.links,
    }
}

/// Returns the id of the tag with this name, creating the row first if
/// no tag carries the name.
pub open spec fn spec_find_or_create(m: DbModel, name: Seq<char>) -> (DbModel, int) {
    if has_tag_named(m, name) {
        (m, tag_id_of(m, name))
    } else {
        (
            DbModel {
                entries: m.entries,
                tags: m.tags.push(TagModel { id: m.tags.len() as int + 1, name }),
                links: m.links,
            },
            m.tags.len() as int + 1,
        )
    }
}

/// Links the entry and the tag; linking an already linked pair changes
/// nothing, so one request cannot produce duplicate association rows.
pub open spec fn spec_associate(m: DbModel, entry_id: int, tag_id: int) -> DbModel {
    if has_link(m, entry_id, tag_id) {
        m
    } else {
        DbModel { entries: m.entries, tags: m.tags, links: m.links.push((entry_id, tag_id)) }
    }
}

/// Resolves and links the first `n` tag names for the entry, skipping
/// names that are blank after trimming.
pub open spec fn spec_attach(m: DbModel, entry_id: int, names: Seq<Seq<char>>, n: int) -> DbModel
    decreases n,
{
    if n <= 0 {
        m
    } else {
        let prev = spec_attach(m, entry_id, names, n - 1);
        let t = trim_of(names[n - 1]);
        if t.len() == 0 {
            prev
        } else {
            let fc = spec_find_or_create(prev, t);
            spec_associate(fc.0, entry_id, fc.1)
        }
    }
}

/// The full write path of entry creation with tags: insert the entry,
/// then resolve and link every non-blank tag name.
pub open spec fn spec_create_with_tags(
    m: DbModel,
    content: Seq<char>,
    names: Seq<Seq<char>>,
    created_at: int,
) -> (DbModel, int) {
    let eid = m.entries.len() as int + 1;
    (spec_attach(spec_insert_entry(m, content, created_at), eid, names, names.len() as int), eid)
}

/// How many of the first `n` names survive the blank filter.
pub open spec fn nonblank_count(names: Seq<Seq<char>>, n: int) -> int
    decreases n,
{
    if n <= 0 {
        0
    } else {
        nonblank_count(names, n - 1) + if trim_of(names[n - 1]).len() == 0 {
            0int
        } else {
            1int
        }
    }
}

/// Statements a creation request issues against the store: the entry
/// insert, two per non-blank tag name (resolve, link), and the commit.
pub open spec fn create_steps(names: Seq<Seq<char>>) -> int {
    2 + 2 * nonblank_count(names, names.len() as int)
}

/// Whether an injected storage fault strikes one of those statements.
pub open spec fn fault_hits(fail_step: Option<u64>, names: Seq<Seq<char>>) -> bool {
    match fail_step {
        Some(k) => (k as int) < create_steps(names),
        None => false,
    }
}

pub proof fn lemma_nonblank_count_bounds(names: Seq<Seq<char>>, n: int)
    ensures
        0 <= nonblank_count(names, n) <= if n <= 0 {
            0int
        } else {
            n
        },
    decreases n,
{
    if n > 0 {
        lemma_nonblank_count_bounds(names, n - 1);
    }
}

pub proof fn lemma_nonblank_count_monotone(names: Seq<Seq<char>>, a: int, b: int)
    requires
        a <= b,
    ensures
        nonblank_count(names, a) <= nonblank_count(names, b),
    decreases b - a,
{
    if a < b {
        lemma_nonblank_count_monotone(names, a, b - 1);
    }
}

/// With unique tag names, every row carrying the name has its id.
pub proof fn lemma_tag_id_unique(m: DbModel, name: Seq<char>, i: int)
    requires
        db_wf(m),
        0 <= i < m.tags.len(),
        m.tags[i].name == name,
    ensures
        has_tag_named(m, name),
        tag_id_of(m, name) == m.tags[i].id,
        tag_index_of(m, name) == i,
{
    assert(has_tag_named(m, name));
    let j = tag_index_of(m, name);
    assert(0 <= j < m.tags.len() && m.tags[j].name == name);
    if i < j {
        assert(m.tags[i].name != m.tags[j].name);
    } else if j < i {
        assert(m.tags[j].name != m.tags[i].name);
    }
}

/// What find-or-create guarantees: the invariants hold afterwards, the
/// returned id names a tag row carrying exactly the requested name,
/// entries and links are untouched, and existing tag rows are kept.
pub proof fn lemma_find_or_create(m: DbModel, name: Seq<char>)
    requires
        db_wf(m),
        name.len() > 0,
        m.tags.len() < i32::MAX,
    ensures
        ({
            let (m2, tid) = spec_find_or_create(m, name);
            &&& db_wf(m2)
            &&& m2.entries == m.entries
            &&& m2.links == m.links
            &&& 1 <= tid <= m2.tags.len()
            &&& m2.tags[tid - 1].name == name
            &&& m2.tags[tid - 1].id == tid
            &&& has_tag_named(m2, name)
            &&& tag_id_of(m2, name) == tid
            &&& m.tags.len() <= m2.tags.len() <= m.tags.len() + 1
            &&& forall|i: int| 0 <= i < m.tags.len() ==> m2.tags[i] == m.tags[i]
            &&& (has_tag_named(m, name) <==> m2.tags.len() == m.tags.len())
        }),
{
    let (m2, tid) = spec_find_or_create(m, name);
    if has_tag_named(m, name) {
        let i = tag_index_of(m, name);
        assert(0 <= i < m.tags.len() && m.tags[i].name == name);
        assert(m.tags[i].id == i + 1);
        lemma_tag_id_unique(m, name, i);
    } else {
        let n = m.tags.len() as int;
        assert(forall|i: int|
            0 <= i < n ==> (#[trigger] m.tags[i]).name != name);
        assert(m2.tags[n].name == name);
        lemma_tag_id_unique(m2, name, n);
    }
}

/// Finding or creating a tag is idempotent: resolving the same name a
/// second time returns the same tag id and leaves the store unchanged;
/// in particular it never creates a duplicate tag row.
pub proof fn lemma_find_or_create_idempotent(m: DbModel, name: Seq<char>)
    ensures
        ({
            let first = spec_find_or_create(m, name);
            let second = spec_find_or_create(first.0, name);
            &&& second.0 == first.0
            &&& second.1 == first.1
        }),
{
    let first = spec_find_or_create(m, name);
    if has_tag_named(m, name) {
    } else {
        let n = m.tags.len() as int;
        assert(first.0.tags[n].name == name);
        assert(has_tag_named(first.0, name));
        let j = tag_index_of(first.0, name);
        assert(0 <= j < first.0.tags.len() && first.0.tags[j].name == name);
        if j < n {
            assert(m.tags[j].name == name);
            assert(has_tag_named(m, name));
        }
        assert(j == n);
        assert(tag_id_of(first.0, name) == n + 1);
    }
}

/// What associate guarantees: invariants hold afterwards, the pair is
/// linked, nothing else changes.
pub proof fn lemma_associate(m: DbModel, entry_id: int, tag_id: int)
    requires
        db_wf(m),
        1 <= entry_id <= m.entries.len(),
        1 <= tag_id <= m.tags.len(),
    ensures
        ({
            let m2 = spec_associate(m, entry_id, tag_id);
            &&& db_wf(m2)
            &&& m2.entries == m.entries
            &&& m2.tags == m.tags
            &&& has_link(m2, entry_id, tag_id)
            &&& m.links.len() <= m2.links.len() <= m.links.len() + 1
            &&& forall|i: int| 0 <= i < m.links.len() ==> m2.links[i] == m.links[i]
            &&& forall|i: int|
                m.links.len() <= i < m2.links.len() ==> (#[trigger] m2.links[i]) == (
                entry_id,
                tag_id,
            )
        }),
{
    let m2 = spec_associate(m, entry_id, tag_id);
    if !has_link(m, entry_id, tag_id) {
        assert(m2.links.last() == (entry_id, tag_id));
        assert(m2.links.contains((entry_id, tag_id)));
        assert(forall|i: int|
            0 <= i < m.links.len() ==> (#[trigger] m.links[i]) != (entry_id, tag_id));
    }
}

/// What attaching the first `n` tag names guarantees: invariants hold,
/// entries are untouched, existing tags and links are kept, every link
/// added belongs to this entry, and every non-blank name among the
/// first `n` ends up as a tag row linked to the entry.
pub proof fn lemma_attach(m: DbModel, entry_id: int, names: Seq<Seq<char>>, n: int)
    requires
        db_wf(m),
        1 <= entry_id <= m.entries.len(),
        0 <= n <= names.len(),
        m.tags.len() + n <= i32::MAX,
    ensures
        ({
            let r = spec_attach(m, entry_id, names, n);
            &&& db_wf(r)
            &&& r.entries == m.entries
            &&& m.tags.len() <= r.tags.len() <= m.tags.len() + nonblank_count(names, n)
            &&& forall|i: int| 0 <= i < m.tags.len() ==> r.tags[i] == m.tags[i]
            &&& m.links.len() <= r.links.len()
            &&& forall|i: int| 0 <= i < m.links.len() ==> r.links[i] == m.links[i]
            &&& forall|i: int|
                m.links.len() <= i < r.links.len() ==> (#[trigger] r.links[i]).0 == entry_id
            &&& forall|j: int|
                0 <= j < n && trim_of(names[j]).len() > 0 ==> has_tag_named(
                    r,
                    #[trigger] trim_of(names[j]),
                ) && has_link(r, entry_id, tag_id_of(r, trim_of(names[j])))
        }),
    decreases n,
{
    lemma_nonblank_count_bounds(names, n);
    if n > 0 {
        lemma_nonblank_count_bounds(names, n - 1);
        lemma_attach(m, entry_id, names, n - 1);
        let prev = spec_attach(m, entry_id, names, n - 1);
        let t = trim_of(names[n - 1]);
        let r = spec_attach(m, entry_id, names, n);
        if t.len() == 0 {
        } else {
            lemma_find_or_create(prev, t);
            let fc = spec_find_or_create(prev, t);
            lemma_associate(fc.0, entry_id, fc.1);
            assert(r == spec_associate(fc.0, entry_id, fc.1));
            assert forall|j: int| 0 <= j < n && trim_of(names[j]).len() > 0 implies has_tag_named(
                r,
                #[trigger] trim_of(names[j]),
            ) && has_link(r, entry_id, tag_id_of(r, trim_of(names[j]))) by {
                let tj = trim_of(names[j]);
                if j == n - 1 {
                    lemma_tag_id_unique(r, tj, fc.1 - 1);
                    assert(has_link(r, entry_id, fc.1));
                } else {
                    // the earlier tag row and its link persist
                    let i0 = tag_index_of(prev, tj);
                    assert(0 <= i0 < prev.tags.len() && prev.tags[i0].name == tj);
                    assert(r.tags[i0] == prev.tags[i0]);
                    lemma_tag_id_unique(r, tj, i0);
                    assert(tag_id_of(r, tj) == tag_id_of(prev, tj));
                    let link = (entry_id, tag_id_of(prev, tj));
                    let li = choose|li: int|
                        0 <= li < prev.links.len() && prev.links[li] == link;
                    assert(prev.links.contains(link));
                    assert(0 <= li < prev.links.len() && prev.links[li] == link);
                    assert(r.links[li] == link);
                    assert(r.links.contains(link));
                }
            }
        }
    }
}

/// Inserting a batch of entries, for stating how the count moves.
pub open spec fn spec_insert_entries(m: DbModel, items: Seq<(Seq<char>, int)>) -> DbModel
    decreases items.len(),
{
    if items.len() == 0 {
        m
    } else {
        spec_insert_entry(
            spec_insert_entries(m, items.drop_last()),
            items.last().0,
            items.last().1,
        )
    }
}

/// The count after inserting a batch of entries is the prior count
/// plus the size of the batch; tags and links are untouched.
pub proof fn lemma_count_after_inserts(m: DbModel, items: Seq<(Seq<char>, int)>)
    ensures
        spec_insert_entries(m, items).entries.len() == m.entries.len() + items.len(),
        spec_insert_entries(m, items).tags == m.tags,
        spec_insert_entries(m, items).links == m.links,
    decreases items.len(),
{
    if items.len() > 0 {
        lemma_count_after_inserts(m, items.drop_last());
    }
}

/// The store held in memory.
pub struct DiaryDb {
    pub entries: Vec<Entry>,
    pub tags: Vec<Tag>,
    pub links: Vec<EntryTag>,
}

impl View for DiaryDb {
    type V = DbModel;

    open spec fn view(&self) -> DbModel {
        DbModel {
            entries: entries_view(self.entries@),
            tags: tags_view(self.tags@),
            links: links_view(self.links@),
        }
    }
}

impl DiaryDb {
    /// The store's invariant.
    pub open spec fn wf(&self) -> bool {
        db_wf(self@)
    }

    /// Whether the entry and the tag are linked in this store.
    pub fn has_link_row(&self, entry_id: i32, tag_id: i32) -> (r: bool)
        ensures
            r == has_link(self@, entry_id as int, tag_id as int),
    {
        let mut i: usize = 0;
        while i < self.links.len()
            invariant
                i <= self.links@.len(),
                forall|k: int| 0 <= k < i ==> links_view(self.links@)[k] != (
                    entry_id as int,
                    tag_id as int,
                ),
            decreases self.links@.len() - i,
        {
            let row = self.links[i];
            if row.entry_id == entry_id && row.tag_id == tag_id {
                proof {
                    assert(links_view(self.links@)[i as int] == (entry_id as int, tag_id as int));
                }
                return true;
            }
            proof {
                assert(links_view(self.links@)[i as int] == self.links@[i as int]@);
            }
            i += 1;
        }
        proof {
            if has_link(self@, entry_id as int, tag_id as int) {
                let k = choose|k: int|
                    0 <= k < self@.links.len() && self@.links[k] == (
                        entry_id as int,
                        tag_id as int,
                    );
                assert(links_view(self.links@)[k] == (entry_id as int, tag_id as int));
            }
        }
        false
    }

    /// An empty store.
    pub fn new() -> (db: DiaryDb)
        ensures
            db@ == empty_db(),
            db.wf(),
    {
        let db = DiaryDb { entries: Vec::new(), tags: Vec::new(), links: Vec::new() };
        proof {
            assert(db@ =~= empty_db());
        }
        db
    }
}

fn clone_entries(v: &Vec<Entry>) -> (r: Vec<Entry>)
    ensures
        entries_view(r@) == entries_view(v@),
{
    let mut r: Vec<Entry> = Vec::new();
    let mut i: usize = 0;
    while i < v.len()
        invariant
            i <= v.len(),
            r@.len() == i,
            forall|k: int| 0 <= k < i ==> (#[trigger] r@[k])@ == v@[k]@,
        decreases v.len() - i,
    {
        r.push(v[i].duplicate());
        i += 1;
    }
    proof {
        assert(entries_view(r@) =~= entries_view(v@));
    }
    r
}

fn clone_tags(v: &Vec<Tag>) -> (r: Vec<Tag>)
    ensures
        tags_view(r@) == tags_view(v@),
{
    let mut r: Vec<Tag> = Vec::new();
    let mut i: usize = 0;
    while i < v.len()
        invariant
            i <= v.len(),
            r@.len() == i,
            forall|k: int| 0 <= k < i ==> (#[trigger] r@[k])@ == v@[k]@,
        decreases v.len() - i,
    {
        r.push(v[i].duplicate());
        i += 1;
    }
    proof {
        assert(tags_view(r@) =~= tags_view(v@));
    }
    r
}

fn clone_links(v: &Vec<EntryTag>) -> (r: Vec<EntryTag>)
    ensures
        links_view(r@) == links_view(v@),
{
    let mut r: Vec<EntryTag> = Vec::new();
    let mut i: usize = 0;
    while i < v.len()
        invariant
            i <= v.len(),
            r@.len() == i,
            forall|k: int| 0 <= k < i ==> (#[trigger] r@[k])@ == v@[k]@,
        decreases v.len() - i,
    {
        r.push(v[i]);
        i += 1;
    }
    proof {
        assert(links_view(r@) =~= links_view(v@));
    }
    r
}

/// A transaction: a private working copy of the store. Statements run
/// against the copy; nothing is visible to readers of the store until
/// `commit`, and dropping the transaction without committing (or
/// calling `rollback`) discards every pending change.
pub struct DiaryTx {
    pub work: DiaryDb,
}

impl DiaryTx {
    /// Opens a transaction on the current state of the store.
    pub fn begin(db: &DiaryDb) -> (tx: DiaryTx)
        ensures
            tx.work@ == db@,
    {
        let work = DiaryDb {
            entries: clone_entries(&db.entries),
            tags: clone_tags(&db.tags),
            links: clone_links(&db.links),
        };
        proof {
            assert(work@ =~= db@);
        }
        DiaryTx { work }
    }

    /// Publishes the pending changes: afterwards the store holds
    /// exactly the transaction's state.
    pub fn commit(self, db: &mut DiaryDb)
        ensures
            final(db)@ == self.work@,
    {
        *db = self.work;
    }

    /// Discards the pending changes; the store is left as it was at
    /// `begin`, since only `commit` ever writes to it.
    pub fn rollback(self) {
    }
}

} // verus!
