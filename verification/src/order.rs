//! The two listing orders: tags sort by name ascending, entries sort
//! most recent first (timestamp descending, id descending on ties).
//! Both orders are total, and both sorts are pinned to `Seq::sort_by`.

use vstd::prelude::*;
use vstd::relations::{sorted_by, total_ordering};
use vstd::seq_lib::{lemma_multiset_commutative, lemma_sorted_unique};
use crate::models::{entries_view, tags_view, Entry, EntryModel, Tag, TagModel};
use crate::text::{lemma_lex_le_antisym, lemma_lex_le_connected, lemma_lex_le_refl,
    lemma_lex_le_trans, lex_le, str_le};

verus! {

/// Tag order: by name ascending, then by id.
pub open spec fn tag_name_le(a: TagModel, b: TagModel) -> bool {
    if a.name == b.name {
        a.id <= b.id
    } else {
        lex_le(a.name, b.name)
    }
}

/// The tag order as a relation value, for `sort_by` and `sorted_by`.
pub open spec fn tag_le() -> spec_fn(TagModel, TagModel) -> bool {
    |a: TagModel, b: TagModel| tag_name_le(a, b)
}

/// Entry order: most recent first, newest id first on equal timestamps,
/// content as the final tiebreaker so that the order is total.
pub open spec fn entry_recent_le(a: EntryModel, b: EntryModel) -> bool {
    if a.created_at != b.created_at {
        a.created_at > b.created_at
    } else if a.id != b.id {
        a.id > b.id
    } else {
        lex_le(a.content, b.content)
    }
}

/// The entry order as a relation value.
pub open spec fn entry_le() -> spec_fn(EntryModel, EntryModel) -> bool {
    |a: EntryModel, b: EntryModel| entry_recent_le(a, b)
}

pub proof fn lemma_tag_le_total_ordering()
    ensures
        total_ordering(tag_le()),
{
    let r = tag_le();
    assert forall|x: TagModel| #[trigger] r(x, x) by {
        lemma_lex_le_refl(x.name);
    }
    assert forall|x: TagModel, y: TagModel| #[trigger] r(x, y) && #[trigger] r(y, x)
        implies x == y by {
        if x.name != y.name {
            lemma_lex_le_antisym(x.name, y.name);
        }
    }
    assert forall|x: TagModel, y: TagModel, z: TagModel|
        #[trigger] r(x, y) && #[trigger] r(y, z) implies r(x, z) by {
        if x.name != y.name && y.name != z.name {
            lemma_lex_le_trans(x.name, y.name, z.name);
            if x.name == z.name {
                lemma_lex_le_antisym(x.name, y.name);
            }
        }
    }
    assert forall|x: TagModel, y: TagModel| #[trigger] r(x, y) || #[trigger] r(y, x) by {
        if x.name != y.name {
            lemma_lex_le_connected(x.name, y.name);
        }
    }
}

pub proof fn lemma_entry_le_total_ordering()
    ensures
        total_ordering(entry_le()),
{
    let r = entry_le();
    assert forall|x: EntryModel| #[trigger] r(x, x) by {
        lemma_lex_le_refl(x.content);
    }
    assert forall|x: EntryModel, y: EntryModel| #[trigger] r(x, y) && #[trigger] r(y, x)
        implies x == y by {
        if x.created_at == y.created_at && x.id == y.id {
            lemma_lex_le_antisym(x.content, y.content);
        }
    }
    assert forall|x: EntryModel, y: EntryModel, z: EntryModel|
        #[trigger] r(x, y) && #[trigger] r(y, z) implies r(x, z) by {
        if x.created_at == y.created_at && y.created_at == z.created_at && x.id == y.id
            && y.id == z.id {
            lemma_lex_le_trans(x.content, y.content, z.content);
        }
    }
    assert forall|x: EntryModel, y: EntryModel| #[trigger] r(x, y) || #[trigger] r(y, x) by {
        if x.created_at == y.created_at && x.id == y.id {
            lemma_lex_le_connected(x.content, y.content);
        }
    }
}

/// Decides the tag order on two tags.
pub fn tag_before(a: &Tag, b: &Tag) -> (r: bool)
    ensures
        r == tag_name_le(a@, b@),
{
    if a.name == b.name {
        a.id <= b.id
    } else {
        str_le(a.name.as_str(), b.name.as_str())
    }
}

/// Decides the entry order on two entries.
pub fn entry_before(a: &Entry, b: &Entry) -> (r: bool)
    ensures
        r == entry_recent_le(a@, b@),
{
    if a.created_at != b.created_at {
        a.created_at > b.created_at
    } else if a.id != b.id {
        a.id > b.id
    } else {
        str_le(a.content.as_str(), b.content.as_str())
    }
}

/// Inserting an element anywhere adds exactly it to the multiset.
proof fn lemma_insert_multiset<A>(s: Seq<A>, j: int, e: A)
    requires
        0 <= j <= s.len(),
    ensures
        s.insert(j, e).to_multiset() =~= s.to_multiset().insert(e),
{
    broadcast use vstd::seq_lib::group_to_multiset_ensures;
    broadcast use vstd::multiset::group_multiset_axioms;

    let t = s.insert(j, e);
    assert(t =~= s.take(j).push(e) + s.skip(j));
    lemma_multiset_commutative(s.take(j).push(e), s.skip(j));
    lemma_multiset_commutative(s.take(j), s.skip(j));
    assert(s =~= s.take(j) + s.skip(j));
    assert(s.take(j).push(e).to_multiset() =~= s.take(j).to_multiset().insert(e));
    assert(t.to_multiset() =~= s.to_multiset().insert(e));
}

proof fn lemma_tags_view_insert(s: Seq<Tag>, j: int, e: Tag)
    requires
        0 <= j <= s.len(),
    ensures
        tags_view(s.insert(j, e)) =~= tags_view(s).insert(j, e@),
{
    s.insert_ensures(j, e);
    tags_view(s).insert_ensures(j, e@);
}

proof fn lemma_entries_view_insert(s: Seq<Entry>, j: int, e: Entry)
    requires
        0 <= j <= s.len(),
    ensures
        entries_view(s.insert(j, e)) =~= entries_view(s).insert(j, e@),
{
    s.insert_ensures(j, e);
    entries_view(s).insert_ensures(j, e@);
}

/// Sorts tags by name ascending (ids break ties among equal names).
pub fn sort_tags_by_name(v: Vec<Tag>) -> (r: Vec<Tag>)
    ensures
        tags_view(r@) == tags_view(v@).sort_by(tag_le()),
        sorted_by(tags_view(r@), tag_le()),
{
    proof {
        lemma_tag_le_total_ordering();
    }
    let mut out: Vec<Tag> = Vec::new();
    let mut i: usize = 0;
    proof {
        assert(tags_view(out@) =~= tags_view(v@.take(0)));
    }
    while i < v.len()
        invariant
            i <= v.len(),
            total_ordering(tag_le()),
            sorted_by(tags_view(out@), tag_le()),
            tags_view(out@).to_multiset() == tags_view(v@.take(i as int)).to_multiset(),
        decreases v.len() - i,
    {
        broadcast use vstd::seq_lib::group_to_multiset_ensures;

        let e = v[i].duplicate();
        let mut j: usize = 0;
        while j < out.len() && tag_before(&out[j], &e)
            invariant
                j <= out.len(),
                forall|k: int| 0 <= k < j ==> #[trigger] tag_name_le(tags_view(out@)[k], e@),
            decreases out.len() - j,
        {
            assert(tags_view(out@)[j as int] == out@[j as int]@);
            j += 1;
        }
        proof {
            let ov = tags_view(out@);
            let le = tag_le();
            if j < out.len() {
                assert(!le(ov[j as int], e@));
                assert(le(e@, ov[j as int]));
            }
            lemma_tags_view_insert(out@, j as int, e);
            ov.insert_ensures(j as int, e@);
            let nv = ov.insert(j as int, e@);
            assert forall|p: int, q: int| 0 <= p < q < nv.len() implies #[trigger] le(
                nv[p],
                nv[q],
            ) by {
                if q < j {
                    assert(le(ov[p], ov[q]));
                } else if p < j && q == j {
                    assert(le(ov[p], e@));
                } else if p < j && q > j {
                    assert(le(ov[p], ov[q - 1]));
                } else if p == j {
                    assert(le(e@, ov[j as int]));
                    if q > j + 1 {
                        assert(le(ov[j as int], ov[q - 1]));
                    }
                } else {
                    assert(le(ov[p - 1], ov[q - 1]));
                }
            }
            lemma_insert_multiset(ov, j as int, e@);
            assert(tags_view(v@.take(i as int + 1)) =~= tags_view(v@.take(i as int)).push(
                v@[i as int]@,
            ));
        }
        out.insert(j, e);
        i += 1;
    }
    proof {
        assert(v@.take(v@.len() as int) =~= v@);
        let inp = tags_view(v@);
        inp.lemma_sort_by_ensures(tag_le());
        lemma_sorted_unique(tags_view(out@), inp.sort_by(tag_le()), tag_le());
    }
    out
}

/// Sorts entries most recent first.
pub fn sort_entries_recent_first(v: Vec<Entry>) -> (r: Vec<Entry>)
    ensures
        entries_view(r@) == entries_view(v@).sort_by(entry_le()),
        sorted_by(entries_view(r@), entry_le()),
{
    proof {
        lemma_entry_le_total_ordering();
    }
    let mut out: Vec<Entry> = Vec::new();
    let mut i: usize = 0;
    proof {
        assert(entries_view(out@) =~= entries_view(v@.take(0)));
    }
    while i < v.len()
        invariant
            i <= v.len(),
            total_ordering(entry_le()),
            sorted_by(entries_view(out@), entry_le()),
            entries_view(out@).to_multiset() == entries_view(v@.take(i as int)).to_multiset(),
        decreases v.len() - i,
    {
        broadcast use vstd::seq_lib::group_to_multiset_ensures;

        let e = v[i].duplicate();
        let mut j: usize = 0;
        while j < out.len() && entry_before(&out[j], &e)
            invariant
                j <= out.len(),
                forall|k: int| 0 <= k < j ==> #[trigger] entry_recent_le(
                    entries_view(out@)[k],
                    e@,
                ),
            decreases out.len() - j,
        {
            assert(entries_view(out@)[j as int] == out@[j as int]@);
            j += 1;
        }
        proof {
            let ov = entries_view(out@);
            let le = entry_le();
            if j < out.len() {
                assert(!le(ov[j as int], e@));
                assert(le(e@, ov[j as int]));
            }
            lemma_entries_view_insert(out@, j as int, e);
            ov.insert_ensures(j as int, e@);
            let nv = ov.insert(j as int, e@);
            assert forall|p: int, q: int| 0 <= p < q < nv.len() implies #[trigger] le(
                nv[p],
                nv[q],
            ) by {
                if q < j {
                    assert(le(ov[p], ov[q]));
                } else if p < j && q == j {
                    assert(le(ov[p], e@));
                } else if p < j && q > j {
                    assert(le(ov[p], ov[q - 1]));
                } else if p == j {
                    assert(le(e@, ov[j as int]));
                    if q > j + 1 {
                        assert(le(ov[j as int], ov[q - 1]));
                    }
                } else {
                    assert(le(ov[p - 1], ov[q - 1]));
                }
            }
            lemma_insert_multiset(ov, j as int, e@);
            assert(entries_view(v@.take(i as int + 1)) =~= entries_view(v@.take(i as int)).push(
                v@[i as int]@,
            ));
        }
        out.insert(j, e);
        i += 1;
    }
    proof {
        assert(v@.take(v@.len() as int) =~= v@);
        let inp = entries_view(v@);
        inp.lemma_sort_by_ensures(entry_le());
        lemma_sorted_unique(entries_view(out@), inp.sort_by(entry_le()), entry_le());
    }
    out
}

} // verus!
