//! Data model: diary entries, tags, and the many-to-many association
//! between them, together with the request and response shapes of the
//! service layer. Each executable type has a ghost model as its view,
//! and every contract in the crate speaks over those models.

use vstd::prelude::*;

verus! {

/// Ghost model of a diary entry: the id, the text, and the creation
/// time as an integer timestamp.
pub ghost struct EntryModel {
    pub id: int,
    pub content: Seq<char>,
    pub created_at: int,
}

/// Ghost model of a tag.
pub ghost struct TagModel {
    pub id: int,
    pub name: Seq<char>,
}

/// A diary entry. `created_at` is a timestamp in microseconds.
pub struct Entry {
    pub id: i32,
    pub content: String,
    pub created_at: i64,
}

impl View for Entry {
    type V = EntryModel;

    open spec fn view(&self) -> EntryModel {
        EntryModel { id: self.id as int, content: self.content@, created_at: self.created_at as int }
    }
}

impl Entry {
    /// A field-for-field copy, needed because cloning the content
    /// must be known to keep the text.
    pub fn duplicate(&self) -> (r: Entry)
        ensures
            r@ == self@,
    {
        Entry { id: self.id, content: self.content.clone(), created_at: self.created_at }
    }
}

/// A tag: a unique, non-empty name with a generated id.
pub struct Tag {
    pub id: i32,
    pub name: String,
}

impl View for Tag {
    type V = TagModel;

    open spec fn view(&self) -> TagModel {
        TagModel { id: self.id as int, name: self.name@ }
    }
}

impl Tag {
    /// A field-for-field copy with the name known to be kept.
    pub fn duplicate(&self) -> (r: Tag)
        ensures
            r@ == self@,
    {
        Tag { id: self.id, name: self.name.clone() }
    }
}

/// One row of the entry-tag association. Each pair occurs at most once.
#[derive(Clone, Copy, PartialEq, Eq, Structural)]
pub struct EntryTag {
    pub entry_id: i32,
    pub tag_id: i32,
}

impl View for EntryTag {
    type V = (int, int);

    open spec fn view(&self) -> (int, int) {
        (self.entry_id as int, self.tag_id as int)
    }
}

/// Request body for creating a tagless entry.
pub struct CreateEntryRequest {
    pub content: String,
}

/// Request body for creating a tag by name.
pub struct CreateTagRequest {
    pub name: String,
}

/// Response shape for a single tag.
pub struct TagResponse {
    pub id: i32,
    pub name: String,
}

/// Response shape for the tag listing.
pub struct TagsResponse {
    pub tags: Vec<Tag>,
}

/// Request body for creating an entry together with tag names.
pub struct EntryWithTags {
    pub content: String,
    pub tags: Vec<String>,
}

/// Response shape for a page of plain entries.
pub struct EntriesResponse {
    pub entries: Vec<Entry>,
    pub total_pages: u32,
    pub current_page: u32,
}

/// Ghost model of an entry bundled with its tags.
pub ghost struct EntryWithTagsModel {
    pub id: int,
    pub content: Seq<char>,
    pub created_at: int,
    pub tags: Seq<TagModel>,
}

/// One entry of a listing page, bundled with its tags sorted by name.
pub struct EntryWithTagsResponse {
    pub id: i32,
    pub content: String,
    pub created_at: i64,
    pub tags: Vec<Tag>,
}

impl View for EntryWithTagsResponse {
    type V = EntryWithTagsModel;

    open spec fn view(&self) -> EntryWithTagsModel {
        EntryWithTagsModel {
            id: self.id as int,
            content: self.content@,
            created_at: self.created_at as int,
            tags: Seq::new(self.tags@.len(), |i: int| self.tags@[i]@),
        }
    }
}

/// Response shape for a page of entries with their tags.
pub struct EntriesWithTagsResponse {
    pub entries: Vec<EntryWithTagsResponse>,
    pub total_pages: u32,
    pub current_page: u32,
}

/// The view of a sequence of entries, element for element.
pub open spec fn entries_view(v: Seq<Entry>) -> Seq<EntryModel> {
    Seq::new(v.len(), |i: int| v[i]@)
}

/// The view of a sequence of tags, element for element.
pub open spec fn tags_view(v: Seq<Tag>) -> Seq<TagModel> {
    Seq::new(v.len(), |i: int| v[i]@)
}

/// The view of a sequence of association rows, element for element.
pub open spec fn links_view(v: Seq<EntryTag>) -> Seq<(int, int)> {
    Seq::new(v.len(), |i: int| v[i]@)
}

/// The views of a sequence of tag names, element for element.
pub open spec fn names_view(v: Seq<String>) -> Seq<Seq<char>> {
    Seq::new(v.len(), |i: int| v[i]@)
}

} // verus!
