//! The note record and the options of a listing.

use vstd::prelude::*;

verus! {

/// One note as stored on disk.
#[derive(Debug, PartialEq, Eq)]
pub struct Note {
    pub id: u64,
    pub text: String,
    pub created_at: String,
    /// Empty until the note is first changed.
    pub updated_at: String,
    pub tags: Vec<String>,
}

/// A note as a mathematical value: the characters of each text field.
pub struct NoteView {
    pub id: u64,
    pub text: Seq<char>,
    pub created_at: Seq<char>,
    pub updated_at: Seq<char>,
    pub tags: Seq<Seq<char>>,
}

impl View for Note {
    type V = NoteView;

    open spec fn view(&self) -> NoteView {
        NoteView {
            id: self.id,
            text: self.text@,
            created_at: self.created_at@,
            updated_at: self.updated_at@,
            tags: self.tags.deep_view(),
        }
    }
}

impl DeepView for Note {
    type V = NoteView;

    open spec fn deep_view(&self) -> NoteView {
        self@
    }
}

/// A copy of a list of strings.
pub fn clone_strings(v: &Vec<String>) -> (r: Vec<String>)
    ensures
        r.deep_view() == v.deep_view(),
{
    let mut r: Vec<String> = Vec::new();
    let mut i: usize = 0;
    while i < v.len()
        invariant
            i <= v@.len(),
            r@.len() == i,
            forall|k: int| 0 <= k < i ==> #[trigger] r@[k]@ == v@[k]@,
        decreases v.len() - i,
    {
        r.push(v[i].clone());
        i = i + 1;
    }
    assert(r.deep_view() =~= v.deep_view());
    r
}

impl Clone for Note {
    fn clone(&self) -> (r: Self)
        ensures
            r@ == self@,
    {
        Note {
            id: self.id,
            text: self.text.clone(),
            created_at: self.created_at.clone(),
            updated_at: self.updated_at.clone(),
            tags: clone_strings(&self.tags),
        }
    }
}

/// How `list_notes` filters, orders and limits the notes.
#[derive(Debug)]
pub struct ListOptions {
    /// Only notes carrying this tag (case-insensitive); empty means all notes.
    pub tag: String,
    /// `""` or `"id"`, `"date"` or `"updated"`.
    pub sort: String,
    /// At most this many notes; 0 means no limit.
    pub limit: usize,
    /// Show whole texts (used by the listing's presentation only).
    pub full: bool,
}

impl Default for ListOptions {
    fn default() -> (r: Self)
        ensures
            r.tag@.len() == 0,
            r.sort@.len() == 0,
            r.limit == 0,
            !r.full,
    {
        ListOptions { tag: String::new(), sort: String::new(), limit: 0, full: false }
    }
}

impl Clone for ListOptions {
    fn clone(&self) -> (r: Self)
        ensures
            r.tag@ == self.tag@,
            r.sort@ == self.sort@,
            r.limit == self.limit,
            r.full == self.full,
    {
        ListOptions {
            tag: self.tag.clone(),
            sort: self.sort.clone(),
            limit: self.limit,
            full: self.full,
        }
    }
}

} // verus!
