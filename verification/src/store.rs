use vstd::prelude::*;
use crate::tags::TagRow;

verus! {

/// One indexed note: identifier, vault-relative path (unique key), title,
/// content hash and modification time for change detection, and the aliases
/// its frontmatter declares.
#[derive(Debug)]
pub struct StoreNote {
    pub id: i64,
    pub path: String,
    pub title: String,
    pub hash: u64,
    pub mtime: u64,
    pub aliases: Vec<String>,
}

#[derive(PartialEq, Eq, Structural, Clone, Copy, Debug)]
pub enum LinkKind {
    Wiki,
    Markdown,
}

/// A directed edge from a source note to a target. The destination is null
/// until resolution succeeds; the raw destination text is kept either way. A
/// link is broken exactly when its destination is null after resolution.
#[derive(Debug)]
pub struct Link {
    pub source: i64,
    pub dest: Option<i64>,
    pub dest_text: String,
    pub kind: LinkKind,
    pub embed: bool,
    pub alias: Option<String>,
    pub heading: Option<String>,
    pub block: Option<String>,
}

/// One search chunk of a note's text.
#[derive(Debug)]
pub struct ChunkRow {
    pub note_id: i64,
    pub idx: usize,
    pub text: String,
}

/// The relational store: notes, links, tags and chunks. The indexer is its
/// only writer; queries never mutate it.
pub struct Store {
    pub notes: Vec<StoreNote>,
    pub links: Vec<Link>,
    pub tags: Vec<TagRow>,
    pub chunks: Vec<ChunkRow>,
    pub next_id: i64,
}

pub open spec fn note_ids_unique(notes: Seq<StoreNote>) -> bool {
    forall|i: int, j: int|
        0 <= i < j < notes.len() ==> notes[i].id != notes[j].id && notes[i].path@
            != notes[j].path@
}

pub open spec fn has_note_id(notes: Seq<StoreNote>, id: i64) -> bool {
    exists|i: int| 0 <= i < notes.len() && (#[trigger] notes[i]).id == id
}

/// Store invariant: unique note keys, fresh next identifier, every owned row
/// points at a stored note, and every resolved link destination exists.
pub open spec fn wf_store(s: Store) -> bool {
    &&& note_ids_unique(s.notes@)
    &&& forall|i: int| 0 <= i < s.notes@.len() ==> (#[trigger] s.notes@[i]).id < s.next_id
    &&& forall|k: int| 0 <= k < s.links@.len() ==> has_note_id(s.notes@, (#[trigger] s.links@[k]).source)
    &&& forall|k: int|
        0 <= k < s.links@.len() && (#[trigger] s.links@[k]).dest is Some ==> has_note_id(
            s.notes@,
            s.links@[k].dest->0,
        )
    &&& forall|k: int| 0 <= k < s.tags@.len() ==> has_note_id(s.notes@, (#[trigger] s.tags@[k]).note_id)
    &&& forall|k: int|
        0 <= k < s.chunks@.len() ==> has_note_id(s.notes@, (#[trigger] s.chunks@[k]).note_id)
}

impl Store {
    /// A fresh, empty store.
    pub fn new() -> (s: Store)
        ensures
            wf_store(s),
            s.notes@.len() == 0,
            s.links@.len() == 0,
            s.tags@.len() == 0,
            s.chunks@.len() == 0,
            s.next_id == 1,
    {
        Store {
            notes: Vec::new(),
            links: Vec::new(),
            tags: Vec::new(),
            chunks: Vec::new(),
            next_id: 1,
        }
    }
}

} // verus!
