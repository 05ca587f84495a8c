use vstd::prelude::*;
use crate::tags::{NoteRow, TagRow, TagResult, wf_notes, sorted_le, sorted_lt, results_sorted};

verus! {

#[verifier::external_type_specification]
#[verifier::external_body]
pub struct ExConnection(rusqlite::Connection);

#[verifier::external_type_specification]
#[verifier::external_body]
pub struct ExRusqliteError(rusqlite::Error);

/// A failure while reading the store.
#[derive(PartialEq, Eq, Structural, Clone, Copy, Debug)]
pub enum StoreError {
    /// The underlying store could not be queried.
    Access,
    /// The notes table breaks its own keys: a duplicate identifier or path.
    Corrupt,
}

/// Relies on rusqlite's Connection::prepare and Statement::query_map: reads
/// every (id, path, title) row of the notes table, in whatever order the
/// store returns them.
#[verifier::external_body]
fn fetch_note_rows(conn: &rusqlite::Connection) -> (r: Result<Vec<NoteRow>, rusqlite::Error>) {
    let mut stmt = conn.prepare("SELECT id, path, title FROM notes")?;
    let rows = stmt.query_map([], |row| {
        Ok(NoteRow { id: row.get(0)?, path: row.get(1)?, title: row.get(2)? })
    })?;
    rows.collect()
}

/// Relies on rusqlite's Connection::prepare and Statement::query_map: reads
/// every (note_id, tag) row of the tags table, in whatever order the store
/// returns them.
#[verifier::external_body]
fn fetch_tag_rows(conn: &rusqlite::Connection) -> (r: Result<Vec<TagRow>, rusqlite::Error>) {
    let mut stmt = conn.prepare("SELECT note_id, tag FROM tags")?;
    let rows = stmt.query_map([], |row| {
        Ok(TagRow { note_id: row.get(0)?, tag: row.get(1)? })
    })?;
    rows.collect()
}

fn notes_wf_check(notes: &Vec<NoteRow>) -> (r: bool)
    ensures
        r == wf_notes(notes@),
{
    let mut i: usize = 0;
    while i < notes.len()
        invariant
            i <= notes.len(),
            forall|a: int, b: int|
                0 <= a < b < notes@.len() && a < i ==> notes@[a].id != notes@[b].id
                    && notes@[a].path@ != notes@[b].path@,
        decreases notes.len() - i,
    {
        let mut j: usize = i + 1;
        while j < notes.len()
            invariant
                i < j <= notes.len(),
                forall|b: int|
                    i < b < j ==> notes@[i as int].id != notes@[b].id && notes@[i as int].path@
                        != notes@[b].path@,
            decreases notes.len() - j,
        {
            if notes[i].id == notes[j].id || notes[i].path == notes[j].path {
                return false;
            }
            j = j + 1;
        }
        i = i + 1;
    }
    true
}

/// Every distinct tag stored in the vault, sorted. The rows come from the
/// store as they are; whatever they hold, the result is their distinct tags.
pub fn list_tags(conn: &rusqlite::Connection) -> (r: Result<Vec<String>, StoreError>)
    ensures
        r is Ok ==> sorted_lt(r->Ok_0.deep_view()),
{
    match fetch_tag_rows(conn) {
        Ok(rows) => Ok(crate::tags::list_tags(&rows)),
        Err(_) => Err(StoreError::Access),
    }
}

/// The stored tags of one note, sorted, duplicates included.
pub fn get_tags_for_note(conn: &rusqlite::Connection, note_id: i64) -> (r: Result<
    Vec<String>,
    StoreError,
>)
    ensures
        r is Ok ==> sorted_le(r->Ok_0.deep_view()),
{
    match fetch_tag_rows(conn) {
        Ok(rows) => Ok(crate::tags::get_tags_for_note(&rows, note_id)),
        Err(_) => Err(StoreError::Access),
    }
}

/// Stored notes carrying the given tag, sorted by path, each with its full
/// tag list.
pub fn get_notes_by_tag(conn: &rusqlite::Connection, tag: &String) -> (r: Result<
    Vec<TagResult>,
    StoreError,
>)
    ensures
        r is Ok ==> results_sorted(r->Ok_0@),
{
    let notes = match fetch_note_rows(conn) {
        Ok(n) => n,
        Err(_) => {
            return Err(StoreError::Access);
        },
    };
    let rows = match fetch_tag_rows(conn) {
        Ok(t) => t,
        Err(_) => {
            return Err(StoreError::Access);
        },
    };
    if !notes_wf_check(&notes) {
        return Err(StoreError::Corrupt);
    }
    Ok(crate::tags::get_notes_by_tag(&notes, &rows, tag))
}

/// Stored notes carrying every one of the given tags, sorted by path. An
/// empty request matches nothing.
pub fn get_notes_by_tags_and(conn: &rusqlite::Connection, tags: &Vec<String>) -> (r: Result<
    Vec<TagResult>,
    StoreError,
>)
    ensures
        r is Ok ==> results_sorted(r->Ok_0@),
        r is Ok && tags.deep_view().len() == 0 ==> r->Ok_0@.len() == 0,
{
    let notes = match fetch_note_rows(conn) {
        Ok(n) => n,
        Err(_) => {
            return Err(StoreError::Access);
        },
    };
    let rows = match fetch_tag_rows(conn) {
        Ok(t) => t,
        Err(_) => {
            return Err(StoreError::Access);
        },
    };
    if !notes_wf_check(&notes) {
        return Err(StoreError::Corrupt);
    }
    Ok(crate::tags::get_notes_by_tags_and(&notes, &rows, tags))
}

/// Stored notes carrying at least one of the given tags, sorted by path.
pub fn get_notes_by_tags_or(conn: &rusqlite::Connection, tags: &Vec<String>) -> (r: Result<
    Vec<TagResult>,
    StoreError,
>)
    ensures
        r is Ok ==> results_sorted(r->Ok_0@),
{
    let notes = match fetch_note_rows(conn) {
        Ok(n) => n,
        Err(_) => {
            return Err(StoreError::Access);
        },
    };
    let rows = match fetch_tag_rows(conn) {
        Ok(t) => t,
        Err(_) => {
            return Err(StoreError::Access);
        },
    };
    if !notes_wf_check(&notes) {
        return Err(StoreError::Corrupt);
    }
    Ok(crate::tags::get_notes_by_tags_or(&notes, &rows, tags))
}

} // verus!
