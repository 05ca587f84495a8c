use rusqlite::Connection;
use vault_inspector::db::{
    get_notes_by_tag, get_notes_by_tags_and, get_notes_by_tags_or, get_tags_for_note, list_tags,
    StoreError,
};

fn seeded() -> Connection {
    let conn = Connection::open_in_memory().unwrap();
    conn.execute_batch(
        "CREATE TABLE notes (id INTEGER PRIMARY KEY, path TEXT NOT NULL, title TEXT NOT NULL);
         CREATE TABLE tags (note_id INTEGER NOT NULL, tag TEXT NOT NULL);
         INSERT INTO notes VALUES (1, 'b.md', 'B'), (2, 'a.md', 'A'), (3, 'c.md', 'C');
         INSERT INTO tags VALUES (1, 'x'), (1, 'y'), (2, 'x'), (3, 'z');",
    )
    .unwrap();
    conn
}

#[test]
fn db_list_tags_distinct_sorted() {
    let conn = seeded();
    let tags = list_tags(&conn).unwrap();
    assert_eq!(tags, vec!["x".to_string(), "y".to_string(), "z".to_string()]);
}

#[test]
fn db_tags_for_note_sorted() {
    let conn = seeded();
    assert_eq!(
        get_tags_for_note(&conn, 1).unwrap(),
        vec!["x".to_string(), "y".to_string()]
    );
    assert!(get_tags_for_note(&conn, 9).unwrap().is_empty());
}

#[test]
fn db_notes_by_tag_ordered_by_path() {
    let conn = seeded();
    let r = get_notes_by_tag(&conn, &"x".to_string()).unwrap();
    assert_eq!(r.len(), 2);
    assert_eq!(r[0].note_path, "a.md");
    assert_eq!(r[0].note_id, 2);
    assert_eq!(r[1].note_path, "b.md");
    assert_eq!(r[1].tags, vec!["x".to_string(), "y".to_string()]);
}

#[test]
fn db_and_or_queries() {
    let conn = seeded();
    let both = get_notes_by_tags_and(&conn, &vec!["x".to_string(), "y".to_string()]).unwrap();
    assert_eq!(both.len(), 1);
    assert_eq!(both[0].note_id, 1);
    assert!(get_notes_by_tags_and(&conn, &Vec::new()).unwrap().is_empty());
    let any = get_notes_by_tags_or(&conn, &vec!["y".to_string(), "z".to_string()]).unwrap();
    assert_eq!(any.len(), 2);
    assert_eq!(any[0].note_id, 1);
    assert_eq!(any[1].note_id, 3);
}

#[test]
fn db_missing_table_is_access_error() {
    let conn = Connection::open_in_memory().unwrap();
    assert_eq!(list_tags(&conn).unwrap_err(), StoreError::Access);
}

#[test]
fn db_duplicate_note_key_is_corrupt() {
    let conn = Connection::open_in_memory().unwrap();
    conn.execute_batch(
        "CREATE TABLE notes (id INTEGER, path TEXT NOT NULL, title TEXT NOT NULL);
         CREATE TABLE tags (note_id INTEGER NOT NULL, tag TEXT NOT NULL);
         INSERT INTO notes VALUES (1, 'a.md', 'A'), (1, 'b.md', 'B');",
    )
    .unwrap();
    assert_eq!(
        get_notes_by_tag(&conn, &"x".to_string()).unwrap_err(),
        StoreError::Corrupt
    );
}
