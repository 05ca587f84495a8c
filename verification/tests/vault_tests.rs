use vault_inspector::chunker::{chunk_note, get_overlap_text};
use vault_inspector::indexer::{fnv_hash, index_vault, resolve_target_exec, ScannedFile};
use vault_inspector::parser::{extract_links, extract_tags, parse_note};
use vault_inspector::query::{
    contains_sub, find_dead_ends, find_orphans, get_backlinks, get_forward_links,
    get_unresolved_links, graph_reach, search_chunks, str_starts_with,
};
use vault_inspector::store::{LinkKind, Store};
use vault_inspector::tags::{
    get_notes_by_tag, get_notes_by_tags_and, get_notes_by_tags_or, get_tags_for_note, list_tags,
    NoteRow, TagRow,
};

fn file(path: &str, mtime: u64, text: &str) -> ScannedFile {
    ScannedFile { path: path.to_string(), mtime, text: text.to_string() }
}

fn index(files: Vec<ScannedFile>) -> Store {
    let empty = Store::new();
    let (store, _) = index_vault(&empty, &files, 64, 16, &Vec::new(), false);
    store
}

#[test]
fn overlap_short_text_unchanged() {
    assert_eq!(get_overlap_text("abc", 10), "abc");
    assert_eq!(get_overlap_text("", 5), "");
}

#[test]
fn overlap_zero_is_empty() {
    assert_eq!(get_overlap_text("abcdef", 0), "");
}

#[test]
fn overlap_prefers_sentence_boundary() {
    // trailing 8 chars are "o. Three"; the cut lands after the period-space
    assert_eq!(get_overlap_text("One. Two. Three", 8), "Three");
}

#[test]
fn overlap_falls_back_to_raw_tail() {
    assert_eq!(get_overlap_text("abcdefghij", 4), "ghij");
}

#[test]
fn chunk_coverage_reconstructs_text() {
    let text = "One. Two. Three. Four. Five. Six. Seven. Eight. Nine. Ten.";
    let chunks = chunk_note(text, 10, 6);
    let mut rebuilt = String::new();
    let mut prev: Option<&String> = None;
    for c in &chunks {
        let trim = match prev {
            Some(p) => get_overlap_text(p, 6).chars().count(),
            None => 0,
        };
        let tail: String = c.chars().skip(trim).collect();
        rebuilt.push_str(&tail);
        prev = Some(c);
    }
    assert_eq!(rebuilt, text);
}

#[test]
fn chunk_short_text_is_one_chunk() {
    let chunks = chunk_note("abc", 10, 2);
    assert_eq!(chunks, vec!["abc".to_string()]);
}

#[test]
fn chunk_empty_text_has_no_chunks() {
    assert!(chunk_note("", 10, 2).is_empty());
}

#[test]
fn chunks_share_overlap_context() {
    let text = "aaaaaaaaaabbbbbbbbbbcccccccccc";
    let chunks = chunk_note(text, 10, 4);
    assert_eq!(chunks[0], "aaaaaaaaaa");
    assert_eq!(chunks[1], "aaaabbbbbbbbbb");
    assert_eq!(chunks[2], "bbbbcccccccccc");
}

#[test]
fn links_wiki_and_markdown() {
    let links = extract_links("go [[B]] then [x](y) and ![[C|c]]");
    assert_eq!(links.len(), 3);
    assert_eq!(links[0].dest_text, "B");
    assert!(matches!(links[0].kind, LinkKind::Wiki));
    assert!(!links[0].embed);
    assert_eq!(links[1].dest_text, "y");
    assert!(matches!(links[1].kind, LinkKind::Markdown));
    assert_eq!(links[1].alias.as_deref(), Some("x"));
    assert_eq!(links[2].dest_text, "C");
    assert!(links[2].embed);
    assert_eq!(links[2].alias.as_deref(), Some("c"));
}

#[test]
fn links_heading_and_block_refs() {
    let links = extract_links("[[N#H]] [[M#^b1]]");
    assert_eq!(links.len(), 2);
    assert_eq!(links[0].dest_text, "N");
    assert_eq!(links[0].heading.as_deref(), Some("H"));
    assert_eq!(links[0].block, None);
    assert_eq!(links[1].dest_text, "M");
    assert_eq!(links[1].heading, None);
    assert_eq!(links[1].block.as_deref(), Some("b1"));
}

#[test]
fn links_malformed_fragments_skipped() {
    assert_eq!(extract_links("[[]] [a]( ) ... [[open").len(), 1);
    assert!(extract_links("no links here").is_empty());
}

#[test]
fn inline_tags_extracted() {
    let tags = extract_tags("hi #tag and #a/b but x#no");
    assert_eq!(tags, vec!["tag".to_string(), "a/b".to_string()]);
}

#[test]
fn title_precedence_frontmatter_heading_filename() {
    let p1 = parse_note("n.md", "---\ntitle: T\n---\n# Head\nbody");
    assert_eq!(p1.title, "T");
    let p2 = parse_note("n.md", "# Head\nbody");
    assert_eq!(p2.title, "Head");
    let p3 = parse_note("dir/n.md", "plain body");
    assert_eq!(p3.title, "n");
}

#[test]
fn frontmatter_aliases_and_tags() {
    let p = parse_note("n.md", "---\naliases: [x, y]\ntags: [t1, t2]\n---\nbody #t3");
    assert_eq!(p.aliases, vec!["x".to_string(), "y".to_string()]);
    assert_eq!(
        p.tags,
        vec!["t1".to_string(), "t2".to_string(), "t3".to_string()]
    );
}

#[test]
fn malformed_frontmatter_degrades_to_empty() {
    let p = parse_note("n.md", "---\nno closing fence\nbody");
    assert!(p.aliases.is_empty());
    assert_eq!(p.title, "n");
}

#[test]
fn scenario_orphan_dead_end_partition() {
    let store = index(vec![
        file("A.md", 1, "[[B]]"),
        file("B.md", 1, "no links"),
        file("C.md", 1, "alone"),
    ]);
    let c_id = store.notes.iter().find(|n| n.path == "C.md").unwrap().id;
    let b_id = store.notes.iter().find(|n| n.path == "B.md").unwrap().id;
    let orphans = find_orphans(&store, &Vec::new(), true, false);
    assert_eq!(orphans, vec![c_id]);
    let dead_ends = find_dead_ends(&store, &Vec::new(), true, false);
    assert_eq!(dead_ends, vec![b_id]);
    assert!(get_unresolved_links(&store).is_empty());
}

#[test]
fn scenario_broken_link_reported() {
    let store = index(vec![file("A.md", 1, "[[Missing]]")]);
    let a_id = store.notes.iter().find(|n| n.path == "A.md").unwrap().id;
    let broken = get_unresolved_links(&store);
    assert_eq!(broken.len(), 1);
    assert_eq!(broken[0].source, a_id);
    assert_eq!(broken[0].dest_text, "Missing");
    assert!(broken[0].dest.is_none());
}

#[test]
fn scenario_deletion_unresolves_link() {
    let files1 = vec![file("A.md", 1, "[[B]]"), file("B.md", 1, "x")];
    let empty = Store::new();
    let (s1, _) = index_vault(&empty, &files1, 64, 16, &Vec::new(), false);
    assert!(s1.links[0].dest.is_some());
    let files2 = vec![file("A.md", 1, "[[B]]")];
    let (s2, rep2) = index_vault(&s1, &files2, 64, 16, &Vec::new(), false);
    assert_eq!(rep2.removed, 1);
    assert_eq!(s2.notes.len(), 1);
    assert_eq!(s2.notes[0].path, "A.md");
    assert_eq!(s2.links.len(), 1);
    assert!(s2.links[0].dest.is_none());
}

#[test]
fn indexing_twice_is_idempotent() {
    let files = vec![
        file("A.md", 3, "[[B]] #x"),
        file("B.md", 4, "# B note\n[[Missing]]"),
    ];
    let empty = Store::new();
    let (s1, rep1) = index_vault(&empty, &files, 64, 16, &Vec::new(), false);
    assert_eq!(rep1.added, 2);
    let (s2, rep2) = index_vault(&s1, &files, 64, 16, &Vec::new(), false);
    assert_eq!(rep2.added, 0);
    assert_eq!(rep2.updated, 0);
    assert_eq!(rep2.removed, 0);
    assert_eq!(rep2.unchanged, 2);
    assert_eq!(s1.notes.len(), s2.notes.len());
    for (a, b) in s1.notes.iter().zip(s2.notes.iter()) {
        assert_eq!(a.id, b.id);
        assert_eq!(a.path, b.path);
        assert_eq!(a.title, b.title);
        assert_eq!(a.hash, b.hash);
        assert_eq!(a.mtime, b.mtime);
    }
    assert_eq!(s1.links.len(), s2.links.len());
    for (a, b) in s1.links.iter().zip(s2.links.iter()) {
        assert_eq!(a.source, b.source);
        assert_eq!(a.dest, b.dest);
        assert_eq!(a.dest_text, b.dest_text);
    }
    assert_eq!(s1.tags.len(), s2.tags.len());
    assert_eq!(s1.chunks.len(), s2.chunks.len());
}

#[test]
fn changed_file_is_updated_in_place() {
    let empty = Store::new();
    let (s1, _) = index_vault(&empty, &vec![file("A.md", 1, "old")], 64, 16, &Vec::new(), false);
    let old_id = s1.notes[0].id;
    let (s2, rep) = index_vault(&s1, &vec![file("A.md", 2, "new #t")], 64, 16, &Vec::new(), false);
    assert_eq!(rep.updated, 1);
    assert_eq!(s2.notes[0].id, old_id);
    assert_eq!(s2.tags.len(), 1);
    assert_eq!(s2.tags[0].tag, "t");
}

#[test]
fn exclusion_patterns_skip_files() {
    let pats = vec![".obsidian/".to_string(), ".git/".to_string()];
    let store = {
        let empty = Store::new();
        let files = vec![file("A.md", 1, "x"), file(".obsidian/cfg.md", 1, "y")];
        index_vault(&empty, &files, 64, 16, &pats, false).0
    };
    assert_eq!(store.notes.len(), 1);
    assert_eq!(store.notes[0].path, "A.md");
}

#[test]
fn resolution_by_path_title_alias_and_case() {
    let store = index(vec![
        file("B.md", 1, "x"),
        file("T.md", 1, "---\ntitle: My Title\n---\n"),
        file("AL.md", 1, "---\naliases: [nick]\n---\n"),
    ]);
    let b = store.notes.iter().find(|n| n.path == "B.md").unwrap().id;
    let t = store.notes.iter().find(|n| n.path == "T.md").unwrap().id;
    let al = store.notes.iter().find(|n| n.path == "AL.md").unwrap().id;
    assert_eq!(resolve_target_exec(&store.notes, &"B".to_string()), Some(b));
    assert_eq!(resolve_target_exec(&store.notes, &"B.md".to_string()), Some(b));
    assert_eq!(resolve_target_exec(&store.notes, &"My Title".to_string()), Some(t));
    assert_eq!(resolve_target_exec(&store.notes, &"nick".to_string()), Some(al));
    // the case policy is exact matching, both ways
    assert_eq!(resolve_target_exec(&store.notes, &"b".to_string()), None);
    assert_eq!(resolve_target_exec(&store.notes, &"my title".to_string()), None);
}

#[test]
fn backlinks_and_forward_links() {
    let store = index(vec![
        file("A.md", 1, "[[B]] [[C]]"),
        file("B.md", 1, "[[C]]"),
        file("C.md", 1, ""),
    ]);
    let a = store.notes.iter().find(|n| n.path == "A.md").unwrap().id;
    let c = store.notes.iter().find(|n| n.path == "C.md").unwrap().id;
    let back = get_backlinks(&store, c);
    assert_eq!(back.len(), 2);
    let fwd = get_forward_links(&store, a);
    assert_eq!(fwd.len(), 2);
    assert_eq!(fwd[0].dest_text, "B");
    assert_eq!(fwd[1].dest_text, "C");
}

#[test]
fn graph_reach_bounded_and_cycle_safe() {
    let store = index(vec![
        file("A.md", 1, "[[B]]"),
        file("B.md", 1, "[[C]] [[A]]"),
        file("C.md", 1, ""),
    ]);
    let a = store.notes.iter().find(|n| n.path == "A.md").unwrap().id;
    let b = store.notes.iter().find(|n| n.path == "B.md").unwrap().id;
    let c = store.notes.iter().find(|n| n.path == "C.md").unwrap().id;
    let d0 = graph_reach(&store, a, 0);
    assert_eq!(d0, vec![a]);
    let mut d1 = graph_reach(&store, a, 1);
    d1.sort();
    let mut want1 = vec![a, b];
    want1.sort();
    assert_eq!(d1, want1);
    let mut d2 = graph_reach(&store, a, 2);
    d2.sort();
    let mut want2 = vec![a, b, c];
    want2.sort();
    assert_eq!(d2, want2);
    // a longer depth on a cyclic graph terminates and adds nothing new
    let mut d9 = graph_reach(&store, a, 9);
    d9.sort();
    assert_eq!(d9, want2);
}

#[test]
fn search_matches_substring_with_limit() {
    let store = index(vec![
        file("A.md", 1, "alpha needle one"),
        file("B.md", 1, "no match"),
        file("C.md", 1, "needle again"),
    ]);
    let hits = search_chunks(&store, &"needle".to_string(), 10);
    assert_eq!(hits.len(), 2);
    let capped = search_chunks(&store, &"needle".to_string(), 1);
    assert_eq!(capped.len(), 1);
    assert_eq!(capped[0].note_id, hits[0].note_id);
    assert!(search_chunks(&store, &"absent".to_string(), 10).is_empty());
}

#[test]
fn substring_and_prefix_helpers() {
    assert!(contains_sub("hello world", "lo wo"));
    assert!(!contains_sub("hello", "world"));
    assert!(contains_sub("abc", ""));
    assert!(str_starts_with(".git/", ".git/objects/x"));
    assert!(!str_starts_with(".git/", "src/.git/"));
}

#[test]
fn fnv_hash_known_values() {
    assert_eq!(fnv_hash(""), 0xcbf29ce484222325);
    assert_eq!(fnv_hash("a"), 0xaf63dc4c8601ec8c);
    assert_ne!(fnv_hash("ab"), fnv_hash("ba"));
}

fn tag_fixtures() -> (Vec<NoteRow>, Vec<TagRow>) {
    let notes = vec![
        NoteRow { id: 1, path: "b.md".to_string(), title: "B".to_string() },
        NoteRow { id: 2, path: "a.md".to_string(), title: "A".to_string() },
        NoteRow { id: 3, path: "c.md".to_string(), title: "C".to_string() },
    ];
    let tags = vec![
        TagRow { note_id: 1, tag: "x".to_string() },
        TagRow { note_id: 1, tag: "y".to_string() },
        TagRow { note_id: 2, tag: "x".to_string() },
        TagRow { note_id: 3, tag: "z".to_string() },
    ];
    (notes, tags)
}

#[test]
fn list_tags_distinct_sorted() {
    let (_, tags) = tag_fixtures();
    assert_eq!(list_tags(&tags), vec!["x".to_string(), "y".to_string(), "z".to_string()]);
}

#[test]
fn tags_for_note_sorted_with_duplicates() {
    let mut tags = tag_fixtures().1;
    tags.push(TagRow { note_id: 1, tag: "x".to_string() });
    assert_eq!(
        get_tags_for_note(&tags, 1),
        vec!["x".to_string(), "x".to_string(), "y".to_string()]
    );
    assert!(get_tags_for_note(&tags, 9).is_empty());
}

#[test]
fn notes_by_tag_sorted_by_path() {
    let (notes, tags) = tag_fixtures();
    let r = get_notes_by_tag(&notes, &tags, &"x".to_string());
    assert_eq!(r.len(), 2);
    assert_eq!(r[0].note_path, "a.md");
    assert_eq!(r[1].note_path, "b.md");
    assert_eq!(r[1].tags, vec!["x".to_string(), "y".to_string()]);
}

#[test]
fn tags_and_query_intersects() {
    let (notes, tags) = tag_fixtures();
    let r = get_notes_by_tags_and(&notes, &tags, &vec!["x".to_string(), "y".to_string()]);
    assert_eq!(r.len(), 1);
    assert_eq!(r[0].note_id, 1);
    assert!(get_notes_by_tags_and(&notes, &tags, &Vec::new()).is_empty());
    // the grouped-count match can never be reached by a repeated tag
    let dup = get_notes_by_tags_and(&notes, &tags, &vec!["x".to_string(), "x".to_string()]);
    assert!(dup.is_empty());
}

#[test]
fn tags_or_query_unions() {
    let (notes, tags) = tag_fixtures();
    let r = get_notes_by_tags_or(&notes, &tags, &vec!["y".to_string(), "z".to_string()]);
    assert_eq!(r.len(), 2);
    assert_eq!(r[0].note_path, "b.md");
    assert_eq!(r[1].note_path, "c.md");
    assert!(get_notes_by_tags_or(&notes, &tags, &Vec::new()).is_empty());
}

#[test]
fn tag_algebra_monotone_on_fixture() {
    let (notes, tags) = tag_fixtures();
    let a = vec!["x".to_string()];
    let b = vec!["x".to_string(), "y".to_string()];
    let and_a = get_notes_by_tags_and(&notes, &tags, &a);
    let and_b = get_notes_by_tags_and(&notes, &tags, &b);
    for e in &and_b {
        assert!(and_a.iter().any(|f| f.note_id == e.note_id));
    }
    let or_a = get_notes_by_tags_or(&notes, &tags, &a);
    let or_b = get_notes_by_tags_or(&notes, &tags, &b);
    for e in &or_a {
        assert!(or_b.iter().any(|f| f.note_id == e.note_id));
    }
}
