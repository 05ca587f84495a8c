use vstd::prelude::*;
use vstd::string::StrSliceExecFns;
use crate::store::{Store, StoreNote, Link, ChunkRow};
use crate::tags::TagRow;
use crate::query::{path_excluded, path_is_excluded};
use crate::parser::parse_note;
use crate::chunker::chunk_note;

verus! {

/// One file found by the vault walk, already read: its vault-relative path,
/// modification time, and text.
pub struct ScannedFile {
    pub path: String,
    pub mtime: u64,
    pub text: String,
}

/// What one indexing run did.
pub struct IndexReport {
    pub added: usize,
    pub updated: usize,
    pub unchanged: usize,
    pub removed: usize,
    pub resolved: usize,
    pub broken: usize,
}

/// The FNV-1a offset basis and prime, over a note's characters.
pub open spec fn fnv1a(t: Seq<char>) -> u64
    decreases t.len(),
{
    if t.len() == 0 {
        0xcbf29ce484222325u64
    } else {
        (((fnv1a(t.drop_last()) ^ (t.last() as u64)) as int * 0x100000001b3) % 0x10000000000000000)
            as u64
    }
}

/// Content hash of a note's text, for change detection.
pub fn fnv_hash(t: &str) -> (r: u64)
    ensures
        r == fnv1a(t@),
{
    let n = t.unicode_len();
    let mut h: u64 = 0xcbf29ce484222325u64;
    let mut i: usize = 0;
    assert(h == fnv1a(t@.subrange(0, 0)));
    while i < n
        invariant
            i <= n,
            n == t@.len(),
            h == fnv1a(t@.subrange(0, i as int)),
        decreases n - i,
    {
        let c = t.get_char(i);
        let x: u64 = h ^ ((c as u32) as u64);
        let prod: u128 = (x as u128) * 0x100000001b3u128;
        let h2: u64 = (prod % 0x10000000000000000u128) as u64;
        proof {
            let pre1 = t@.subrange(0, i + 1);
            assert(pre1.drop_last() =~= t@.subrange(0, i as int));
            assert(pre1.last() == t@[i as int]);
            assert((c as u64) == ((c as u32) as u64));
        }
        h = h2;
        i = i + 1;
    }
    proof {
        assert(t@.subrange(0, t@.len() as int) =~= t@);
    }
    h
}

/// The scanned files that survive the exclusion patterns, in scan order.
pub open spec fn kept_files(files: Seq<ScannedFile>, pats: Seq<Seq<char>>) -> Seq<ScannedFile>
    decreases files.len(),
{
    if files.len() == 0 {
        Seq::empty()
    } else {
        let rest = kept_files(files.drop_last(), pats);
        if !path_excluded(pats, files.last().path@) {
            rest.push(files.last())
        } else {
            rest
        }
    }
}

/// Equal note tables, by contents: same keys, titles, hashes, times and
/// aliases, row for row.
pub open spec fn notes_eq(a: Seq<StoreNote>, b: Seq<StoreNote>) -> bool {
    a.len() == b.len() && forall|k: int|
        0 <= k < a.len() ==> (#[trigger] a[k]).id == b[k].id && a[k].path@ == b[k].path@
            && a[k].title@ == b[k].title@ && a[k].hash == b[k].hash && a[k].mtime == b[k].mtime
            && a[k].aliases.deep_view() == b[k].aliases.deep_view()
}

/// The note table mirrors the kept files: one note per file, in scan order,
/// with that file's content hash and modification time.
pub open spec fn aligned(notes: Seq<StoreNote>, kept: Seq<ScannedFile>) -> bool {
    notes.len() == kept.len() && forall|k: int|
        0 <= k < kept.len() ==> (#[trigger] notes[k]).path@ == kept[k].path@ && notes[k].hash
            == fnv1a(kept[k].text@) && notes[k].mtime == kept[k].mtime
}

/// A note matches a raw destination text by path when the text names the path
/// itself or the path without its markdown suffix.
pub open spec fn path_matches(n: StoreNote, txt: Seq<char>) -> bool {
    n.path@ == txt || n.path@ == txt + seq!['.', 'm', 'd']
}

pub open spec fn title_matches(n: StoreNote, txt: Seq<char>) -> bool {
    n.title@ == txt
}

pub open spec fn alias_matches(n: StoreNote, txt: Seq<char>) -> bool {
    n.aliases.deep_view().contains(txt)
}

pub open spec fn find_path_from(notes: Seq<StoreNote>, txt: Seq<char>, i: int) -> int
    decreases notes.len() - i when 0 <= i
{
    if i >= notes.len() {
        -1
    } else if path_matches(notes[i], txt) {
        i
    } else {
        find_path_from(notes, txt, i + 1)
    }
}

pub open spec fn find_title_from(notes: Seq<StoreNote>, txt: Seq<char>, i: int) -> int
    decreases notes.len() - i when 0 <= i
{
    if i >= notes.len() {
        -1
    } else if title_matches(notes[i], txt) {
        i
    } else {
        find_title_from(notes, txt, i + 1)
    }
}

pub open spec fn find_alias_from(notes: Seq<StoreNote>, txt: Seq<char>, i: int) -> int
    decreases notes.len() - i when 0 <= i
{
    if i >= notes.len() {
        -1
    } else if alias_matches(notes[i], txt) {
        i
    } else {
        find_alias_from(notes, txt, i + 1)
    }
}

/// Two-phase resolution of one raw destination text against the note table:
/// the first note matching by path, else the first matching by title, else
/// the first matching by a declared alias; case-sensitive throughout, first
/// match in stored order on a collision.
pub open spec fn resolve_target(notes: Seq<StoreNote>, txt: Seq<char>) -> Option<i64> {
    let p = find_path_from(notes, txt, 0);
    let t = find_title_from(notes, txt, 0);
    let a = find_alias_from(notes, txt, 0);
    if p >= 0 {
        Some(notes[p].id)
    } else if t >= 0 {
        Some(notes[t].id)
    } else if a >= 0 {
        Some(notes[a].id)
    } else {
        None
    }
}

proof fn lemma_find_path_from(notes: Seq<StoreNote>, txt: Seq<char>, i: int)
    requires
        0 <= i,
    ensures
        find_path_from(notes, txt, i) == -1 || (i <= find_path_from(notes, txt, i) < notes.len()
            && path_matches(notes[find_path_from(notes, txt, i)], txt)),
    decreases notes.len() - i,
{
    if i >= notes.len() {
    } else if path_matches(notes[i], txt) {
    } else {
        lemma_find_path_from(notes, txt, i + 1);
    }
}

proof fn lemma_find_title_from(notes: Seq<StoreNote>, txt: Seq<char>, i: int)
    requires
        0 <= i,
    ensures
        find_title_from(notes, txt, i) == -1 || (i <= find_title_from(notes, txt, i) < notes.len()
            && title_matches(notes[find_title_from(notes, txt, i)], txt)),
    decreases notes.len() - i,
{
    if i >= notes.len() {
    } else if title_matches(notes[i], txt) {
    } else {
        lemma_find_title_from(notes, txt, i + 1);
    }
}

proof fn lemma_find_alias_from(notes: Seq<StoreNote>, txt: Seq<char>, i: int)
    requires
        0 <= i,
    ensures
        find_alias_from(notes, txt, i) == -1 || (i <= find_alias_from(notes, txt, i) < notes.len()
            && alias_matches(notes[find_alias_from(notes, txt, i)], txt)),
    decreases notes.len() - i,
{
    if i >= notes.len() {
    } else if alias_matches(notes[i], txt) {
    } else {
        lemma_find_alias_from(notes, txt, i + 1);
    }
}

/// Round trip: whenever resolution of a raw destination text succeeds, it
/// names a stored note whose path, title or declared alias matches that text
/// exactly.
pub proof fn lemma_resolve_round_trip(notes: Seq<StoreNote>, txt: Seq<char>)
    ensures
        resolve_target(notes, txt) is Some ==> exists|i: int|
            0 <= i < notes.len() && (#[trigger] notes[i]).id == resolve_target(notes, txt)->0 && (
            path_matches(notes[i], txt) || title_matches(notes[i], txt) || alias_matches(
                notes[i],
                txt,
            )),
{
    lemma_find_path_from(notes, txt, 0);
    lemma_find_title_from(notes, txt, 0);
    lemma_find_alias_from(notes, txt, 0);
}

fn path_matches_exec(n: &StoreNote, txt: &String) -> (r: bool)
    ensures
        r == path_matches(*n, txt@),
{
    if n.path == *txt {
        return true;
    }
    let mut cand = txt.clone();
    cand.append(".md");
    proof {
        reveal_strlit(".md");
        assert((".md")@ =~= seq!['.', 'm', 'd']);
    }
    n.path == cand
}

fn alias_matches_exec(n: &StoreNote, txt: &String) -> (r: bool)
    ensures
        r == alias_matches(*n, txt@),
{
    let mut k: usize = 0;
    while k < n.aliases.len()
        invariant
            k <= n.aliases.len(),
            forall|i: int| 0 <= i < k ==> n.aliases.deep_view()[i] != txt@,
        decreases n.aliases.len() - k,
    {
        if n.aliases[k] == *txt {
            assert(n.aliases.deep_view()[k as int] == n.aliases@[k as int]@);
            return true;
        }
        assert(n.aliases.deep_view()[k as int] == n.aliases@[k as int]@);
        k = k + 1;
    }
    assert forall|i: int| 0 <= i < n.aliases.deep_view().len() implies n.aliases.deep_view()[i]
        != txt@ by {}
    false
}

fn find_path_exec(notes: &Vec<StoreNote>, txt: &String, i: usize) -> (r: Option<usize>)
    requires
        i <= notes@.len(),
    ensures
        (match r {
            Some(p) => find_path_from(notes@, txt@, i as int) == p && p < notes@.len(),
            None => find_path_from(notes@, txt@, i as int) == -1,
        }),
    decreases notes@.len() - i,
{
    if i >= notes.len() {
        return None;
    }
    if path_matches_exec(&notes[i], txt) {
        Some(i)
    } else {
        find_path_exec(notes, txt, i + 1)
    }
}

fn find_title_exec(notes: &Vec<StoreNote>, txt: &String, i: usize) -> (r: Option<usize>)
    requires
        i <= notes@.len(),
    ensures
        (match r {
            Some(p) => find_title_from(notes@, txt@, i as int) == p && p < notes@.len(),
            None => find_title_from(notes@, txt@, i as int) == -1,
        }),
    decreases notes@.len() - i,
{
    if i >= notes.len() {
        return None;
    }
    if notes[i].title == *txt {
        Some(i)
    } else {
        find_title_exec(notes, txt, i + 1)
    }
}

fn find_alias_exec(notes: &Vec<StoreNote>, txt: &String, i: usize) -> (r: Option<usize>)
    requires
        i <= notes@.len(),
    ensures
        (match r {
            Some(p) => find_alias_from(notes@, txt@, i as int) == p && p < notes@.len(),
            None => find_alias_from(notes@, txt@, i as int) == -1,
        }),
    decreases notes@.len() - i,
{
    if i >= notes.len() {
        return None;
    }
    if alias_matches_exec(&notes[i], txt) {
        Some(i)
    } else {
        find_alias_exec(notes, txt, i + 1)
    }
}

/// Resolves one raw destination text: by path, then title, then alias.
pub fn resolve_target_exec(notes: &Vec<StoreNote>, txt: &String) -> (r: Option<i64>)
    ensures
        r == resolve_target(notes@, txt@),
{
    match find_path_exec(notes, txt, 0) {
        Some(p) => Some(notes[p].id),
        None => match find_title_exec(notes, txt, 0) {
            Some(t) => Some(notes[t].id),
            None => match find_alias_exec(notes, txt, 0) {
                Some(a) => Some(notes[a].id),
                None => None,
            },
        },
    }
}

fn copy_strings(v: &Vec<String>) -> (r: Vec<String>)
    ensures
        r@ == v@,
        r.deep_view() == v.deep_view(),
{
    let mut r: Vec<String> = Vec::new();
    let mut k: usize = 0;
    while k < v.len()
        invariant
            k <= v.len(),
            r@.len() == k,
            forall|i: int| 0 <= i < k ==> r@[i] == v@[i],
        decreases v.len() - k,
    {
        r.push(v[k].clone());
        k = k + 1;
    }
    proof {
        assert(r@ =~= v@);
        assert(r.deep_view() =~~= v.deep_view());
    }
    r
}

fn copy_store_note(n: &StoreNote) -> (r: StoreNote)
    ensures
        r.id == n.id && r.path == n.path && r.title == n.title && r.hash == n.hash && r.mtime
            == n.mtime && r.aliases@ == n.aliases@ && r.aliases.deep_view()
            == n.aliases.deep_view(),
{
    StoreNote {
        id: n.id,
        path: n.path.clone(),
        title: n.title.clone(),
        hash: n.hash,
        mtime: n.mtime,
        aliases: copy_strings(&n.aliases),
    }
}

fn copy_file(f: &ScannedFile) -> (r: ScannedFile)
    ensures
        r == *f,
{
    ScannedFile { path: f.path.clone(), mtime: f.mtime, text: f.text.clone() }
}

fn find_note_by_path(notes: &Vec<StoreNote>, p: &String) -> (r: Option<usize>)
    ensures
        (match r {
            Some(i) => i < notes@.len() && notes@[i as int].path@ == p@ && forall|m: int|
                0 <= m < i ==> notes@[m].path@ != p@,
            None => forall|m: int| 0 <= m < notes@.len() ==> notes@[m].path@ != p@,
        }),
{
    let mut k: usize = 0;
    while k < notes.len()
        invariant
            k <= notes.len(),
            forall|m: int| 0 <= m < k ==> notes@[m].path@ != p@,
        decreases notes.len() - k,
    {
        if notes[k].path == *p {
            return Some(k);
        }
        k = k + 1;
    }
    None
}

proof fn lemma_id_still_there(notes: Seq<StoreNote>, notes0: Seq<StoreNote>, idv: i64)
    requires
        crate::store::has_note_id(notes0, idv),
        notes.len() >= notes0.len(),
        forall|i: int| 0 <= i < notes0.len() ==> notes[i] == notes0[i],
    ensures
        crate::store::has_note_id(notes, idv),
{
    let w = choose|w: int| 0 <= w < notes0.len() && (#[trigger] notes0[w]).id == idv;
    assert((#[trigger] notes[w]).id == idv);
}

proof fn lemma_keep_old_id_unique(
    notes: Seq<StoreNote>,
    notes0: Seq<StoreNote>,
    old_notes: Seq<StoreNote>,
    keptg: Seq<ScannedFile>,
    j: int,
    oi: int,
    old_next: i64,
)
    requires
        notes.len() == notes0.len() + 1,
        forall|i: int| 0 <= i < notes0.len() ==> notes[i] == notes0[i],
        notes0.len() == j,
        0 <= j < keptg.len(),
        0 <= oi < old_notes.len(),
        notes.last().id == old_notes[oi].id,
        old_notes[oi].path@ == keptg[j].path@,
        old_notes[oi].id < old_next,
        crate::store::note_ids_unique(old_notes),
        forall|a: int, b: int| 0 <= a < b < keptg.len() ==> keptg[a].path@ != keptg[b].path@,
        aligned(notes0, keptg.subrange(0, j)),
        forall|k: int|
            0 <= k < notes0.len() && (#[trigger] notes0[k]).id < old_next ==> (exists|m: int|
                0 <= m < old_notes.len() && (#[trigger] old_notes[m]).id == notes0[k].id
                    && old_notes[m].path@ == notes0[k].path@),
        forall|k: int| 0 <= k < notes0.len() ==> (#[trigger] notes0[k]).id >= old_next
            || notes0[k].id < old_next,
    ensures
        forall|a: int| 0 <= a < notes.len() - 1 ==> notes[a].id != notes.last().id,
{
    let nid = notes.last().id;
    assert forall|a: int| 0 <= a < notes.len() - 1 implies notes[a].id != nid by {
        assert(notes[a] == notes0[a]);
        if notes0[a].id == nid {
            assert(notes0[a].id < old_next);
            let m = choose|m: int|
                0 <= m < old_notes.len() && (#[trigger] old_notes[m]).id == notes0[a].id
                    && old_notes[m].path@ == notes0[a].path@;
            if m != oi {
                if m < oi {
                    assert(old_notes[m].id != old_notes[oi].id);
                } else {
                    assert(old_notes[oi].id != old_notes[m].id);
                }
                assert(false);
            }
            assert(old_notes[oi].path@ == notes0[a].path@);
            assert(notes0[a].path@ == keptg.subrange(0, j)[a].path@);
            assert(keptg[a].path@ == keptg[j].path@);
            assert(false);
        }
    }
}

/// Indexes one vault scan against the previous store: files behind an
/// exclusion pattern are skipped; a file with no stored note is parsed and
/// added under a fresh identifier; one whose stored hash and modification
/// time are unchanged is kept as it stands, rows included, without reparsing
/// (unless `force` asks for a full reparse); any other file is reparsed in
/// place, keeping its identifier and replacing its links, tags and chunks as
/// one unit. Stored notes whose file is gone are removed with their rows.
/// Afterwards the resolution pass recomputes every link destination from the
/// new note table, so a link to a removed note returns to unresolved.
///
/// Idempotence: when the store already mirrors the kept files (as a first run
/// over them leaves it) and `force` is off, the run keeps the note table
/// identical and reports nothing added, updated or removed.
pub fn index_vault(
    old: &Store,
    files: &Vec<ScannedFile>,
    window: usize,
    overlap: usize,
    pats: &Vec<String>,
    force: bool,
) -> (r: (Store, IndexReport))
    requires
        window >= 1,
        old.next_id + files@.len() <= i64::MAX,
        forall|a: int, b: int| 0 <= a < b < files@.len() ==> files@[a].path@ != files@[b].path@,
        crate::store::note_ids_unique(old.notes@),
        forall|i: int| 0 <= i < old.notes@.len() ==> (#[trigger] old.notes@[i]).id < old.next_id,
    ensures
        aligned(r.0.notes@, kept_files(files@, pats.deep_view())),
        forall|a: int, b: int|
            0 <= a < b < r.0.notes@.len() ==> r.0.notes@[a].id != r.0.notes@[b].id,
        forall|i: int| 0 <= i < r.0.notes@.len() ==> (#[trigger] r.0.notes@[i]).id < r.0.next_id,
        crate::store::wf_store(r.0),
        r.1.added + r.1.updated + r.1.unchanged == kept_files(files@, pats.deep_view()).len(),
        (!force && aligned(old.notes@, kept_files(files@, pats.deep_view()))) ==> (notes_eq(
            r.0.notes@,
            old.notes@,
        ) && r.1.added == 0 && r.1.updated == 0 && r.1.removed == 0 && r.1.unchanged == kept_files(
            files@,
            pats.deep_view(),
        ).len()),
{
    let ghost keptg = kept_files(files@, pats.deep_view());
    let mut kept: Vec<ScannedFile> = Vec::new();
    let mut i: usize = 0;
    assert(kept@ =~= kept_files(files@.subrange(0, 0), pats.deep_view()));
    while i < files.len()
        invariant
            i <= files.len(),
            kept@ == kept_files(files@.subrange(0, i as int), pats.deep_view()),
        decreases files.len() - i,
    {
        if !path_is_excluded(pats, &files[i].path) {
            kept.push(copy_file(&files[i]));
        }
        proof {
            let pre1 = files@.subrange(0, i + 1);
            assert(pre1.drop_last() =~= files@.subrange(0, i as int));
            assert(pre1.last() == files@[i as int]);
        }
        i = i + 1;
    }
    proof {
        assert(files@.subrange(0, files@.len() as int) =~= files@);
        assert(kept@ == keptg);
        lemma_kept_len(files@, pats.deep_view());
        lemma_kept_distinct(files@, pats.deep_view());
    }
    let mut notes: Vec<StoreNote> = Vec::new();
    let mut links: Vec<Link> = Vec::new();
    let mut tags: Vec<TagRow> = Vec::new();
    let mut chunks: Vec<ChunkRow> = Vec::new();
    let mut next_id: i64 = old.next_id;
    let mut added: usize = 0;
    let mut updated: usize = 0;
    let mut unchanged: usize = 0;
    let mut j: usize = 0;
    while j < kept.len()
        invariant
            j <= kept.len(),
            kept@ == keptg,
            keptg.len() <= files@.len(),
            old.next_id + files@.len() <= i64::MAX,
            next_id == old.next_id + added,
            added + updated + unchanged == j,
            added <= j,
            window >= 1,
            aligned(notes@, keptg.subrange(0, j as int)),
            forall|a: int, b: int| 0 <= a < b < keptg.len() ==> keptg[a].path@ != keptg[b].path@,
            crate::store::note_ids_unique(old.notes@),
            forall|i: int| 0 <= i < old.notes@.len() ==> (#[trigger] old.notes@[i]).id
                < old.next_id,
            forall|k: int| 0 <= k < notes@.len() ==> (#[trigger] notes@[k]).id < next_id,
            forall|k: int|
                0 <= k < notes@.len() && (#[trigger] notes@[k]).id < old.next_id ==> (exists|m: int|
                    0 <= m < old.notes@.len() && (#[trigger] old.notes@[m]).id == notes@[k].id
                        && old.notes@[m].path@ == notes@[k].path@),
            forall|a: int, b: int| 0 <= a < b < notes@.len() ==> notes@[a].id != notes@[b].id,
            (!force && aligned(old.notes@, keptg)) ==> (notes_eq(
                notes@,
                old.notes@.subrange(0, j as int),
            ) && added == 0 && updated == 0 && unchanged == j),
            forall|k: int|
                0 <= k < links@.len() ==> crate::store::has_note_id(
                    notes@,
                    (#[trigger] links@[k]).source,
                ),
            forall|k: int|
                0 <= k < tags@.len() ==> crate::store::has_note_id(
                    notes@,
                    (#[trigger] tags@[k]).note_id,
                ),
            forall|k: int|
                0 <= k < chunks@.len() ==> crate::store::has_note_id(
                    notes@,
                    (#[trigger] chunks@[k]).note_id,
                ),
        decreases kept.len() - j,
    {
        let f = &kept[j];
        let ghost notes0 = notes@;
        let ghost next0 = next_id;
        let ghost links_in = links@;
        let ghost tags_in = tags@;
        let ghost chunks_in = chunks@;
        proof {
            assert forall|kk: int|
                0 <= kk < links_in.len() implies crate::store::has_note_id(
                notes0,
                (#[trigger] links_in[kk]).source,
            ) by {
                assert(links_in[kk] == links@[kk]);
                assert(crate::store::has_note_id(notes@, (#[trigger] links@[kk]).source));
            }
            assert forall|kk: int|
                0 <= kk < tags_in.len() implies crate::store::has_note_id(
                notes0,
                (#[trigger] tags_in[kk]).note_id,
            ) by {
                assert(tags_in[kk] == tags@[kk]);
                assert(crate::store::has_note_id(notes@, (#[trigger] tags@[kk]).note_id));
            }
            assert forall|kk: int|
                0 <= kk < chunks_in.len() implies crate::store::has_note_id(
                notes0,
                (#[trigger] chunks_in[kk]).note_id,
            ) by {
                assert(chunks_in[kk] == chunks@[kk]);
                assert(crate::store::has_note_id(notes@, (#[trigger] chunks@[kk]).note_id));
            }
        }
        let h = fnv_hash(f.text.as_str());
        let found = find_note_by_path(&old.notes, &f.path);
        match found {
            Some(oi) => {
                if !force && old.notes[oi].hash == h && old.notes[oi].mtime == f.mtime {
                    // unchanged: keep the note and its rows as they stand
                    let id = old.notes[oi].id;
                    notes.push(copy_store_note(&old.notes[oi]));
                    let ghost l0 = links@;
                    let mut k: usize = 0;
                    while k < old.links.len()
                        invariant
                            k <= old.links.len(),
                            links@.len() >= l0.len(),
                            forall|i: int| 0 <= i < l0.len() ==> links@[i] == l0[i],
                            forall|i: int|
                                l0.len() <= i < links@.len() ==> (#[trigger] links@[i]).source
                                    == id,
                        decreases old.links.len() - k,
                    {
                        if old.links[k].source == id {
                            links.push(crate::query::copy_link(&old.links[k]));
                        }
                        k = k + 1;
                    }
                    let ghost t0 = tags@;
                    let mut k: usize = 0;
                    while k < old.tags.len()
                        invariant
                            k <= old.tags.len(),
                            tags@.len() >= t0.len(),
                            forall|i: int| 0 <= i < t0.len() ==> tags@[i] == t0[i],
                            forall|i: int|
                                t0.len() <= i < tags@.len() ==> (#[trigger] tags@[i]).note_id
                                    == id,
                        decreases old.tags.len() - k,
                    {
                        if old.tags[k].note_id == id {
                            tags.push(
                                TagRow { note_id: id, tag: old.tags[k].tag.clone() },
                            );
                        }
                        k = k + 1;
                    }
                    let ghost c0 = chunks@;
                    let mut k: usize = 0;
                    while k < old.chunks.len()
                        invariant
                            k <= old.chunks.len(),
                            chunks@.len() >= c0.len(),
                            forall|i: int| 0 <= i < c0.len() ==> chunks@[i] == c0[i],
                            forall|i: int|
                                c0.len() <= i < chunks@.len() ==> (#[trigger] chunks@[i]).note_id
                                    == id,
                        decreases old.chunks.len() - k,
                    {
                        if old.chunks[k].note_id == id {
                            chunks.push(
                                ChunkRow {
                                    note_id: id,
                                    idx: old.chunks[k].idx,
                                    text: old.chunks[k].text.clone(),
                                },
                            );
                        }
                        k = k + 1;
                    }
                    unchanged = unchanged + 1;

                    proof {
                        assert forall|kk: int| 0 <= kk < links@.len() implies crate::store::has_note_id(
                            notes@,
                            (#[trigger] links@[kk]).source,
                        ) by {
                            if kk < links_in.len() {
                                assert(links@[kk] == links_in[kk]);
                                assert(crate::store::has_note_id(notes0, links_in[kk].source));
                                lemma_id_still_there(notes@, notes0, links_in[kk].source);
                            } else {
                                assert(links@[kk].source == id);
                                assert((#[trigger] notes@[notes@.len() - 1]).id == id);
                            }
                        }
                        assert forall|kk: int| 0 <= kk < tags@.len() implies crate::store::has_note_id(
                            notes@,
                            (#[trigger] tags@[kk]).note_id,
                        ) by {
                            if kk < tags_in.len() {
                                assert(tags@[kk] == tags_in[kk]);
                                assert(crate::store::has_note_id(notes0, tags_in[kk].note_id));
                                lemma_id_still_there(notes@, notes0, tags_in[kk].note_id);
                            } else {
                                assert(tags@[kk].note_id == id);
                                assert((#[trigger] notes@[notes@.len() - 1]).id == id);
                            }
                        }
                        assert forall|kk: int| 0 <= kk < chunks@.len() implies crate::store::has_note_id(
                            notes@,
                            (#[trigger] chunks@[kk]).note_id,
                        ) by {
                            if kk < chunks_in.len() {
                                assert(chunks@[kk] == chunks_in[kk]);
                                assert(crate::store::has_note_id(notes0, chunks_in[kk].note_id));
                                lemma_id_still_there(notes@, notes0, chunks_in[kk].note_id);
                            } else {
                                assert(chunks@[kk].note_id == id);
                                assert((#[trigger] notes@[notes@.len() - 1]).id == id);
                            }
                        }
                    }

                    proof {
                        lemma_keep_old_id_unique(
                            notes@,
                            notes0,
                            old.notes@,
                            keptg,
                            j as int,
                            oi as int,
                            old.next_id,
                        );
                    }
                } else {
                    // changed: reparse in place under the same identifier
                    let id = old.notes[oi].id;
                    parse_into(f, id, h, window, overlap, &mut notes, &mut links, &mut tags, &mut chunks);
                    updated = updated + 1;

                    proof {
                        assert forall|kk: int| 0 <= kk < links@.len() implies crate::store::has_note_id(
                            notes@,
                            (#[trigger] links@[kk]).source,
                        ) by {
                            if kk < links_in.len() {
                                assert(links@[kk] == links_in[kk]);
                                assert(crate::store::has_note_id(notes0, links_in[kk].source));
                                lemma_id_still_there(notes@, notes0, links_in[kk].source);
                            } else {
                                assert(links@[kk].source == id);
                                assert((#[trigger] notes@[notes@.len() - 1]).id == id);
                            }
                        }
                        assert forall|kk: int| 0 <= kk < tags@.len() implies crate::store::has_note_id(
                            notes@,
                            (#[trigger] tags@[kk]).note_id,
                        ) by {
                            if kk < tags_in.len() {
                                assert(tags@[kk] == tags_in[kk]);
                                assert(crate::store::has_note_id(notes0, tags_in[kk].note_id));
                                lemma_id_still_there(notes@, notes0, tags_in[kk].note_id);
                            } else {
                                assert(tags@[kk].note_id == id);
                                assert((#[trigger] notes@[notes@.len() - 1]).id == id);
                            }
                        }
                        assert forall|kk: int| 0 <= kk < chunks@.len() implies crate::store::has_note_id(
                            notes@,
                            (#[trigger] chunks@[kk]).note_id,
                        ) by {
                            if kk < chunks_in.len() {
                                assert(chunks@[kk] == chunks_in[kk]);
                                assert(crate::store::has_note_id(notes0, chunks_in[kk].note_id));
                                lemma_id_still_there(notes@, notes0, chunks_in[kk].note_id);
                            } else {
                                assert(chunks@[kk].note_id == id);
                                assert((#[trigger] notes@[notes@.len() - 1]).id == id);
                            }
                        }
                    }

                    proof {
                        lemma_keep_old_id_unique(
                            notes@,
                            notes0,
                            old.notes@,
                            keptg,
                            j as int,
                            oi as int,
                            old.next_id,
                        );
                    }
                }
            },
            None => {
                let id = next_id;
                next_id = next_id + 1;
                parse_into(f, id, h, window, overlap, &mut notes, &mut links, &mut tags, &mut chunks);
                added = added + 1;

                    proof {
                        assert forall|kk: int| 0 <= kk < links@.len() implies crate::store::has_note_id(
                            notes@,
                            (#[trigger] links@[kk]).source,
                        ) by {
                            if kk < links_in.len() {
                                assert(links@[kk] == links_in[kk]);
                                assert(crate::store::has_note_id(notes0, links_in[kk].source));
                                lemma_id_still_there(notes@, notes0, links_in[kk].source);
                            } else {
                                assert(links@[kk].source == id);
                                assert((#[trigger] notes@[notes@.len() - 1]).id == id);
                            }
                        }
                        assert forall|kk: int| 0 <= kk < tags@.len() implies crate::store::has_note_id(
                            notes@,
                            (#[trigger] tags@[kk]).note_id,
                        ) by {
                            if kk < tags_in.len() {
                                assert(tags@[kk] == tags_in[kk]);
                                assert(crate::store::has_note_id(notes0, tags_in[kk].note_id));
                                lemma_id_still_there(notes@, notes0, tags_in[kk].note_id);
                            } else {
                                assert(tags@[kk].note_id == id);
                                assert((#[trigger] notes@[notes@.len() - 1]).id == id);
                            }
                        }
                        assert forall|kk: int| 0 <= kk < chunks@.len() implies crate::store::has_note_id(
                            notes@,
                            (#[trigger] chunks@[kk]).note_id,
                        ) by {
                            if kk < chunks_in.len() {
                                assert(chunks@[kk] == chunks_in[kk]);
                                assert(crate::store::has_note_id(notes0, chunks_in[kk].note_id));
                                lemma_id_still_there(notes@, notes0, chunks_in[kk].note_id);
                            } else {
                                assert(chunks@[kk].note_id == id);
                                assert((#[trigger] notes@[notes@.len() - 1]).id == id);
                            }
                        }
                    }
                proof {
                    assert forall|a: int| 0 <= a < notes@.len() - 1 implies (#[trigger] notes@[a]).id
                        != notes@[notes@.len() - 1].id by {
                        assert(notes@[a] == notes0[a]);
                        assert(notes0[a].id < next0);
                    }
                }
            },
        }
        proof {
            assert(keptg.subrange(0, j + 1).drop_last() =~= keptg.subrange(0, j as int));
            assert(keptg.subrange(0, j + 1).last() == keptg[j as int]);
            if !force && aligned(old.notes@, keptg) {
                assert(old.notes@[j as int].path@ == keptg[j as int].path@);
                match found {
                    Some(oi) => {
                        assert(old.notes@[oi as int].path@ == keptg[j as int].path@);
                        assert(oi <= j);
                        if oi < j {
                            assert(keptg[oi as int].path@ == old.notes@[oi as int].path@);
                            assert(keptg[oi as int].path@ != keptg[j as int].path@);
                            assert(false);
                        }
                    },
                    None => {
                        assert(old.notes@[j as int].path@ != keptg[j as int].path@);
                    },
                }
                assert(notes_eq(notes@, old.notes@.subrange(0, j + 1)));
            }
            assert(aligned(notes@, keptg.subrange(0, j + 1)));
        }
        j = j + 1;
    }
    proof {
        assert(keptg.subrange(0, keptg.len() as int) =~= keptg);
        if !force && aligned(old.notes@, keptg) {
            assert(old.notes@.subrange(0, old.notes@.len() as int) =~= old.notes@);
            assert(notes_eq(notes@, old.notes@));
        }
    }
    // deletions: stored notes with no kept file are simply not carried over
    let mut removed: usize = 0;
    let mut k: usize = 0;
    while k < old.notes.len()
        invariant
            k <= old.notes.len(),
            removed <= k,
            kept@ == keptg,
            (!force && aligned(old.notes@, keptg)) ==> removed == 0,
        decreases old.notes.len() - k,
    {
        match find_file_by_path(&kept, &old.notes[k].path) {
            Some(_) => {},
            None => {
                removed = removed + 1;
                proof {
                    if !force && aligned(old.notes@, keptg) {
                        assert(keptg[k as int].path@ == old.notes@[k as int].path@);
                        assert(false);
                    }
                }
            },
        }
        k = k + 1;
    }
    // resolution pass: recompute every destination from the new note table
    let mut resolved: usize = 0;
    let mut broken: usize = 0;
    let mut rlinks: Vec<Link> = Vec::new();
    let mut k: usize = 0;
    while k < links.len()
        invariant
            k <= links.len(),
            resolved + broken == k,
            aligned(notes@, keptg),
            forall|i: int|
                0 <= i < links@.len() ==> crate::store::has_note_id(
                    notes@,
                    (#[trigger] links@[i]).source,
                ),
            forall|i: int|
                0 <= i < rlinks@.len() ==> crate::store::has_note_id(
                    notes@,
                    (#[trigger] rlinks@[i]).source,
                ),
            forall|i: int|
                0 <= i < rlinks@.len() && (#[trigger] rlinks@[i]).dest is Some
                    ==> crate::store::has_note_id(notes@, rlinks@[i].dest->0),
            (!force && aligned(old.notes@, keptg)) ==> (notes_eq(notes@, old.notes@) && added == 0
                && updated == 0 && removed == 0 && unchanged == keptg.len()),
            added + updated + unchanged == keptg.len(),
        decreases links.len() - k,
    {
        let d = resolve_target_exec(&notes, &links[k].dest_text);
        proof {
            lemma_resolve_round_trip(notes@, links@[k as int].dest_text@);
        }
        let mut nl = crate::query::copy_link(&links[k]);
        nl.dest = d;
        rlinks.push(nl);
        match d {
            Some(_) => {
                resolved = resolved + 1;
            },
            None => {
                broken = broken + 1;
            },
        }
        k = k + 1;
    }
    let store = Store { notes, links: rlinks, tags, chunks, next_id };
    let report = IndexReport { added, updated, unchanged, removed, resolved, broken };
    (store, report)
}

proof fn lemma_kept_mem(files: Seq<ScannedFile>, pats: Seq<Seq<char>>)
    ensures
        forall|x: ScannedFile| kept_files(files, pats).contains(x) ==> files.contains(x),
    decreases files.len(),
{
    if files.len() > 0 {
        lemma_kept_mem(files.drop_last(), pats);
        let rest = kept_files(files.drop_last(), pats);
        assert forall|x: ScannedFile| kept_files(files, pats).contains(x) implies files.contains(
            x,
        ) by {
            if rest.contains(x) {
                assert(files.drop_last().contains(x));
                let m = choose|m: int| 0 <= m < files.drop_last().len() && files.drop_last()[m]
                    == x;
                assert(files[m] == x);
            } else {
                let w = choose|w: int|
                    0 <= w < kept_files(files, pats).len() && kept_files(files, pats)[w] == x;
                assert(x == files.last());
                assert(files[files.len() - 1] == x);
            }
        }
    }
}

proof fn lemma_kept_distinct(files: Seq<ScannedFile>, pats: Seq<Seq<char>>)
    requires
        forall|a: int, b: int| 0 <= a < b < files.len() ==> files[a].path@ != files[b].path@,
    ensures
        forall|a: int, b: int|
            0 <= a < b < kept_files(files, pats).len() ==> kept_files(files, pats)[a].path@
                != kept_files(files, pats)[b].path@,
    decreases files.len(),
{
    if files.len() > 0 {
        let rest = kept_files(files.drop_last(), pats);
        assert forall|a: int, b: int|
            0 <= a < b < files.drop_last().len() implies files.drop_last()[a].path@
            != files.drop_last()[b].path@ by {
            assert(files[a].path@ != files[b].path@);
        }
        lemma_kept_distinct(files.drop_last(), pats);
        lemma_kept_mem(files.drop_last(), pats);
        let kf = kept_files(files, pats);
        assert forall|a: int, b: int| 0 <= a < b < kf.len() implies kf[a].path@ != kf[b].path@ by {
            if b < rest.len() {
            } else {
                assert(kf[b] == files.last());
                assert(rest.contains(rest[a]));
                assert(files.drop_last().contains(rest[a]));
                let m = choose|m: int|
                    0 <= m < files.drop_last().len() && files.drop_last()[m] == rest[a];
                assert(files[m] == rest[a]);
                assert(files[m].path@ != files[files.len() - 1].path@);
            }
        }
    }
}

proof fn lemma_kept_len(files: Seq<ScannedFile>, pats: Seq<Seq<char>>)
    ensures
        kept_files(files, pats).len() <= files.len(),
    decreases files.len(),
{
    if files.len() > 0 {
        lemma_kept_len(files.drop_last(), pats);
    }
}

fn find_file_by_path(files: &Vec<ScannedFile>, p: &String) -> (r: Option<usize>)
    ensures
        (match r {
            Some(i) => i < files@.len() && files@[i as int].path@ == p@,
            None => forall|m: int| 0 <= m < files@.len() ==> files@[m].path@ != p@,
        }),
{
    let mut k: usize = 0;
    while k < files.len()
        invariant
            k <= files.len(),
            forall|m: int| 0 <= m < k ==> files@[m].path@ != p@,
        decreases files.len() - k,
    {
        if files[k].path == *p {
            return Some(k);
        }
        k = k + 1;
    }
    None
}

/// Parses one file and appends its note row, links, tags and chunks as one
/// unit under the given identifier; new links start unresolved.
fn parse_into(
    f: &ScannedFile,
    id: i64,
    h: u64,
    window: usize,
    overlap: usize,
    notes: &mut Vec<StoreNote>,
    links: &mut Vec<Link>,
    tags: &mut Vec<TagRow>,
    chunks: &mut Vec<ChunkRow>,
)
    requires
        window >= 1,
    ensures
        final(notes)@.len() == old(notes)@.len() + 1,
        forall|i: int| 0 <= i < old(notes)@.len() ==> final(notes)@[i] == old(notes)@[i],
        final(notes)@.last().id == id && final(notes)@.last().path@ == f.path@,
        final(notes)@.last().hash == h && final(notes)@.last().mtime == f.mtime,
        final(links)@.len() >= old(links)@.len(),
        forall|i: int| 0 <= i < old(links)@.len() ==> final(links)@[i] == old(links)@[i],
        forall|i: int|
            old(links)@.len() <= i < final(links)@.len() ==> (#[trigger] final(links)@[i]).source
                == id,
        final(tags)@.len() >= old(tags)@.len(),
        forall|i: int| 0 <= i < old(tags)@.len() ==> final(tags)@[i] == old(tags)@[i],
        forall|i: int|
            old(tags)@.len() <= i < final(tags)@.len() ==> (#[trigger] final(tags)@[i]).note_id
                == id,
        final(chunks)@.len() >= old(chunks)@.len(),
        forall|i: int| 0 <= i < old(chunks)@.len() ==> final(chunks)@[i] == old(chunks)@[i],
        forall|i: int|
            old(chunks)@.len() <= i < final(chunks)@.len() ==> (#[trigger] final(chunks)@[i]).note_id
                == id,
{
    let p = parse_note(f.path.as_str(), f.text.as_str());
    let note = StoreNote {
        id,
        path: f.path.clone(),
        title: p.title,
        hash: h,
        mtime: f.mtime,
        aliases: p.aliases,
    };
    notes.push(note);
    let ghost links0 = links@;
    let ghost tags0 = tags@;
    let ghost chunks0 = chunks@;
    let mut pl = p.links;
    let mut ptags = p.tags;
    while pl.len() > 0
        invariant
            links@.len() >= links0.len(),
            forall|i: int| 0 <= i < links0.len() ==> links@[i] == links0[i],
            forall|i: int|
                links0.len() <= i < links@.len() ==> (#[trigger] links@[i]).source == id,
        decreases pl.len(),
    {
        let l = pl.remove(0);
        links.push(
            Link {
                source: id,
                dest: None,
                dest_text: l.dest_text,
                kind: l.kind,
                embed: l.embed,
                alias: l.alias,
                heading: l.heading,
                block: l.block,
            },
        );
    }
    while ptags.len() > 0
        invariant
            tags@.len() >= tags0.len(),
            forall|i: int| 0 <= i < tags0.len() ==> tags@[i] == tags0[i],
            forall|i: int|
                tags0.len() <= i < tags@.len() ==> (#[trigger] tags@[i]).note_id == id,
        decreases ptags.len(),
    {
        let t = ptags.remove(0);
        tags.push(TagRow { note_id: id, tag: t });
    }
    let cs = chunk_note(f.text.as_str(), window, overlap);
    let mut k: usize = 0;
    while k < cs.len()
        invariant
            k <= cs.len(),
            chunks@.len() >= chunks0.len(),
            forall|i: int| 0 <= i < chunks0.len() ==> chunks@[i] == chunks0[i],
            forall|i: int|
                chunks0.len() <= i < chunks@.len() ==> (#[trigger] chunks@[i]).note_id == id,
        decreases cs.len() - k,
    {
        chunks.push(ChunkRow { note_id: id, idx: k, text: cs[k].clone() });
        k = k + 1;
    }
}

} // verus!
