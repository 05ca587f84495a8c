use vstd::prelude::*;
use vstd::multiset::Multiset;
use crate::order::{lex_lt, lex_le, str_lt, lemma_lt_le_trans, lemma_lex_trans,
    lemma_not_lt_implies_le, lemma_lex_total};

verus! {

broadcast use vstd::seq_lib::to_multiset_insert, vstd::seq_lib::to_multiset_contains, vstd::seq_lib::group_to_multiset_ensures, vstd::multiset::group_multiset_axioms;

/// One row of the notes table: identifier, vault-relative path (the unique
/// key) and title.
#[derive(Debug)]
pub struct NoteRow {
    pub id: i64,
    pub path: String,
    pub title: String,
}

/// One row of the tags table: a (note identifier, tag string) pair.
#[derive(Debug)]
pub struct TagRow {
    pub note_id: i64,
    pub tag: String,
}

/// A note matched by a tag query, annotated with its full tag list.
#[derive(Debug)]
pub struct TagResult {
    pub note_id: i64,
    pub note_path: String,
    pub note_title: String,
    pub tags: Vec<String>,
}

/// The note with identifier `id` carries tag `t`.
pub open spec fn has_tag(rows: Seq<TagRow>, id: i64, t: Seq<char>) -> bool {
    exists|k: int| 0 <= k < rows.len() && rows[k].note_id == id && rows[k].tag@ == t
}

pub open spec fn no_dup_strs(q: Seq<Seq<char>>) -> bool {
    forall|i: int, j: int| 0 <= i < j < q.len() ==> q[i] != q[j]
}

/// A note satisfies an AND query when it carries every requested tag. The
/// match is by grouped-count against the request's length, so a request that
/// repeats a tag can never be satisfied.
pub open spec fn and_sat(rows: Seq<TagRow>, q: Seq<Seq<char>>, id: i64) -> bool {
    no_dup_strs(q) && forall|k: int| 0 <= k < q.len() ==> has_tag(rows, id, q[k])
}

/// A note satisfies an OR query when it carries at least one requested tag.
pub open spec fn or_sat(rows: Seq<TagRow>, q: Seq<Seq<char>>, id: i64) -> bool {
    exists|k: int| 0 <= k < q.len() && has_tag(rows, id, q[k])
}

/// Well-formed notes table: identifiers and paths are unique keys.
pub open spec fn wf_notes(notes: Seq<NoteRow>) -> bool {
    forall|i: int, j: int|
        0 <= i < j < notes.len() ==> notes[i].id != notes[j].id && notes[i].path@
            != notes[j].path@
}

/// The tags of one note, as the multiset of tag strings its rows carry.
pub open spec fn tags_of(rows: Seq<TagRow>, id: i64) -> Multiset<Seq<char>>
    decreases rows.len(),
{
    if rows.len() == 0 {
        Multiset::empty()
    } else {
        let rest = tags_of(rows.drop_last(), id);
        if rows.last().note_id == id {
            rest.insert(rows.last().tag@)
        } else {
            rest
        }
    }
}

pub open spec fn sorted_le(s: Seq<Seq<char>>) -> bool {
    forall|i: int, j: int| 0 <= i < j < s.len() ==> lex_le(s[i], s[j])
}

pub open spec fn sorted_lt(s: Seq<Seq<char>>) -> bool {
    forall|i: int, j: int| 0 <= i < j < s.len() ==> lex_lt(s[i], s[j])
}

/// Results sorted strictly by path: what ORDER BY over the unique path key
/// gives.
pub open spec fn results_sorted(r: Seq<TagResult>) -> bool {
    forall|i: int, j: int| 0 <= i < j < r.len() ==> lex_lt(r[i].note_path@, r[j].note_path@)
}

fn copy_note(n: &NoteRow) -> (r: NoteRow)
    ensures
        r == *n,
{
    NoteRow { id: n.id, path: n.path.clone(), title: n.title.clone() }
}

/// Whether the note with identifier `id` carries tag `t`.
pub fn note_has_tag(tag_rows: &Vec<TagRow>, id: i64, t: &String) -> (r: bool)
    ensures
        r == has_tag(tag_rows@, id, t@),
{
    let mut k: usize = 0;
    while k < tag_rows.len()
        invariant
            k <= tag_rows.len(),
            forall|i: int|
                0 <= i < k ==> !(tag_rows@[i].note_id == id && tag_rows@[i].tag@ == t@),
        decreases tag_rows.len() - k,
    {
        if tag_rows[k].note_id == id && tag_rows[k].tag == *t {
            return true;
        }
        k = k + 1;
    }
    false
}

fn has_all_tags(tag_rows: &Vec<TagRow>, id: i64, q: &Vec<String>) -> (r: bool)
    ensures
        r == forall|k: int| 0 <= k < q.deep_view().len() ==> has_tag(tag_rows@, id, q.deep_view()[k]),
{
    let mut k: usize = 0;
    while k < q.len()
        invariant
            k <= q.len(),
            forall|i: int| 0 <= i < k ==> has_tag(tag_rows@, id, q.deep_view()[i]),
        decreases q.len() - k,
    {
        if !note_has_tag(tag_rows, id, &q[k]) {
            assert(q.deep_view()[k as int] == q@[k as int]@);
            return false;
        }
        assert(q.deep_view()[k as int] == q@[k as int]@);
        k = k + 1;
    }
    true
}

fn has_any_tag(tag_rows: &Vec<TagRow>, id: i64, q: &Vec<String>) -> (r: bool)
    ensures
        r == or_sat(tag_rows@, q.deep_view(), id),
{
    let mut k: usize = 0;
    while k < q.len()
        invariant
            k <= q.len(),
            forall|i: int| 0 <= i < k ==> !has_tag(tag_rows@, id, q.deep_view()[i]),
        decreases q.len() - k,
    {
        if note_has_tag(tag_rows, id, &q[k]) {
            assert(q.deep_view()[k as int] == q@[k as int]@);
            return true;
        }
        assert(q.deep_view()[k as int] == q@[k as int]@);
        k = k + 1;
    }
    false
}

fn no_dup_tags(q: &Vec<String>) -> (r: bool)
    ensures
        r == no_dup_strs(q.deep_view()),
{
    let mut i: usize = 0;
    while i < q.len()
        invariant
            i <= q.len(),
            forall|a: int, b: int| 0 <= a < b < q.deep_view().len() && a < i ==> q.deep_view()[a]
                != q.deep_view()[b],
        decreases q.len() - i,
    {
        let mut j: usize = i + 1;
        while j < q.len()
            invariant
                i < j <= q.len(),
                forall|b: int| i < b < j ==> q.deep_view()[i as int] != q.deep_view()[b],
            decreases q.len() - j,
        {
            if q[i] == q[j] {
                assert(q.deep_view()[i as int] == q@[i as int]@);
                assert(q.deep_view()[j as int] == q@[j as int]@);
                return false;
            }
            assert(q.deep_view()[i as int] == q@[i as int]@);
            assert(q.deep_view()[j as int] == q@[j as int]@);
            j = j + 1;
        }
        i = i + 1;
    }
    true
}

/// Inserts `s` into a vector sorted in non-strict order, keeping it sorted;
/// the contents grow by exactly `s`.
fn insert_sorted(v: &mut Vec<String>, s: String)
    requires
        sorted_le(old(v).deep_view()),
    ensures
        sorted_le(final(v).deep_view()),
        final(v).deep_view().to_multiset() == old(v).deep_view().to_multiset().insert(s@),
{
    let ghost dv0 = v.deep_view();
    let mut j: usize = 0;
    while j < v.len()
        invariant
            j <= v.len(),
            v.deep_view() == dv0,
            sorted_le(dv0),
            forall|i: int| 0 <= i < j ==> lex_le(dv0[i], s@),
        ensures
            j <= v.len(),
            v.deep_view() == dv0,
            forall|i: int| 0 <= i < j ==> lex_le(dv0[i], s@),
            j < v.len() ==> lex_lt(s@, dv0[j as int]),
        decreases v.len() - j,
    {
        if str_lt(s.as_str(), v[j].as_str()) {
            break ;
        }
        proof {
            lemma_not_lt_implies_le(v.deep_view()[j as int], s@);
        }
        j = j + 1;
    }
    v.insert(j, s);
    proof {
        assert(v.deep_view() =~~= dv0.insert(j as int, s@));
        let dv = dv0.insert(j as int, s@);
        assert(dv.to_multiset() == dv0.to_multiset().insert(s@));
        assert forall|a: int, b: int| 0 <= a < b < dv.len() implies lex_le(dv[a], dv[b]) by {
            if b < j {
                assert(dv[a] == dv0[a] && dv[b] == dv0[b]);
            } else if a > j {
                assert(dv[a] == dv0[a - 1] && dv[b] == dv0[b - 1]);
            } else if a < j && b == j {
                assert(dv[a] == dv0[a] && dv[b] == s@);
            } else if a == j {
                assert(dv[a] == s@ && dv[b] == dv0[b - 1]);
                assert(lex_lt(s@, dv0[j as int]));
                if b - 1 > j {
                    lemma_lt_le_trans(s@, dv0[j as int], dv0[b - 1]);
                }
            } else if a < j && b > j {
                assert(dv[a] == dv0[a] && dv[b] == dv0[b - 1]);
                if b - 1 == j {
                    assert(lex_lt(s@, dv0[j as int]) || j as int == dv0.len());
                    assert(lex_le(dv0[a], s@));
                } else {
                    assert(lex_le(dv0[a], dv0[b - 1]));
                }
            }
        }
    }
}

/// The tags stored for one note, sorted: every tag row of the note appears,
/// duplicates included.
pub fn get_tags_for_note(tag_rows: &Vec<TagRow>, note_id: i64) -> (r: Vec<String>)
    ensures
        sorted_le(r.deep_view()),
        r.deep_view().to_multiset() == tags_of(tag_rows@, note_id),
{
    let mut r: Vec<String> = Vec::new();
    let mut k: usize = 0;
    assert(r.deep_view().to_multiset() =~= tags_of(tag_rows@.subrange(0, 0), note_id));
    while k < tag_rows.len()
        invariant
            k <= tag_rows.len(),
            sorted_le(r.deep_view()),
            r.deep_view().to_multiset() == tags_of(tag_rows@.subrange(0, k as int), note_id),
        decreases tag_rows.len() - k,
    {
        let ghost pre = tag_rows@.subrange(0, k as int);
        if tag_rows[k].note_id == note_id {
            insert_sorted(&mut r, tag_rows[k].tag.clone());
        }
        proof {
            let pre1 = tag_rows@.subrange(0, k + 1);
            assert(pre1.drop_last() =~= pre);
            assert(pre1.last() == tag_rows@[k as int]);
        }
        k = k + 1;
    }
    proof {
        assert(tag_rows@.subrange(0, tag_rows@.len() as int) =~= tag_rows@);
    }
    r
}

pub open spec fn no_dup_paths(s: Seq<NoteRow>) -> bool {
    forall|i: int, j: int| 0 <= i < j < s.len() ==> s[i].path@ != s[j].path@
}

pub open spec fn notes_sorted_lt(s: Seq<NoteRow>) -> bool {
    forall|i: int, j: int| 0 <= i < j < s.len() ==> lex_lt(s[i].path@, s[j].path@)
}

fn insert_note_sorted(v: &mut Vec<NoteRow>, e: NoteRow)
    requires
        notes_sorted_lt(old(v)@),
        forall|k: int| 0 <= k < old(v)@.len() ==> (#[trigger] old(v)@[k]).path@ != e.path@,
    ensures
        notes_sorted_lt(final(v)@),
        final(v)@.to_multiset() == old(v)@.to_multiset().insert(e),
{
    let ghost v0 = v@;
    let mut j: usize = 0;
    while j < v.len()
        invariant
            j <= v.len(),
            v@ == v0,
            notes_sorted_lt(v0),
            forall|k: int| 0 <= k < v0.len() ==> (#[trigger] v0[k]).path@ != e.path@,
            forall|i: int| 0 <= i < j ==> lex_lt((#[trigger] v0[i]).path@, e.path@),
        ensures
            j <= v.len(),
            v@ == v0,
            forall|i: int| 0 <= i < j ==> lex_lt((#[trigger] v0[i]).path@, e.path@),
            j < v.len() ==> lex_lt(e.path@, v0[j as int].path@),
        decreases v.len() - j,
    {
        if str_lt(e.path.as_str(), v[j].path.as_str()) {
            break ;
        }
        proof {
            lemma_lex_total(v0[j as int].path@, e.path@);
        }
        j = j + 1;
    }
    v.insert(j, e);
    proof {
        let nv = v0.insert(j as int, e);
        assert(v@ == nv);
        assert(nv.to_multiset() == v0.to_multiset().insert(e));
        assert forall|a: int, b: int| 0 <= a < b < nv.len() implies lex_lt(
            nv[a].path@,
            nv[b].path@,
        ) by {
            if b < j {
                assert(nv[a] == v0[a] && nv[b] == v0[b]);
            } else if a > j {
                assert(nv[a] == v0[a - 1] && nv[b] == v0[b - 1]);
            } else if a < j && b == j {
                assert(nv[a] == v0[a] && nv[b] == e);
            } else if a == j {
                assert(nv[a] == e && nv[b] == v0[b - 1]);
                if b - 1 > j {
                    lemma_lex_trans(e.path@, v0[j as int].path@, v0[b - 1].path@);
                }
            } else if a < j && b > j {
                assert(nv[a] == v0[a] && nv[b] == v0[b - 1]);
                if b - 1 == j {
                } else {
                    assert(lex_lt(v0[a].path@, v0[b - 1].path@));
                }
            }
        }
    }
}

/// Sorts notes by path; the contents are kept exactly, and with unique paths
/// the order is strict.
fn sort_notes_by_path(input: &Vec<NoteRow>) -> (r: Vec<NoteRow>)
    requires
        no_dup_paths(input@),
    ensures
        notes_sorted_lt(r@),
        r@.to_multiset() == input@.to_multiset(),
{
    let mut r: Vec<NoteRow> = Vec::new();
    let mut i: usize = 0;
    assert(r@.to_multiset() =~= input@.subrange(0, 0).to_multiset());
    while i < input.len()
        invariant
            i <= input.len(),
            no_dup_paths(input@),
            notes_sorted_lt(r@),
            r@.to_multiset() == input@.subrange(0, i as int).to_multiset(),
        decreases input.len() - i,
    {
        let ghost pre = input@.subrange(0, i as int);
        let e = copy_note(&input[i]);
        proof {
            assert forall|k: int| 0 <= k < r@.len() implies (#[trigger] r@[k]).path@ != e.path@ by {
                assert(r@.to_multiset().count(r@[k]) > 0);
                assert(pre.to_multiset().count(r@[k]) > 0);
                assert(pre.contains(r@[k]));
                let m = choose|m: int| 0 <= m < pre.len() && pre[m] == r@[k];
                assert(input@[m] == pre[m]);
                assert(input@[m].path@ != input@[i as int].path@);
            }
        }
        insert_note_sorted(&mut r, e);
        proof {
            let pre1 = input@.subrange(0, i + 1);
            assert(pre1.drop_last() =~= pre);
            assert(pre1 == pre.push(input@[i as int]));
            assert(pre1.to_multiset() == pre.to_multiset().insert(input@[i as int]));
        }
        i = i + 1;
    }
    proof {
        assert(input@.subrange(0, input@.len() as int) =~= input@);
    }
    r
}

/// An entry of a tag query result: it restates a stored note row and carries
/// that note's full sorted tag list.
pub open spec fn result_entry(e: TagResult, notes: Seq<NoteRow>, tag_rows: Seq<TagRow>) -> bool {
    &&& exists|i: int|
        0 <= i < notes.len() && (#[trigger] notes[i]).id == e.note_id && notes[i].path@
            == e.note_path@ && notes[i].title@ == e.note_title@
    &&& sorted_le(e.tags.deep_view())
    &&& e.tags.deep_view().to_multiset() == tags_of(tag_rows, e.note_id)
}

pub open spec fn in_results(r: Seq<TagResult>, id: i64) -> bool {
    exists|k: int| 0 <= k < r.len() && (#[trigger] r[k]).note_id == id
}

/// The result entry `e` restates one row of the selection `sel`.
pub open spec fn entry_from(e: TagResult, sel: Seq<NoteRow>) -> bool {
    exists|m: int|
        0 <= m < sel.len() && e.note_id == (#[trigger] sel[m]).id && e.note_path@ == sel[m].path@
            && e.note_title@ == sel[m].title@
}

/// Some stored tag row carries the tag string `t`.
pub open spec fn tag_in_rows(rows: Seq<TagRow>, t: Seq<char>) -> bool {
    exists|k: int| 0 <= k < rows.len() && (#[trigger] rows[k]).tag@ == t
}

fn build_results(sel: &Vec<NoteRow>, tag_rows: &Vec<TagRow>) -> (r: Vec<TagResult>)
    ensures
        r@.len() == sel@.len(),
        forall|k: int|
            0 <= k < r@.len() ==> (#[trigger] r@[k]).note_id == sel@[k].id && r@[k].note_path@
                == sel@[k].path@ && r@[k].note_title@ == sel@[k].title@ && sorted_le(
                r@[k].tags.deep_view(),
            ) && r@[k].tags.deep_view().to_multiset() == tags_of(tag_rows@, sel@[k].id),
    decreases sel@.len(),
{
    let mut r: Vec<TagResult> = Vec::new();
    let mut k: usize = 0;
    while k < sel.len()
        invariant
            k <= sel.len(),
            r@.len() == k,
            forall|m: int|
                0 <= m < k ==> (#[trigger] r@[m]).note_id == sel@[m].id && r@[m].note_path@
                    == sel@[m].path@ && r@[m].note_title@ == sel@[m].title@ && sorted_le(
                    r@[m].tags.deep_view(),
                ) && r@[m].tags.deep_view().to_multiset() == tags_of(tag_rows@, sel@[m].id),
        decreases sel.len() - k,
    {
        let tags = get_tags_for_note(tag_rows, sel[k].id);
        r.push(TagResult {
            note_id: sel[k].id,
            note_path: sel[k].path.clone(),
            note_title: sel[k].title.clone(),
            tags,
        });
        k = k + 1;
    }
    r
}

/// Notes that carry the given tag, sorted by path, each with its full tag
/// list.
pub fn get_notes_by_tag(notes: &Vec<NoteRow>, tag_rows: &Vec<TagRow>, tag: &String) -> (r: Vec<
    TagResult,
>)
    requires
        wf_notes(notes@),
    ensures
        results_sorted(r@),
        forall|k: int|
            0 <= k < r@.len() ==> result_entry(#[trigger] r@[k], notes@, tag_rows@) && has_tag(
                tag_rows@,
                r@[k].note_id,
                tag@,
            ),
        forall|i: int|
            0 <= i < notes@.len() && has_tag(tag_rows@, (#[trigger] notes@[i]).id, tag@)
                ==> in_results(r@, notes@[i].id),
{
    let mut sel: Vec<NoteRow> = Vec::new();
    let mut i: usize = 0;
    while i < notes.len()
        invariant
            i <= notes.len(),
            wf_notes(notes@),
            no_dup_paths(sel@),
            forall|k: int|
                0 <= k < sel@.len() ==> exists|m: int|
                    0 <= m < i && notes@[m] == (#[trigger] sel@[k]),
            forall|k: int|
                0 <= k < sel@.len() ==> has_tag(tag_rows@, (#[trigger] sel@[k]).id, tag@),
            forall|m: int|
                0 <= m < i && has_tag(tag_rows@, (#[trigger] notes@[m]).id, tag@) ==> sel@.contains(
                    notes@[m],
                ),
        decreases notes.len() - i,
    {
        if note_has_tag(tag_rows, notes[i].id, tag) {
            let e = copy_note(&notes[i]);
            proof {
                assert forall|k: int| 0 <= k < sel@.len() implies (#[trigger] sel@[k]).path@
                    != e.path@ by {
                    let m = choose|m: int| 0 <= m < i && notes@[m] == sel@[k];
                    assert(notes@[m].path@ != notes@[i as int].path@);
                }
            }
            let ghost sel0 = sel@;
            sel.push(e);
            proof {
                assert forall|m: int|
                    0 <= m < i && has_tag(tag_rows@, (#[trigger] notes@[m]).id, tag@) implies sel@
                    .contains(notes@[m]) by {
                    if sel0.contains(notes@[m]) {
                        let kk = choose|kk: int| 0 <= kk < sel0.len() && sel0[kk] == notes@[m];
                        assert(sel@[kk] == notes@[m]);
                    }
                }
                assert(sel@[sel@.len() - 1] == notes@[i as int]);
                assert(sel@.contains(notes@[i as int]));
            }
        }
        i = i + 1;
    }
    let r = finish_query(&sel, notes, tag_rows);
    proof {
        assert forall|k: int| 0 <= k < r@.len() implies result_entry(
            #[trigger] r@[k],
            notes@,
            tag_rows@,
        ) by {
            assert(entry_from(r@[k], sel@));
            let m = choose|m: int|
                0 <= m < sel@.len() && r@[k].note_id == (#[trigger] sel@[m]).id && r@[k].note_path@
                    == sel@[m].path@ && r@[k].note_title@ == sel@[m].title@;
            let n = choose|n: int| 0 <= n < i && notes@[n] == sel@[m];
            assert((#[trigger] notes@[n]).id == r@[k].note_id && notes@[n].path@
                == r@[k].note_path@ && notes@[n].title@ == r@[k].note_title@);
        }
        assert forall|k: int| 0 <= k < r@.len() implies has_tag(
            tag_rows@,
            (#[trigger] r@[k]).note_id,
            tag@,
        ) by {
            assert(entry_from(r@[k], sel@));
            let m = choose|m: int|
                0 <= m < sel@.len() && r@[k].note_id == (#[trigger] sel@[m]).id && r@[k].note_path@
                    == sel@[m].path@ && r@[k].note_title@ == sel@[m].title@;
            assert(has_tag(tag_rows@, sel@[m].id, tag@));
        }
        assert forall|i0: int|
            0 <= i0 < notes@.len() && has_tag(
                tag_rows@,
                (#[trigger] notes@[i0]).id,
                tag@,
            ) implies in_results(r@, notes@[i0].id) by {
            assert(sel@.contains(notes@[i0]));
            let m = choose|m: int| 0 <= m < sel@.len() && sel@[m] == notes@[i0];
            assert(in_results(r@, (#[trigger] sel@[m]).id));
        }
    }
    r
}

/// Notes that carry every one of the given tags, sorted by path, each with
/// its full tag list. An empty request matches nothing.
pub fn get_notes_by_tags_and(notes: &Vec<NoteRow>, tag_rows: &Vec<TagRow>, q: &Vec<String>) -> (r:
    Vec<TagResult>)
    requires
        wf_notes(notes@),
    ensures
        results_sorted(r@),
        forall|k: int|
            0 <= k < r@.len() ==> result_entry(#[trigger] r@[k], notes@, tag_rows@) && and_sat(
                tag_rows@,
                q.deep_view(),
                r@[k].note_id,
            ),
        q.deep_view().len() > 0 ==> forall|i: int|
            0 <= i < notes@.len() && and_sat(tag_rows@, q.deep_view(), (#[trigger] notes@[i]).id)
                ==> in_results(r@, notes@[i].id),
        q.deep_view().len() == 0 ==> r@.len() == 0,
{
    let sel: Vec<NoteRow> = Vec::new();
    if q.len() == 0 {
        return finish_query(&sel, notes, tag_rows);
    }
    if !no_dup_tags(q) {
        return finish_query(&sel, notes, tag_rows);
    }
    let mut sel: Vec<NoteRow> = Vec::new();
    let mut i: usize = 0;
    while i < notes.len()
        invariant
            i <= notes.len(),
            wf_notes(notes@),
            no_dup_strs(q.deep_view()),
            no_dup_paths(sel@),
            forall|k: int|
                0 <= k < sel@.len() ==> exists|m: int|
                    0 <= m < i && notes@[m] == (#[trigger] sel@[k]),
            forall|k: int|
                0 <= k < sel@.len() ==> and_sat(tag_rows@, q.deep_view(), (#[trigger] sel@[k]).id),
            forall|m: int|
                0 <= m < i && and_sat(tag_rows@, q.deep_view(), (#[trigger] notes@[m]).id)
                    ==> sel@.contains(notes@[m]),
        decreases notes.len() - i,
    {
        if has_all_tags(tag_rows, notes[i].id, q) {
            let e = copy_note(&notes[i]);
            proof {
                assert forall|k: int| 0 <= k < sel@.len() implies (#[trigger] sel@[k]).path@
                    != e.path@ by {
                    let m = choose|m: int| 0 <= m < i && notes@[m] == sel@[k];
                    assert(notes@[m].path@ != notes@[i as int].path@);
                }
            }
            let ghost sel0 = sel@;
            sel.push(e);
            proof {
                assert forall|m: int|
                    0 <= m < i && and_sat(
                        tag_rows@,
                        q.deep_view(),
                        (#[trigger] notes@[m]).id,
                    ) implies sel@.contains(notes@[m]) by {
                    if sel0.contains(notes@[m]) {
                        let kk = choose|kk: int| 0 <= kk < sel0.len() && sel0[kk] == notes@[m];
                        assert(sel@[kk] == notes@[m]);
                    }
                }
                assert(sel@[sel@.len() - 1] == notes@[i as int]);
                assert(sel@.contains(notes@[i as int]));
            }
        }
        i = i + 1;
    }
    let r = finish_query(&sel, notes, tag_rows);
    proof {
        assert forall|k: int| 0 <= k < r@.len() implies result_entry(
            #[trigger] r@[k],
            notes@,
            tag_rows@,
        ) by {
            assert(entry_from(r@[k], sel@));
            let m = choose|m: int|
                0 <= m < sel@.len() && r@[k].note_id == (#[trigger] sel@[m]).id && r@[k].note_path@
                    == sel@[m].path@ && r@[k].note_title@ == sel@[m].title@;
            let n = choose|n: int| 0 <= n < i && notes@[n] == sel@[m];
            assert((#[trigger] notes@[n]).id == r@[k].note_id && notes@[n].path@
                == r@[k].note_path@ && notes@[n].title@ == r@[k].note_title@);
        }
        assert forall|k: int| 0 <= k < r@.len() implies and_sat(
            tag_rows@,
            q.deep_view(),
            (#[trigger] r@[k]).note_id,
        ) by {
            assert(entry_from(r@[k], sel@));
            let m = choose|m: int|
                0 <= m < sel@.len() && r@[k].note_id == (#[trigger] sel@[m]).id && r@[k].note_path@
                    == sel@[m].path@ && r@[k].note_title@ == sel@[m].title@;
            assert(and_sat(tag_rows@, q.deep_view(), sel@[m].id));
        }
        assert forall|i0: int|
            0 <= i0 < notes@.len() && and_sat(
                tag_rows@,
                q.deep_view(),
                (#[trigger] notes@[i0]).id,
            ) implies in_results(r@, notes@[i0].id) by {
            assert(sel@.contains(notes@[i0]));
            let m = choose|m: int| 0 <= m < sel@.len() && sel@[m] == notes@[i0];
            assert(in_results(r@, (#[trigger] sel@[m]).id));
        }
    }
    r
}

/// Notes that carry at least one of the given tags, sorted by path, each with
/// its full tag list.
pub fn get_notes_by_tags_or(notes: &Vec<NoteRow>, tag_rows: &Vec<TagRow>, q: &Vec<String>) -> (r:
    Vec<TagResult>)
    requires
        wf_notes(notes@),
    ensures
        results_sorted(r@),
        forall|k: int|
            0 <= k < r@.len() ==> result_entry(#[trigger] r@[k], notes@, tag_rows@) && or_sat(
                tag_rows@,
                q.deep_view(),
                r@[k].note_id,
            ),
        forall|i: int|
            0 <= i < notes@.len() && or_sat(tag_rows@, q.deep_view(), (#[trigger] notes@[i]).id)
                ==> in_results(r@, notes@[i].id),
{
    let mut sel: Vec<NoteRow> = Vec::new();
    let mut i: usize = 0;
    while i < notes.len()
        invariant
            i <= notes.len(),
            wf_notes(notes@),
            no_dup_paths(sel@),
            forall|k: int|
                0 <= k < sel@.len() ==> exists|m: int|
                    0 <= m < i && notes@[m] == (#[trigger] sel@[k]),
            forall|k: int|
                0 <= k < sel@.len() ==> or_sat(tag_rows@, q.deep_view(), (#[trigger] sel@[k]).id),
            forall|m: int|
                0 <= m < i && or_sat(tag_rows@, q.deep_view(), (#[trigger] notes@[m]).id)
                    ==> sel@.contains(notes@[m]),
        decreases notes.len() - i,
    {
        if has_any_tag(tag_rows, notes[i].id, q) {
            let e = copy_note(&notes[i]);
            proof {
                assert forall|k: int| 0 <= k < sel@.len() implies (#[trigger] sel@[k]).path@
                    != e.path@ by {
                    let m = choose|m: int| 0 <= m < i && notes@[m] == sel@[k];
                    assert(notes@[m].path@ != notes@[i as int].path@);
                }
            }
            let ghost sel0 = sel@;
            sel.push(e);
            proof {
                assert forall|m: int|
                    0 <= m < i && or_sat(
                        tag_rows@,
                        q.deep_view(),
                        (#[trigger] notes@[m]).id,
                    ) implies sel@.contains(notes@[m]) by {
                    if sel0.contains(notes@[m]) {
                        let kk = choose|kk: int| 0 <= kk < sel0.len() && sel0[kk] == notes@[m];
                        assert(sel@[kk] == notes@[m]);
                    }
                }
                assert(sel@[sel@.len() - 1] == notes@[i as int]);
                assert(sel@.contains(notes@[i as int]));
            }
        }
        i = i + 1;
    }
    let r = finish_query(&sel, notes, tag_rows);
    proof {
        assert forall|k: int| 0 <= k < r@.len() implies result_entry(
            #[trigger] r@[k],
            notes@,
            tag_rows@,
        ) by {
            assert(entry_from(r@[k], sel@));
            let m = choose|m: int|
                0 <= m < sel@.len() && r@[k].note_id == (#[trigger] sel@[m]).id && r@[k].note_path@
                    == sel@[m].path@ && r@[k].note_title@ == sel@[m].title@;
            let n = choose|n: int| 0 <= n < i && notes@[n] == sel@[m];
            assert((#[trigger] notes@[n]).id == r@[k].note_id && notes@[n].path@
                == r@[k].note_path@ && notes@[n].title@ == r@[k].note_title@);
        }
        assert forall|k: int| 0 <= k < r@.len() implies or_sat(
            tag_rows@,
            q.deep_view(),
            (#[trigger] r@[k]).note_id,
        ) by {
            assert(entry_from(r@[k], sel@));
            let m = choose|m: int|
                0 <= m < sel@.len() && r@[k].note_id == (#[trigger] sel@[m]).id && r@[k].note_path@
                    == sel@[m].path@ && r@[k].note_title@ == sel@[m].title@;
            assert(or_sat(tag_rows@, q.deep_view(), sel@[m].id));
        }
        assert forall|i0: int|
            0 <= i0 < notes@.len() && or_sat(
                tag_rows@,
                q.deep_view(),
                (#[trigger] notes@[i0]).id,
            ) implies in_results(r@, notes@[i0].id) by {
            assert(sel@.contains(notes@[i0]));
            let m = choose|m: int| 0 <= m < sel@.len() && sel@[m] == notes@[i0];
            assert(in_results(r@, (#[trigger] sel@[m]).id));
        }
    }
    r
}

/// Sorts a selection by path and attaches each note's tag list. The result
/// holds exactly the selected notes.
fn finish_query(sel: &Vec<NoteRow>, notes: &Vec<NoteRow>, tag_rows: &Vec<TagRow>) -> (r: Vec<
    TagResult,
>)
    requires
        no_dup_paths(sel@),
    ensures
        results_sorted(r@),
        forall|k: int| 0 <= k < r@.len() ==> entry_from(#[trigger] r@[k], sel@),
        forall|k: int|
            0 <= k < r@.len() ==> sorted_le((#[trigger] r@[k]).tags.deep_view())
                && r@[k].tags.deep_view().to_multiset() == tags_of(tag_rows@, r@[k].note_id),
        forall|m: int|
            0 <= m < sel@.len() ==> in_results(r@, (#[trigger] sel@[m]).id),
        r@.len() == sel@.len(),
{
    let sorted = sort_notes_by_path(sel);
    let r = build_results(&sorted, tag_rows);
    proof {
        assert forall|x: NoteRow| sorted@.contains(x) <==> sel@.contains(x) by {
            assert(sorted@.to_multiset().count(x) == sel@.to_multiset().count(x));
        }
        assert(sorted@.to_multiset().len() == sel@.to_multiset().len());
        assert forall|k: int| 0 <= k < r@.len() implies entry_from(#[trigger] r@[k], sel@) by {
            assert(sorted@.contains(sorted@[k]));
            assert(sel@.contains(sorted@[k]));
            let m = choose|m: int| 0 <= m < sel@.len() && sel@[m] == sorted@[k];
            assert(0 <= m < sel@.len() && r@[k].note_id == (#[trigger] sel@[m]).id
                && r@[k].note_path@ == sel@[m].path@ && r@[k].note_title@ == sel@[m].title@);
        }
        assert forall|m: int| 0 <= m < sel@.len() implies in_results(
            r@,
            (#[trigger] sel@[m]).id,
        ) by {
            assert(sel@.contains(sel@[m]));
            assert(sorted@.contains(sel@[m]));
            let k = choose|k: int| 0 <= k < sorted@.len() && sorted@[k] == sel@[m];
            assert(r@[k].note_id == sel@[m].id);
        }
    }
    r
}

/// Inserts `s` into a strictly sorted vector unless it is already there.
fn insert_sorted_unique(v: &mut Vec<String>, s: String)
    requires
        sorted_lt(old(v).deep_view()),
    ensures
        sorted_lt(final(v).deep_view()),
        forall|t: Seq<char>|
            final(v).deep_view().contains(t) <==> old(v).deep_view().contains(t) || t == s@,
{
    let ghost dv0 = v.deep_view();
    let mut j: usize = 0;
    while j < v.len()
        invariant
            j <= v.len(),
            v.deep_view() == dv0,
            sorted_lt(dv0),
            forall|i: int| 0 <= i < j ==> lex_lt(dv0[i], s@),
        ensures
            j <= v.len(),
            v.deep_view() == dv0,
            forall|i: int| 0 <= i < j ==> lex_lt(dv0[i], s@),
            j < v.len() ==> !lex_lt(dv0[j as int], s@),
        decreases v.len() - j,
    {
        if !str_lt(v[j].as_str(), s.as_str()) {
            break ;
        }
        j = j + 1;
    }
    if j < v.len() && v[j] == s {
        proof {
            assert(dv0[j as int] == s@);
            assert(dv0.contains(s@));
        }
        return ;
    }
    proof {
        if j < v.len() {
            assert(v@[j as int]@ != s@);
            assert(dv0[j as int] != s@);
            lemma_lex_total(s@, dv0[j as int]);
        }
    }
    v.insert(j, s);
    proof {
        assert(v.deep_view() =~~= dv0.insert(j as int, s@));
        let dv = dv0.insert(j as int, s@);
        assert forall|a: int, b: int| 0 <= a < b < dv.len() implies lex_lt(dv[a], dv[b]) by {
            if b < j {
                assert(dv[a] == dv0[a] && dv[b] == dv0[b]);
            } else if a > j {
                assert(dv[a] == dv0[a - 1] && dv[b] == dv0[b - 1]);
            } else if a < j && b == j {
                assert(dv[a] == dv0[a] && dv[b] == s@);
            } else if a == j {
                assert(dv[a] == s@ && dv[b] == dv0[b - 1]);
                if b - 1 > j {
                    lemma_lex_trans(s@, dv0[j as int], dv0[b - 1]);
                }
            } else if a < j && b > j {
                assert(dv[a] == dv0[a] && dv[b] == dv0[b - 1]);
                if b - 1 == j {
                    lemma_lex_trans(dv0[a], s@, dv0[j as int]);
                } else {
                    assert(lex_lt(dv0[a], dv0[b - 1]));
                }
            }
        }
        assert forall|t: Seq<char>| dv.contains(t) <==> dv0.contains(t) || t == s@ by {
            if dv.contains(t) {
                let m = choose|m: int| 0 <= m < dv.len() && dv[m] == t;
                if m < j {
                    assert(dv0[m] == t);
                } else if m > j {
                    assert(dv0[m - 1] == t);
                }
            }
            if dv0.contains(t) {
                let m = choose|m: int| 0 <= m < dv0.len() && dv0[m] == t;
                if m < j {
                    assert(dv[m] == t);
                } else {
                    assert(dv[m + 1] == t);
                }
            }
            if t == s@ {
                assert(dv[j as int] == t);
            }
        }
    }
}

/// Every distinct tag in the vault, sorted.
pub fn list_tags(tag_rows: &Vec<TagRow>) -> (r: Vec<String>)
    ensures
        sorted_lt(r.deep_view()),
        forall|i: int|
            0 <= i < r.deep_view().len() ==> tag_in_rows(tag_rows@, #[trigger] r.deep_view()[i]),
        forall|k: int|
            0 <= k < tag_rows@.len() ==> r.deep_view().contains((#[trigger] tag_rows@[k]).tag@),
{
    let mut r: Vec<String> = Vec::new();
    let mut k: usize = 0;
    while k < tag_rows.len()
        invariant
            k <= tag_rows.len(),
            sorted_lt(r.deep_view()),
            forall|i: int|
                0 <= i < r.deep_view().len() ==> tag_in_rows(tag_rows@, #[trigger] r.deep_view()[i]),
            forall|m: int|
                0 <= m < k ==> r.deep_view().contains((#[trigger] tag_rows@[m]).tag@),
        decreases tag_rows.len() - k,
    {
        let ghost dv_before = r.deep_view();
        insert_sorted_unique(&mut r, tag_rows[k].tag.clone());
        proof {
            assert(r.deep_view().contains(tag_rows@[k as int].tag@));
            assert forall|i: int| 0 <= i < r.deep_view().len() implies tag_in_rows(
                tag_rows@,
                #[trigger] r.deep_view()[i],
            ) by {
                let t = r.deep_view()[i];
                assert(r.deep_view().contains(t));
                if dv_before.contains(t) {
                    let p = choose|p: int| 0 <= p < dv_before.len() && dv_before[p] == t;
                    assert(tag_in_rows(tag_rows@, dv_before[p]));
                } else {
                    assert(t == tag_rows@[k as int].tag@);
                    assert((#[trigger] tag_rows@[k as int]).tag@ == t);
                }
            }
        }
        k = k + 1;
    }
    r
}

/// Tag algebra, AND side: a note that satisfies the larger tag set satisfies
/// every duplicate-free subset of it, so enlarging an AND query can only
/// shrink its result.
pub proof fn lemma_and_antitone(tag_rows: Seq<TagRow>, a: Seq<Seq<char>>, b: Seq<Seq<char>>, id: i64)
    requires
        no_dup_strs(a),
        forall|i: int| 0 <= i < a.len() ==> b.contains(#[trigger] a[i]),
        and_sat(tag_rows, b, id),
    ensures
        and_sat(tag_rows, a, id),
{
    assert forall|k: int| 0 <= k < a.len() implies has_tag(tag_rows, id, a[k]) by {
        assert(b.contains(a[k]));
        let m = choose|m: int| 0 <= m < b.len() && b[m] == a[k];
        assert(has_tag(tag_rows, id, b[m]));
    }
}

/// Tag algebra, OR side: a note that satisfies the smaller tag set satisfies
/// every superset of it, so enlarging an OR query can only grow its result.
pub proof fn lemma_or_monotone(tag_rows: Seq<TagRow>, a: Seq<Seq<char>>, b: Seq<Seq<char>>, id: i64)
    requires
        forall|i: int| 0 <= i < a.len() ==> b.contains(#[trigger] a[i]),
        or_sat(tag_rows, a, id),
    ensures
        or_sat(tag_rows, b, id),
{
    let k = choose|k: int| 0 <= k < a.len() && has_tag(tag_rows, id, a[k]);
    assert(b.contains(a[k]));
    let m = choose|m: int| 0 <= m < b.len() && b[m] == a[k];
    assert(has_tag(tag_rows, id, b[m]));
}

/// Every note in the AND result for the larger tag set also stands in the
/// AND result for a duplicate-free subset, given the two results' contracts.
pub proof fn lemma_and_results_antitone(
    r_a: Seq<TagResult>,
    r_b: Seq<TagResult>,
    notes: Seq<NoteRow>,
    tag_rows: Seq<TagRow>,
    a: Seq<Seq<char>>,
    b: Seq<Seq<char>>,
)
    requires
        a.len() > 0,
        no_dup_strs(a),
        forall|i: int| 0 <= i < a.len() ==> b.contains(#[trigger] a[i]),
        forall|k: int|
            0 <= k < r_b.len() ==> result_entry(#[trigger] r_b[k], notes, tag_rows) && and_sat(
                tag_rows,
                b,
                r_b[k].note_id,
            ),
        forall|i: int|
            0 <= i < notes.len() && and_sat(tag_rows, a, (#[trigger] notes[i]).id) ==> in_results(
                r_a,
                notes[i].id,
            ),
    ensures
        forall|k: int| 0 <= k < r_b.len() ==> in_results(r_a, (#[trigger] r_b[k]).note_id),
{
    assert forall|k: int| 0 <= k < r_b.len() implies in_results(r_a, (#[trigger] r_b[k]).note_id) by {
        assert(result_entry(r_b[k], notes, tag_rows));
        let i = choose|i: int|
            0 <= i < notes.len() && (#[trigger] notes[i]).id == r_b[k].note_id && notes[i].path@
                == r_b[k].note_path@ && notes[i].title@ == r_b[k].note_title@;
        lemma_and_antitone(tag_rows, a, b, notes[i].id);
    }
}

/// Every note in the OR result for the smaller tag set also stands in the OR
/// result for a superset, given the two results' contracts.
pub proof fn lemma_or_results_monotone(
    r_a: Seq<TagResult>,
    r_b: Seq<TagResult>,
    notes: Seq<NoteRow>,
    tag_rows: Seq<TagRow>,
    a: Seq<Seq<char>>,
    b: Seq<Seq<char>>,
)
    requires
        forall|i: int| 0 <= i < a.len() ==> b.contains(#[trigger] a[i]),
        forall|k: int|
            0 <= k < r_a.len() ==> result_entry(#[trigger] r_a[k], notes, tag_rows) && or_sat(
                tag_rows,
                a,
                r_a[k].note_id,
            ),
        forall|i: int|
            0 <= i < notes.len() && or_sat(tag_rows, b, (#[trigger] notes[i]).id) ==> in_results(
                r_b,
                notes[i].id,
            ),
    ensures
        forall|k: int| 0 <= k < r_a.len() ==> in_results(r_b, (#[trigger] r_a[k]).note_id),
{
    assert forall|k: int| 0 <= k < r_a.len() implies in_results(r_b, (#[trigger] r_a[k]).note_id) by {
        assert(result_entry(r_a[k], notes, tag_rows));
        let i = choose|i: int|
            0 <= i < notes.len() && (#[trigger] notes[i]).id == r_a[k].note_id && notes[i].path@
                == r_a[k].note_path@ && notes[i].title@ == r_a[k].note_title@;
        lemma_or_monotone(tag_rows, a, b, notes[i].id);
    }
}

} // verus!
