use vstd::prelude::*;
use vstd::string::StrSliceExecFns;
use crate::store::{Store, StoreNote, Link};

verus! {

/// Whether a link counts toward connectivity: embeds count only when asked.
pub open spec fn counts_link(l: Link, include_embeds: bool) -> bool {
    include_embeds || !l.embed
}

pub open spec fn has_incoming(links: Seq<Link>, id: i64, include_embeds: bool) -> bool {
    exists|k: int|
        0 <= k < links.len() && (#[trigger] links[k]).dest == Some(id) && counts_link(
            links[k],
            include_embeds,
        )
}

pub open spec fn has_outgoing(links: Seq<Link>, id: i64, include_embeds: bool) -> bool {
    exists|k: int|
        0 <= k < links.len() && (#[trigger] links[k]).source == id && counts_link(
            links[k],
            include_embeds,
        )
}

/// An orphan has neither incoming nor outgoing links that count.
pub open spec fn is_orphan(links: Seq<Link>, id: i64, include_embeds: bool) -> bool {
    !has_incoming(links, id, include_embeds) && !has_outgoing(links, id, include_embeds)
}

/// A dead end has at least one incoming link that counts and no outgoing one.
pub open spec fn is_dead_end(links: Seq<Link>, id: i64, include_embeds: bool) -> bool {
    has_incoming(links, id, include_embeds) && !has_outgoing(links, id, include_embeds)
}

pub open spec fn is_prefix(p: Seq<char>, s: Seq<char>) -> bool {
    p.len() <= s.len() && s.subrange(0, p.len() as int) == p
}

/// A path is excluded when some configured pattern is a prefix of it.
pub open spec fn path_excluded(pats: Seq<Seq<char>>, path: Seq<char>) -> bool {
    exists|k: int| 0 <= k < pats.len() && is_prefix(#[trigger] pats[k], path)
}

/// Orphan/dead-end partition: with respect to one link table and one embed
/// toggle, every note falls in exactly one of the four connectivity classes:
/// orphans, dead ends, notes with both directions, and notes with outgoing
/// links only.
pub proof fn lemma_diagnostic_partition(links: Seq<Link>, id: i64, include_embeds: bool)
    ensures
        is_orphan(links, id, include_embeds) || is_dead_end(links, id, include_embeds) || (
        has_incoming(links, id, include_embeds) && has_outgoing(links, id, include_embeds)) || (
        !has_incoming(links, id, include_embeds) && has_outgoing(links, id, include_embeds)),
        is_orphan(links, id, include_embeds) ==> !is_dead_end(links, id, include_embeds)
            && !has_outgoing(links, id, include_embeds),
        is_dead_end(links, id, include_embeds) ==> !is_orphan(links, id, include_embeds)
            && !has_outgoing(links, id, include_embeds) && has_incoming(links, id, include_embeds),
        !(is_orphan(links, id, include_embeds) && has_incoming(links, id, include_embeds)),
        !(is_dead_end(links, id, include_embeds) && has_outgoing(links, id, include_embeds)),
{
}

/// Whether `p` is a character prefix of `s`.
pub fn str_starts_with(p: &str, s: &str) -> (r: bool)
    ensures
        r == is_prefix(p@, s@),
{
    let pl = p.unicode_len();
    let sl = s.unicode_len();
    if pl > sl {
        return false;
    }
    let mut i: usize = 0;
    while i < pl
        invariant
            i <= pl,
            pl == p@.len(),
            pl <= sl == s@.len(),
            forall|k: int| 0 <= k < i ==> p@[k] == s@[k],
        decreases pl - i,
    {
        if p.get_char(i) != s.get_char(i) {
            assert(s@.subrange(0, p@.len() as int)[i as int] != p@[i as int]);
            return false;
        }
        i = i + 1;
    }
    assert(s@.subrange(0, p@.len() as int) =~= p@);
    true
}

/// Whether any configured exclusion pattern is a prefix of the path.
pub fn path_is_excluded(pats: &Vec<String>, path: &String) -> (r: bool)
    ensures
        r == path_excluded(pats.deep_view(), path@),
{
    let mut k: usize = 0;
    while k < pats.len()
        invariant
            k <= pats.len(),
            forall|i: int| 0 <= i < k ==> !is_prefix(#[trigger] pats.deep_view()[i], path@),
        decreases pats.len() - k,
    {
        if str_starts_with(pats[k].as_str(), path.as_str()) {
            assert(pats.deep_view()[k as int] == pats@[k as int]@);
            return true;
        }
        assert(pats.deep_view()[k as int] == pats@[k as int]@);
        k = k + 1;
    }
    false
}

fn has_incoming_links(links: &Vec<Link>, id: i64, include_embeds: bool) -> (r: bool)
    ensures
        r == has_incoming(links@, id, include_embeds),
{
    let mut k: usize = 0;
    while k < links.len()
        invariant
            k <= links.len(),
            forall|i: int|
                0 <= i < k ==> !((#[trigger] links@[i]).dest == Some(id) && counts_link(
                    links@[i],
                    include_embeds,
                )),
        decreases links.len() - k,
    {
        let counts = include_embeds || !links[k].embed;
        if counts {
            match links[k].dest {
                Some(d) => {
                    if d == id {
                        return true;
                    }
                },
                None => {},
            }
        }
        k = k + 1;
    }
    false
}

fn has_outgoing_links(links: &Vec<Link>, id: i64, include_embeds: bool) -> (r: bool)
    ensures
        r == has_outgoing(links@, id, include_embeds),
{
    let mut k: usize = 0;
    while k < links.len()
        invariant
            k <= links.len(),
            forall|i: int|
                0 <= i < k ==> !((#[trigger] links@[i]).source == id && counts_link(
                    links@[i],
                    include_embeds,
                )),
        decreases links.len() - k,
    {
        let counts = include_embeds || !links[k].embed;
        if counts && links[k].source == id {
            return true;
        }
        k = k + 1;
    }
    false
}

/// Eligibility of one note for the orphan report under the two toggles.
pub open spec fn orphan_eligible(
    n: StoreNote,
    links: Seq<Link>,
    pats: Seq<Seq<char>>,
    include_embeds: bool,
    apply_exclusions: bool,
) -> bool {
    is_orphan(links, n.id, include_embeds) && (apply_exclusions ==> !path_excluded(pats, n.path@))
}

/// Eligibility of one note for the dead-end report under the two toggles.
pub open spec fn dead_end_eligible(
    n: StoreNote,
    links: Seq<Link>,
    pats: Seq<Seq<char>>,
    include_embeds: bool,
    apply_exclusions: bool,
) -> bool {
    is_dead_end(links, n.id, include_embeds) && (apply_exclusions ==> !path_excluded(pats, n.path@))
}

/// The identifiers of the orphan-eligible notes, in stored order.
pub open spec fn orphan_ids(
    notes: Seq<StoreNote>,
    links: Seq<Link>,
    pats: Seq<Seq<char>>,
    include_embeds: bool,
    apply_exclusions: bool,
) -> Seq<i64>
    decreases notes.len(),
{
    if notes.len() == 0 {
        Seq::empty()
    } else {
        let rest = orphan_ids(notes.drop_last(), links, pats, include_embeds, apply_exclusions);
        if orphan_eligible(notes.last(), links, pats, include_embeds, apply_exclusions) {
            rest.push(notes.last().id)
        } else {
            rest
        }
    }
}

/// The identifiers of the dead-end notes, in stored order.
pub open spec fn dead_end_ids(
    notes: Seq<StoreNote>,
    links: Seq<Link>,
    pats: Seq<Seq<char>>,
    include_embeds: bool,
    apply_exclusions: bool,
) -> Seq<i64>
    decreases notes.len(),
{
    if notes.len() == 0 {
        Seq::empty()
    } else {
        let rest = dead_end_ids(notes.drop_last(), links, pats, include_embeds, apply_exclusions);
        if dead_end_eligible(notes.last(), links, pats, include_embeds, apply_exclusions) {
            rest.push(notes.last().id)
        } else {
            rest
        }
    }
}

/// Notes with no incoming and no outgoing links, under the embed and
/// exclusion toggles, in stored order.
pub fn find_orphans(
    store: &Store,
    pats: &Vec<String>,
    include_embeds: bool,
    apply_exclusions: bool,
) -> (r: Vec<i64>)
    ensures
        r@ == orphan_ids(store.notes@, store.links@, pats.deep_view(), include_embeds, apply_exclusions),
{
    let mut r: Vec<i64> = Vec::new();
    let mut i: usize = 0;
    assert(r@ =~= orphan_ids(
        store.notes@.subrange(0, 0),
        store.links@,
        pats.deep_view(),
        include_embeds,
        apply_exclusions,
    ));
    while i < store.notes.len()
        invariant
            i <= store.notes.len(),
            r@ == orphan_ids(
                store.notes@.subrange(0, i as int),
                store.links@,
                pats.deep_view(),
                include_embeds,
                apply_exclusions,
            ),
        decreases store.notes.len() - i,
    {
        let n = &store.notes[i];
        let inc = has_incoming_links(&store.links, n.id, include_embeds);
        let out = has_outgoing_links(&store.links, n.id, include_embeds);
        let keep = !inc && !out && (!apply_exclusions || !path_is_excluded(pats, &n.path));
        if keep {
            r.push(n.id);
        }
        proof {
            let pre1 = store.notes@.subrange(0, i + 1);
            assert(pre1.drop_last() =~= store.notes@.subrange(0, i as int));
            assert(pre1.last() == store.notes@[i as int]);
        }
        i = i + 1;
    }
    proof {
        assert(store.notes@.subrange(0, store.notes@.len() as int) =~= store.notes@);
    }
    r
}

/// Notes with at least one incoming link and no outgoing one, under the embed
/// and exclusion toggles, in stored order.
pub fn find_dead_ends(
    store: &Store,
    pats: &Vec<String>,
    include_embeds: bool,
    apply_exclusions: bool,
) -> (r: Vec<i64>)
    ensures
        r@ == dead_end_ids(store.notes@, store.links@, pats.deep_view(), include_embeds, apply_exclusions),
{
    let mut r: Vec<i64> = Vec::new();
    let mut i: usize = 0;
    assert(r@ =~= dead_end_ids(
        store.notes@.subrange(0, 0),
        store.links@,
        pats.deep_view(),
        include_embeds,
        apply_exclusions,
    ));
    while i < store.notes.len()
        invariant
            i <= store.notes.len(),
            r@ == dead_end_ids(
                store.notes@.subrange(0, i as int),
                store.links@,
                pats.deep_view(),
                include_embeds,
                apply_exclusions,
            ),
        decreases store.notes.len() - i,
    {
        let n = &store.notes[i];
        let inc = has_incoming_links(&store.links, n.id, include_embeds);
        let out = has_outgoing_links(&store.links, n.id, include_embeds);
        let keep = inc && !out && (!apply_exclusions || !path_is_excluded(pats, &n.path));
        if keep {
            r.push(n.id);
        }
        proof {
            let pre1 = store.notes@.subrange(0, i + 1);
            assert(pre1.drop_last() =~= store.notes@.subrange(0, i as int));
            assert(pre1.last() == store.notes@[i as int]);
        }
        i = i + 1;
    }
    proof {
        assert(store.notes@.subrange(0, store.notes@.len() as int) =~= store.notes@);
    }
    r
}

fn copy_opt_string(o: &Option<String>) -> (r: Option<String>)
    ensures
        r == *o,
{
    match o {
        Some(s) => Some(s.clone()),
        None => None,
    }
}

/// An exact copy of a stored link row.
pub fn copy_link(l: &Link) -> (r: Link)
    ensures
        r == *l,
{
    Link {
        source: l.source,
        dest: l.dest,
        dest_text: l.dest_text.clone(),
        kind: l.kind,
        embed: l.embed,
        alias: copy_opt_string(&l.alias),
        heading: copy_opt_string(&l.heading),
        block: copy_opt_string(&l.block),
    }
}

/// The links whose destination is still null after resolution, in stored
/// order: each carries its source note and the raw destination text.
pub open spec fn broken_of(links: Seq<Link>) -> Seq<Link>
    decreases links.len(),
{
    if links.len() == 0 {
        Seq::empty()
    } else {
        let rest = broken_of(links.drop_last());
        if links.last().dest is None {
            rest.push(links.last())
        } else {
            rest
        }
    }
}

/// Links whose destination resolves to the given note, in stored order.
pub open spec fn backlinks_of(links: Seq<Link>, id: i64) -> Seq<Link>
    decreases links.len(),
{
    if links.len() == 0 {
        Seq::empty()
    } else {
        let rest = backlinks_of(links.drop_last(), id);
        if links.last().dest == Some(id) {
            rest.push(links.last())
        } else {
            rest
        }
    }
}

/// Links whose source is the given note, in stored order.
pub open spec fn forward_links_of(links: Seq<Link>, id: i64) -> Seq<Link>
    decreases links.len(),
{
    if links.len() == 0 {
        Seq::empty()
    } else {
        let rest = forward_links_of(links.drop_last(), id);
        if links.last().source == id {
            rest.push(links.last())
        } else {
            rest
        }
    }
}

/// All broken links of the store.
pub fn get_unresolved_links(store: &Store) -> (r: Vec<Link>)
    ensures
        r@ == broken_of(store.links@),
{
    let mut r: Vec<Link> = Vec::new();
    let mut i: usize = 0;
    assert(r@ =~= broken_of(store.links@.subrange(0, 0)));
    while i < store.links.len()
        invariant
            i <= store.links.len(),
            r@ == broken_of(store.links@.subrange(0, i as int)),
        decreases store.links.len() - i,
    {
        if store.links[i].dest.is_none() {
            r.push(copy_link(&store.links[i]));
        }
        proof {
            let pre1 = store.links@.subrange(0, i + 1);
            assert(pre1.drop_last() =~= store.links@.subrange(0, i as int));
            assert(pre1.last() == store.links@[i as int]);
        }
        i = i + 1;
    }
    proof {
        assert(store.links@.subrange(0, store.links@.len() as int) =~= store.links@);
    }
    r
}

/// All links pointing at the given note.
pub fn get_backlinks(store: &Store, id: i64) -> (r: Vec<Link>)
    ensures
        r@ == backlinks_of(store.links@, id),
{
    let mut r: Vec<Link> = Vec::new();
    let mut i: usize = 0;
    assert(r@ =~= backlinks_of(store.links@.subrange(0, 0), id));
    while i < store.links.len()
        invariant
            i <= store.links.len(),
            r@ == backlinks_of(store.links@.subrange(0, i as int), id),
        decreases store.links.len() - i,
    {
        let keep = match store.links[i].dest {
            Some(d) => d == id,
            None => false,
        };
        if keep {
            r.push(copy_link(&store.links[i]));
        }
        proof {
            let pre1 = store.links@.subrange(0, i + 1);
            assert(pre1.drop_last() =~= store.links@.subrange(0, i as int));
            assert(pre1.last() == store.links@[i as int]);
        }
        i = i + 1;
    }
    proof {
        assert(store.links@.subrange(0, store.links@.len() as int) =~= store.links@);
    }
    r
}

/// All links leaving the given note.
pub fn get_forward_links(store: &Store, id: i64) -> (r: Vec<Link>)
    ensures
        r@ == forward_links_of(store.links@, id),
{
    let mut r: Vec<Link> = Vec::new();
    let mut i: usize = 0;
    assert(r@ =~= forward_links_of(store.links@.subrange(0, 0), id));
    while i < store.links.len()
        invariant
            i <= store.links.len(),
            r@ == forward_links_of(store.links@.subrange(0, i as int), id),
        decreases store.links.len() - i,
    {
        if store.links[i].source == id {
            r.push(copy_link(&store.links[i]));
        }
        proof {
            let pre1 = store.links@.subrange(0, i + 1);
            assert(pre1.drop_last() =~= store.links@.subrange(0, i as int));
            assert(pre1.last() == store.links@[i as int]);
        }
        i = i + 1;
    }
    proof {
        assert(store.links@.subrange(0, store.links@.len() as int) =~= store.links@);
    }
    r
}

/// `q` occurs in `t` as a contiguous run of characters.
pub open spec fn has_substring(t: Seq<char>, q: Seq<char>) -> bool {
    exists|i: int| 0 <= i <= t.len() - q.len() && #[trigger] t.subrange(i, i + q.len()) == q
}

fn match_at(t: &str, q: &str, i: usize) -> (r: bool)
    requires
        i + q@.len() <= t@.len(),
    ensures
        r == (t@.subrange(i as int, i as int + q@.len()) == q@),
{
    let ql = q.unicode_len();
    let tl = t.unicode_len();
    let mut j: usize = 0;
    while j < ql
        invariant
            j <= ql,
            ql == q@.len(),
            tl == t@.len(),
            i + ql <= tl,
            forall|k: int| 0 <= k < j ==> t@[i + k] == q@[k],
        decreases ql - j,
    {
        if t.get_char(i + j) != q.get_char(j) {
            assert(t@.subrange(i as int, i as int + q@.len())[j as int] != q@[j as int]);
            return false;
        }
        j = j + 1;
    }
    assert(t@.subrange(i as int, i as int + q@.len()) =~= q@);
    true
}

/// Whether the query occurs in the text, by characters.
pub fn contains_sub(t: &str, q: &str) -> (r: bool)
    ensures
        r == has_substring(t@, q@),
{
    let tl = t.unicode_len();
    let ql = q.unicode_len();
    if ql > tl {
        return false;
    }
    if ql == 0 {
        proof {
            assert(t@.subrange(0, 0 + q@.len() as int) =~= q@);
            assert(has_substring(t@, q@));
        }
        return true;
    }
    let mut i: usize = 0;
    while i <= tl - ql
        invariant
            1 <= ql <= tl,
            tl == t@.len(),
            ql == q@.len(),
            i <= tl - ql + 1,
            forall|m: int| 0 <= m < i ==> #[trigger] t@.subrange(m, m + q@.len()) != q@,
        decreases tl - ql + 1 - i,
    {
        if match_at(t, q, i) {
            return true;
        }
        i = i + 1;
    }
    false
}

/// The chunks whose text holds the query, in stored order.
pub open spec fn search_spec(chunks: Seq<crate::store::ChunkRow>, q: Seq<char>) -> Seq<
    crate::store::ChunkRow,
>
    decreases chunks.len(),
{
    if chunks.len() == 0 {
        Seq::empty()
    } else {
        let rest = search_spec(chunks.drop_last(), q);
        if has_substring(chunks.last().text@, q) {
            rest.push(chunks.last())
        } else {
            rest
        }
    }
}

fn copy_chunk(c: &crate::store::ChunkRow) -> (r: crate::store::ChunkRow)
    ensures
        r == *c,
{
    crate::store::ChunkRow { note_id: c.note_id, idx: c.idx, text: c.text.clone() }
}

/// Chunk search: the first `limit` chunks whose text holds the query, in
/// stored order — deterministic for a fixed store and query.
pub fn search_chunks(store: &Store, q: &String, limit: usize) -> (r: Vec<crate::store::ChunkRow>)
    ensures
        ({
            let full = search_spec(store.chunks@, q@);
            r@ == full.subrange(0, if full.len() <= limit { full.len() as int } else { limit as int })
        }),
{
    let mut r: Vec<crate::store::ChunkRow> = Vec::new();
    let mut i: usize = 0;
    assert(r@ =~= search_spec(store.chunks@.subrange(0, 0), q@));
    while i < store.chunks.len()
        invariant
            i <= store.chunks.len(),
            r@ == search_spec(store.chunks@.subrange(0, i as int), q@),
        decreases store.chunks.len() - i,
    {
        if contains_sub(store.chunks[i].text.as_str(), q.as_str()) {
            r.push(copy_chunk(&store.chunks[i]));
        }
        proof {
            let pre1 = store.chunks@.subrange(0, i + 1);
            assert(pre1.drop_last() =~= store.chunks@.subrange(0, i as int));
            assert(pre1.last() == store.chunks@[i as int]);
        }
        i = i + 1;
    }
    proof {
        assert(store.chunks@.subrange(0, store.chunks@.len() as int) =~= store.chunks@);
    }
    let ghost full = search_spec(store.chunks@, q@);
    assert(r@ == full);
    assert(r@ =~= full.subrange(0, full.len() as int));
    while r.len() > limit
        invariant
            r.len() <= full.len(),
            r@ == full.subrange(0, r.len() as int),
            full.len() <= limit ==> r.len() == full.len(),
            full.len() > limit ==> r.len() >= limit,
        decreases r.len(),
    {
        proof {
            assert(full.subrange(0, r.len() as int).drop_last() =~= full.subrange(
                0,
                r.len() - 1,
            ));
        }
        r.pop();
    }
    proof {
        if full.len() <= limit {
            assert(r@ =~= full.subrange(0, full.len() as int));
        }
    }
    r
}

/// One expansion step: every resolved destination of a link leaving `from`.
pub open spec fn step_set(links: Seq<Link>, from: Set<i64>) -> Set<i64> {
    Set::new(
        |d: i64|
            exists|k: int|
                0 <= k < links.len() && from.contains((#[trigger] links[k]).source) && links[k].dest
                    == Some(d),
    )
}

/// The notes reachable from `start` through forward links in at most `depth`
/// steps.
pub open spec fn reach_set(links: Seq<Link>, start: i64, depth: nat) -> Set<i64>
    decreases depth,
{
    if depth == 0 {
        Set::empty().insert(start)
    } else {
        let prev = reach_set(links, start, (depth - 1) as nat);
        prev.union(step_set(links, prev))
    }
}

fn vec_contains_i64(v: &Vec<i64>, x: i64) -> (r: bool)
    ensures
        r == v@.contains(x),
{
    let mut k: usize = 0;
    while k < v.len()
        invariant
            k <= v.len(),
            forall|i: int| 0 <= i < k ==> v@[i] != x,
        decreases v.len() - k,
    {
        if v[k] == x {
            return true;
        }
        k = k + 1;
    }
    false
}

/// Bounded breadth-first expansion from a note through forward links: the
/// result holds each note reachable within `depth` steps exactly once, so a
/// cyclic link graph is walked safely.
pub fn graph_reach(store: &Store, start: i64, depth: usize) -> (r: Vec<i64>)
    ensures
        forall|x: i64| r@.contains(x) <==> reach_set(store.links@, start, depth as nat).contains(x),
        forall|i: int, j: int| 0 <= i < j < r@.len() ==> r@[i] != r@[j],
{
    let mut acc: Vec<i64> = Vec::new();
    acc.push(start);
    let mut d: usize = 0;
    assert(forall|x: i64|
        acc@.contains(x) <==> reach_set(store.links@, start, 0).contains(x)) by {
        assert(acc@[0] == start);
    }
    while d < depth
        invariant
            d <= depth,
            forall|x: i64|
                acc@.contains(x) <==> reach_set(store.links@, start, d as nat).contains(x),
            forall|i: int, j: int| 0 <= i < j < acc@.len() ==> acc@[i] != acc@[j],
        decreases depth - d,
    {
        let ghost prev = reach_set(store.links@, start, d as nat);
        let mut next: Vec<i64> = Vec::new();
        let mut m: usize = 0;
        while m < acc.len()
            invariant
                m <= acc.len(),
                next@.len() == m,
                forall|i: int| 0 <= i < m ==> next@[i] == acc@[i],
            decreases acc.len() - m,
        {
            next.push(acc[m]);
            m = m + 1;
        }
        assert(next@ =~= acc@);
        let mut k: usize = 0;
        while k < store.links.len()
            invariant
                k <= store.links.len(),
                forall|x: i64|
                    next@.contains(x) <==> acc@.contains(x) || (exists|kk: int|
                        0 <= kk < k && prev.contains((#[trigger] store.links@[kk]).source)
                            && store.links@[kk].dest == Some(x)),
                forall|i: int, j: int| 0 <= i < j < next@.len() ==> next@[i] != next@[j],
                forall|x: i64| acc@.contains(x) <==> prev.contains(x),
                forall|i: int, j: int| 0 <= i < j < acc@.len() ==> acc@[i] != acc@[j],
            decreases store.links.len() - k,
        {
            let ghost lk = store.links@[k as int];
            let ghost nbefore = next@;
            let in_acc = vec_contains_i64(&acc, store.links[k].source);
            if in_acc {
                match store.links[k].dest {
                    Some(t) => {
                        if !vec_contains_i64(&next, t) {
                            let ghost next0 = next@;
                            next.push(t);
                            proof {
                                assert(next@[next@.len() - 1] == t);
                                assert forall|x: i64| next@.contains(x) implies next0.contains(x)
                                    || x == t by {
                                    let w = choose|w: int| 0 <= w < next@.len() && next@[w] == x;
                                    if w < next@.len() - 1 {
                                        assert(next0[w] == x);
                                    }
                                }
                                assert forall|x: i64| next0.contains(x) implies next@.contains(
                                    x,
                                ) by {
                                    let w = choose|w: int| 0 <= w < next0.len() && next0[w] == x;
                                    assert(next@[w] == x);
                                }
                            }
                        }
                        proof {
                            assert(prev.contains(lk.source));
                            assert(lk.dest == Some(t));
                            assert(next@.contains(t));
                        }
                    },
                    None => {},
                }
            }
            proof {
                assert forall|x: i64| next@.contains(x) implies acc@.contains(x) || (exists|kk: int|
                    0 <= kk < k + 1 && prev.contains((#[trigger] store.links@[kk]).source)
                        && store.links@[kk].dest == Some(x)) by {
                    if nbefore.contains(x) {
                        if !acc@.contains(x) {
                            let kk = choose|kk: int|
                                0 <= kk < k && prev.contains((#[trigger] store.links@[kk]).source)
                                    && store.links@[kk].dest == Some(x);
                            assert(0 <= kk < k + 1 && prev.contains(store.links@[kk].source)
                                && store.links@[kk].dest == Some(x));
                        }
                    } else {
                        assert(lk.dest == Some(x) && prev.contains(lk.source));
                        assert(0 <= k < k + 1 && prev.contains(store.links@[k as int].source)
                            && store.links@[k as int].dest == Some(x));
                    }
                }
                assert forall|x: i64|
                    acc@.contains(x) || (exists|kk: int|
                        0 <= kk < k + 1 && prev.contains((#[trigger] store.links@[kk]).source)
                            && store.links@[kk].dest == Some(x)) implies next@.contains(x) by {
                    if acc@.contains(x) {
                        assert(nbefore.contains(x));
                        assert(next@.contains(x));
                    } else {
                        let kk = choose|kk: int|
                            0 <= kk < k + 1 && prev.contains((#[trigger] store.links@[kk]).source)
                                && store.links@[kk].dest == Some(x);
                        if kk < k {
                            assert(nbefore.contains(x));
                            assert(next@.contains(x));
                        } else {
                            assert(store.links@[k as int].dest == Some(x));
                        }
                    }
                }
            }
            k = k + 1;
        }
        proof {
            assert forall|x: i64| next@.contains(x) <==> reach_set(
                store.links@,
                start,
                (d + 1) as nat,
            ).contains(x) by {
                assert(reach_set(store.links@, start, (d + 1) as nat) == prev.union(
                    step_set(store.links@, prev),
                ));
            }
        }
        acc = next;
        d = d + 1;
    }
    acc
}

} // verus!
