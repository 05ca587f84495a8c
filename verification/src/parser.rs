use vstd::prelude::*;
use vstd::string::StrSliceExecFns;
use crate::store::LinkKind;

verus! {

/// One link as extracted from a note's raw text; resolution to a concrete
/// note happens later.
pub struct ParsedLink {
    pub dest_text: String,
    pub kind: LinkKind,
    pub embed: bool,
    pub alias: Option<String>,
    pub heading: Option<String>,
    pub block: Option<String>,
}

/// The mathematical value of a parsed link.
pub ghost struct GLink {
    pub dest_text: Seq<char>,
    pub kind: LinkKind,
    pub embed: bool,
    pub alias: Option<Seq<char>>,
    pub heading: Option<Seq<char>>,
    pub block: Option<Seq<char>>,
}

pub open spec fn view_opt(o: Option<String>) -> Option<Seq<char>> {
    match o {
        Some(s) => Some(s@),
        None => None,
    }
}

pub open spec fn view_link(l: ParsedLink) -> GLink {
    GLink {
        dest_text: l.dest_text@,
        kind: l.kind,
        embed: l.embed,
        alias: view_opt(l.alias),
        heading: view_opt(l.heading),
        block: view_opt(l.block),
    }
}

pub open spec fn links_view(s: Seq<ParsedLink>) -> Seq<GLink> {
    Seq::new(s.len(), |k: int| view_link(s[k]))
}

/// First index at or after `j` where `c` stands, bounded by `end`; -1 if none.
pub open spec fn find_before(t: Seq<char>, j: int, end: int, c: char) -> int
    decreases end - j,
{
    if j < 0 || j >= end || end > t.len() {
        -1
    } else if t[j] == c {
        j
    } else {
        find_before(t, j + 1, end, c)
    }
}

/// First index at or after `j` where a closing double bracket starts; -1 if
/// none.
pub open spec fn find_wiki_close(t: Seq<char>, j: int) -> int
    decreases t.len() - j,
{
    if j < 0 || j + 2 > t.len() {
        -1
    } else if t[j] == ']' && t[j + 1] == ']' {
        j
    } else {
        find_wiki_close(t, j + 1)
    }
}

/// The wiki-style link whose body stands between positions `from` and `to`:
/// an optional alias follows the first pipe, and an optional heading or block
/// reference follows the first hash sign of the part before it; a caret marks
/// a block reference. An empty target is no link.
pub open spec fn wiki_body_link(t: Seq<char>, from: int, to: int, embed: bool) -> Option<GLink> {
    let pipe = find_before(t, from, to, '|');
    let pre_end = if pipe >= 0 {
        pipe
    } else {
        to
    };
    let alias = if pipe >= 0 {
        Some(t.subrange(pipe + 1, to))
    } else {
        None
    };
    let hash = find_before(t, from, pre_end, '#');
    let tgt_end = if hash >= 0 {
        hash
    } else {
        pre_end
    };
    let frag = if hash >= 0 {
        Some(t.subrange(hash + 1, pre_end))
    } else {
        None
    };
    if tgt_end <= from {
        None
    } else {
        let target = t.subrange(from, tgt_end);
        let heading = match frag {
            Some(f) => if f.len() > 0 && f[0] == '^' {
                None
            } else {
                Some(f)
            },
            None => None,
        };
        let block = match frag {
            Some(f) => if f.len() > 0 && f[0] == '^' {
                Some(f.subrange(1, f.len() as int))
            } else {
                None
            },
            None => None,
        };
        Some(
            GLink {
                dest_text: target,
                kind: LinkKind::Wiki,
                embed: embed,
                alias: alias,
                heading: heading,
                block: block,
            },
        )
    }
}

pub proof fn lemma_find_before(t: Seq<char>, j: int, end: int, c: char)
    ensures
        find_before(t, j, end, c) == -1 || (j <= find_before(t, j, end, c) < end <= t.len()
            && t[find_before(t, j, end, c)] == c),
    decreases end - j,
{
    if j < 0 || j >= end || end > t.len() {
    } else if t[j] == c {
    } else {
        lemma_find_before(t, j + 1, end, c);
    }
}

pub proof fn lemma_find_wiki_close(t: Seq<char>, j: int)
    ensures
        find_wiki_close(t, j) == -1 || (j <= find_wiki_close(t, j) && find_wiki_close(t, j) + 2
            <= t.len() && t[find_wiki_close(t, j)] == ']' && t[find_wiki_close(t, j) + 1] == ']'),
    decreases t.len() - j,
{
    if j < 0 || j + 2 > t.len() {
    } else if t[j] == ']' && t[j + 1] == ']' {
    } else {
        lemma_find_wiki_close(t, j + 1);
    }
}

/// The links of `t` from position `i` on: a leading bang marks an embed; a
/// double bracket opens a wiki link; a single bracket followed by a
/// parenthesised target is a markdown link; anything unparseable is skipped.
pub open spec fn scan_links(t: Seq<char>, i: int) -> Seq<GLink>
    decreases t.len() - i when 0 <= i
{
    if i >= t.len() {
        Seq::empty()
    } else if t[i] == '!' && i + 3 <= t.len() && t[i + 1] == '[' && t[i + 2] == '[' {
        scan_wiki(t, i, i + 1, true)
    } else if t[i] == '[' && i + 2 <= t.len() && t[i + 1] == '[' {
        scan_wiki(t, i, i, false)
    } else if t[i] == '!' && i + 2 <= t.len() && t[i + 1] == '[' {
        scan_md(t, i, i + 1, true)
    } else if t[i] == '[' {
        scan_md(t, i, i, false)
    } else {
        scan_links(t, i + 1)
    }
}

/// A wiki link opening at `open` (with the bang, if any, at `at`).
pub open spec fn scan_wiki(t: Seq<char>, at: int, open: int, embed: bool) -> Seq<GLink>
    decreases t.len() - at, 0int
        when 0 <= at <= open <= at + 1 && t.len() >= open + 2
        via scan_wiki_decreases
{
    let close = find_wiki_close(t, open + 2);
    if close < 0 {
        scan_links(t, at + 1)
    } else {
        match wiki_body_link(t, open + 2, close, embed) {
            Some(l) => seq![l] + scan_links(t, close + 2),
            None => scan_links(t, close + 2),
        }
    }
}

/// A markdown link `[alias](target)` opening at `open` (with the bang, if
/// any, at `at`). An empty target is no link.
pub open spec fn scan_md(t: Seq<char>, at: int, open: int, embed: bool) -> Seq<GLink>
    decreases t.len() - at, 0int
        when 0 <= at <= open <= at + 1 && open < t.len()
        via scan_md_decreases
{
    let cb = find_before(t, open + 1, t.len() as int, ']');
    if cb < 0 || cb + 1 >= t.len() || t[cb + 1] != '(' {
        scan_links(t, at + 1)
    } else {
        let cp = find_before(t, cb + 2, t.len() as int, ')');
        if cp < 0 {
            scan_links(t, at + 1)
        } else if cp <= cb + 2 {
            scan_links(t, cp + 1)
        } else {
            let l = GLink {
                dest_text: t.subrange(cb + 2, cp),
                kind: LinkKind::Markdown,
                embed: embed,
                alias: if cb > open + 1 {
                    Some(t.subrange(open + 1, cb))
                } else {
                    None
                },
                heading: None,
                block: None,
            };
            seq![l] + scan_links(t, cp + 1)
        }
    }
}

#[via_fn]
proof fn scan_wiki_decreases(t: Seq<char>, at: int, open: int, embed: bool) {
    lemma_find_wiki_close(t, open + 2);
}

#[via_fn]
proof fn scan_md_decreases(t: Seq<char>, at: int, open: int, embed: bool) {
    lemma_find_before(t, open + 1, t.len() as int, ']');
    let cb = find_before(t, open + 1, t.len() as int, ']');
    if cb >= 0 {
        lemma_find_before(t, cb + 2, t.len() as int, ')');
    }
}

/// The links extracted from a note's raw text, in order of occurrence.
pub open spec fn extract_links_spec(t: Seq<char>) -> Seq<GLink> {
    scan_links(t, 0)
}

fn find_before_exec(t: &str, j: usize, end: usize, c: char) -> (r: Option<usize>)
    requires
        end <= t@.len(),
    ensures
        match r {
            Some(p) => find_before(t@, j as int, end as int, c) == p && j <= p < end,
            None => find_before(t@, j as int, end as int, c) == -1,
        },
    decreases end - j,
{
    if j >= end {
        return None;
    }
    if t.get_char(j) == c {
        Some(j)
    } else {
        find_before_exec(t, j + 1, end, c)
    }
}

fn find_wiki_close_exec(t: &str, j: usize) -> (r: Option<usize>)
    requires
        j <= t@.len(),
    ensures
        match r {
            Some(p) => find_wiki_close(t@, j as int) == p && j <= p && p + 2 <= t@.len(),
            None => find_wiki_close(t@, j as int) == -1,
        },
    decreases t@.len() - j,
{
    let tl = t.unicode_len();
    if j > tl || tl - j < 2 {
        return None;
    }
    if t.get_char(j) == ']' && t.get_char(j + 1) == ']' {
        Some(j)
    } else {
        find_wiki_close_exec(t, j + 1)
    }
}

fn wiki_link_at(t: &str, from: usize, to: usize, embed: bool) -> (r: Option<ParsedLink>)
    requires
        from <= to <= t@.len(),
    ensures
        (match wiki_body_link(t@, from as int, to as int, embed) {
            Some(g) => r is Some && view_link(r->0) == g,
            None => r is None,
        }),
{
    let pipe = find_before_exec(t, from, to, '|');
    let pre_end = match pipe {
        Some(p) => p,
        None => to,
    };
    let alias: Option<String> = match pipe {
        Some(p) => Some(t.substring_char(p + 1, to).to_owned()),
        None => None,
    };
    let hash = find_before_exec(t, from, pre_end, '#');
    let tgt_end = match hash {
        Some(h) => h,
        None => pre_end,
    };
    if tgt_end <= from {
        return None;
    }
    let target = t.substring_char(from, tgt_end).to_owned();
    let mut heading: Option<String> = None;
    let mut block: Option<String> = None;
    match hash {
        Some(h) => {
            let ghost f = t@.subrange(h + 1, pre_end as int);
            if h + 1 < pre_end && t.get_char(h + 1) == '^' {
                assert(f[0] == '^' && f.len() > 0);
                block = Some(t.substring_char(h + 2, pre_end).to_owned());
                proof {
                    assert(t@.subrange(h + 2, pre_end as int) =~= f.subrange(1, f.len() as int));
                }
            } else {
                heading = Some(t.substring_char(h + 1, pre_end).to_owned());
                proof {
                    if f.len() > 0 {
                        assert(f[0] == t@[h + 1]);
                    }
                }
            }
        },
        None => {},
    }
    Some(ParsedLink { dest_text: target, kind: LinkKind::Wiki, embed, alias, heading, block })
}

#[verifier::rlimit(100)]
fn scan_links_exec(t: &str, i: usize, acc: &mut Vec<ParsedLink>)
    requires
        i <= t@.len(),
    ensures
        links_view(final(acc)@) == links_view(old(acc)@) + scan_links(t@, i as int),
    decreases t@.len() - i,
{
    let ghost pre = links_view(acc@);
    let tl = t.unicode_len();
    if i >= tl {
        proof {
            assert(links_view(acc@) =~= pre + scan_links(t@, i as int));
        }
        return ;
    }
    let c = t.get_char(i);
    let is_wiki_embed = c == '!' && tl - i >= 3 && t.get_char(i + 1) == '[' && t.get_char(i + 2)
        == '[';
    let is_wiki = !is_wiki_embed && c == '[' && tl - i >= 2 && t.get_char(i + 1) == '[';
    let is_md_embed = !is_wiki_embed && !is_wiki && c == '!' && tl - i >= 2 && t.get_char(i + 1)
        == '[';
    let is_md = !is_wiki_embed && !is_wiki && !is_md_embed && c == '[';
    if is_wiki_embed || is_wiki {
        let open = if is_wiki_embed {
            i + 1
        } else {
            i
        };
        let embed = is_wiki_embed;
        assert(scan_links(t@, i as int) == scan_wiki(t@, i as int, open as int, embed));
        match find_wiki_close_exec(t, open + 2) {
            None => {
                scan_links_exec(t, i + 1, acc);
            },
            Some(close) => {
                match wiki_link_at(t, open + 2, close, embed) {
                    Some(l) => {
                        let ghost g = view_link(l);
                        let ghost acc0 = links_view(acc@);
                        acc.push(l);
                        proof {
                            assert(links_view(acc@) =~= acc0.push(g));
                        }
                        scan_links_exec(t, close + 2, acc);
                        proof {
                            assert(acc0.push(g) + scan_links(t@, close + 2) =~= acc0 + (seq![g]
                                + scan_links(t@, close + 2)));
                        }
                    },
                    None => {
                        scan_links_exec(t, close + 2, acc);
                    },
                }
            },
        }
    } else if is_md_embed || is_md {
        let open = if is_md_embed {
            i + 1
        } else {
            i
        };
        let embed = is_md_embed;
        assert(scan_links(t@, i as int) == scan_md(t@, i as int, open as int, embed));
        let cb_opt = find_before_exec(t, open + 1, tl, ']');
        let mut fallback = true;
        match cb_opt {
            Some(cb) => {
                if cb + 1 < tl && t.get_char(cb + 1) == '(' {
                    fallback = false;
                    match find_before_exec(t, cb + 2, tl, ')') {
                        None => {
                            scan_links_exec(t, i + 1, acc);
                        },
                        Some(cp) => {
                            if cp <= cb + 2 {
                                scan_links_exec(t, cp + 1, acc);
                            } else {
                                let alias: Option<String> = if cb > open + 1 {
                                    Some(t.substring_char(open + 1, cb).to_owned())
                                } else {
                                    None
                                };
                                let l = ParsedLink {
                                    dest_text: t.substring_char(cb + 2, cp).to_owned(),
                                    kind: LinkKind::Markdown,
                                    embed,
                                    alias,
                                    heading: None,
                                    block: None,
                                };
                                let ghost g = view_link(l);
                                let ghost acc0 = links_view(acc@);
                                acc.push(l);
                                proof {
                                    assert(links_view(acc@) =~= acc0.push(g));
                                }
                                scan_links_exec(t, cp + 1, acc);
                                proof {
                                    assert(acc0.push(g) + scan_links(t@, cp + 1) =~= acc0 + (
                                    seq![g] + scan_links(t@, cp + 1)));
                                }
                            }
                        },
                    }
                }
            },
            None => {},
        }
        if fallback {
            scan_links_exec(t, i + 1, acc);
        }
    } else {
        scan_links_exec(t, i + 1, acc);
    }
}

/// Extracts every wiki-style and markdown link from a note's raw text, in
/// order of occurrence.
pub fn extract_links(t: &str) -> (r: Vec<ParsedLink>)
    ensures
        links_view(r@) == extract_links_spec(t@),
{
    let mut acc: Vec<ParsedLink> = Vec::new();
    assert(links_view(acc@) =~= Seq::<GLink>::empty());
    scan_links_exec(t, 0, &mut acc);
    proof {
        assert(Seq::<GLink>::empty() + scan_links(t@, 0) =~= scan_links(t@, 0));
    }
    acc
}

pub open spec fn is_space(c: char) -> bool {
    c == ' ' || c == '\n' || c == '\t' || c == '\r'
}

/// Characters a tag token may hold.
pub open spec fn is_tag_char(c: char) -> bool {
    ('a' <= c && c <= 'z') || ('A' <= c && c <= 'Z') || ('0' <= c && c <= '9') || c == '-' || c
        == '_' || c == '/'
}

/// First index at or after `j` that no longer belongs to a tag token.
pub open spec fn tag_end(t: Seq<char>, j: int) -> int
    decreases t.len() - j when 0 <= j
{
    if j >= t.len() || !is_tag_char(t[j]) {
        j
    } else {
        tag_end(t, j + 1)
    }
}

pub proof fn lemma_tag_end(t: Seq<char>, j: int)
    requires
        0 <= j,
    ensures
        j <= tag_end(t, j) <= t.len() || (j >= t.len() && tag_end(t, j) == j),
    decreases t.len() - j,
{
    if j >= t.len() || !is_tag_char(t[j]) {
    } else {
        lemma_tag_end(t, j + 1);
    }
}

/// The inline tags of `t` from position `i` on: a hash sign at the start of
/// the text or after a space opens a tag token of at least one tag character.
pub open spec fn scan_tags(t: Seq<char>, i: int) -> Seq<Seq<char>>
    decreases t.len() - i when 0 <= i
        via scan_tags_decreases
{
    if i >= t.len() {
        Seq::empty()
    } else if t[i] == '#' && (i == 0 || is_space(t[i - 1])) && i + 1 < t.len() && is_tag_char(
        t[i + 1],
    ) {
        let e = tag_end(t, i + 1);
        seq![t.subrange(i + 1, e)] + scan_tags(t, e)
    } else {
        scan_tags(t, i + 1)
    }
}

#[via_fn]
proof fn scan_tags_decreases(t: Seq<char>, i: int) {
    if 0 <= i < t.len() && t[i] == '#' && (i == 0 || is_space(t[i - 1])) && i + 1 < t.len()
        && is_tag_char(t[i + 1]) {
        lemma_tag_end(t, i + 1);
        assert(tag_end(t, i + 1) == tag_end(t, i + 2));
    }
}

pub open spec fn extract_tags_spec(t: Seq<char>) -> Seq<Seq<char>> {
    scan_tags(t, 0)
}

fn is_tag_char_exec(c: char) -> (r: bool)
    ensures
        r == is_tag_char(c),
{
    ('a' <= c && c <= 'z') || ('A' <= c && c <= 'Z') || ('0' <= c && c <= '9') || c == '-' || c
        == '_' || c == '/'
}

fn tag_end_exec(t: &str, j: usize) -> (r: usize)
    requires
        j <= t@.len(),
    ensures
        r == tag_end(t@, j as int),
        j <= r <= t@.len(),
    decreases t@.len() - j,
{
    let tl = t.unicode_len();
    if j >= tl {
        return j;
    }
    if !is_tag_char_exec(t.get_char(j)) {
        j
    } else {
        tag_end_exec(t, j + 1)
    }
}

fn scan_tags_exec(t: &str, i: usize, acc: &mut Vec<String>)
    requires
        i <= t@.len(),
    ensures
        final(acc).deep_view() == old(acc).deep_view() + scan_tags(t@, i as int),
    decreases t@.len() - i,
{
    let ghost pre = acc.deep_view();
    let tl = t.unicode_len();
    if i >= tl {
        proof {
            assert(acc.deep_view() =~= pre + scan_tags(t@, i as int));
        }
        return ;
    }
    let open = t.get_char(i) == '#' && (i == 0 || {
        let prev = t.get_char(i - 1);
        prev == ' ' || prev == '\n' || prev == '\t' || prev == '\r'
    }) && tl - i >= 2 && is_tag_char_exec(t.get_char(i + 1));
    if open {
        let e = tag_end_exec(t, i + 1);
        let tag = t.substring_char(i + 1, e).to_owned();
        let ghost g = tag@;
        let ghost acc0 = acc.deep_view();
        acc.push(tag);
        proof {
            assert(acc.deep_view() =~= acc0.push(g));
        }
        scan_tags_exec(t, e, acc);
        proof {
            assert(acc0.push(g) + scan_tags(t@, e as int) =~= acc0 + (seq![g] + scan_tags(
                t@,
                e as int,
            )));
        }
    } else {
        scan_tags_exec(t, i + 1, acc);
    }
}

/// Extracts every inline `#tag` token from a note's raw text, in order.
pub fn extract_tags(t: &str) -> (r: Vec<String>)
    ensures
        r.deep_view() == extract_tags_spec(t@),
{
    let mut acc: Vec<String> = Vec::new();
    assert(acc.deep_view() =~= Seq::<Seq<char>>::empty());
    scan_tags_exec(t, 0, &mut acc);
    proof {
        assert(Seq::<Seq<char>>::empty() + scan_tags(t@, 0) =~= scan_tags(t@, 0));
    }
    acc
}

/// End of the line that position `j` stands on: the next newline, or the end
/// of the text.
pub open spec fn line_end(t: Seq<char>, j: int) -> int {
    let e = find_before(t, j, t.len() as int, '\n');
    if e < 0 {
        t.len() as int
    } else {
        e
    }
}

fn line_end_exec(t: &str, j: usize) -> (r: usize)
    requires
        j <= t@.len(),
    ensures
        r == line_end(t@, j as int),
        j <= r <= t@.len(),
    decreases t@.len() - j,
{
    let tl = t.unicode_len();
    match find_before_exec(t, j, tl, '\n') {
        Some(e) => e,
        None => tl,
    }
}

/// The text of the first markdown heading line, if any.
pub open spec fn first_heading(t: Seq<char>, i: int) -> Option<Seq<char>>
    decreases t.len() - i when 0 <= i
{
    if i >= t.len() {
        None
    } else if t[i] == '#' && i + 2 <= t.len() && t[i + 1] == ' ' && (i == 0 || t[i - 1] == '\n') {
        Some(t.subrange(i + 2, line_end(t, i + 2)))
    } else {
        first_heading(t, i + 1)
    }
}

fn first_heading_exec(t: &str, i: usize) -> (r: Option<String>)
    requires
        i <= t@.len(),
    ensures
        (match first_heading(t@, i as int) {
            Some(h) => r is Some && r->0@ == h,
            None => r is None,
        }),
    decreases t@.len() - i,
{
    let tl = t.unicode_len();
    if i >= tl {
        return None;
    }
    let hit = t.get_char(i) == '#' && tl - i >= 2 && t.get_char(i + 1) == ' ' && (i == 0
        || t.get_char(i - 1) == '\n');
    if hit {
        let e = line_end_exec(t, i + 2);
        proof {
            lemma_find_before(t@, i + 2, t@.len() as int, '\n');
        }
        Some(t.substring_char(i + 2, e).to_owned())
    } else {
        first_heading_exec(t, i + 1)
    }
}

/// Index one past the last slash of the path, or 0.
pub open spec fn base_start(p: Seq<char>) -> int
    decreases p.len(),
{
    if p.len() == 0 {
        0
    } else if p.last() == '/' {
        p.len() as int
    } else {
        base_start(p.drop_last())
    }
}

/// The file name of a path without a trailing markdown suffix: the fallback
/// title of a note.
pub open spec fn stem_of(p: Seq<char>) -> Seq<char> {
    let b = p.subrange(base_start(p), p.len() as int);
    if b.len() >= 3 && b.subrange(b.len() - 3, b.len() as int) == seq!['.', 'm', 'd'] {
        b.subrange(0, b.len() - 3)
    } else {
        b
    }
}

proof fn lemma_base_start(p: Seq<char>)
    ensures
        0 <= base_start(p) <= p.len(),
    decreases p.len(),
{
    if p.len() > 0 && p.last() != '/' {
        lemma_base_start(p.drop_last());
    }
}

fn base_start_exec(p: &str) -> (r: usize)
    ensures
        r == base_start(p@),
        r <= p@.len(),
{
    let pl = p.unicode_len();
    let mut j: usize = pl;
    assert(p@.subrange(0, pl as int) =~= p@);
    while j > 0
        invariant
            j <= pl,
            pl == p@.len(),
            base_start(p@) == base_start(p@.subrange(0, j as int)),
        decreases j,
    {
        proof {
            lemma_base_start(p@.subrange(0, j as int));
        }
        if p.get_char(j - 1) == '/' {
            proof {
                assert(p@.subrange(0, j as int).last() == p@[j - 1]);
            }
            return j;
        }
        proof {
            assert(p@.subrange(0, j as int).drop_last() =~= p@.subrange(0, j - 1));
        }
        j = j - 1;
    }
    proof {
        assert(p@.subrange(0, 0) =~= Seq::<char>::empty());
    }
    0
}

/// The fallback title: file name without a trailing markdown suffix.
pub fn stem_of_exec(p: &str) -> (r: String)
    ensures
        r@ == stem_of(p@),
{
    let pl = p.unicode_len();
    let bs = base_start_exec(p);
    let ghost b = p@.subrange(base_start(p@), p@.len() as int);
    if pl - bs >= 3 && p.get_char(pl - 3) == '.' && p.get_char(pl - 2) == 'm' && p.get_char(pl - 1)
        == 'd' {
        proof {
            assert(b.subrange(b.len() - 3, b.len() as int) =~= seq!['.', 'm', 'd']);
            assert(p@.subrange(bs as int, pl - 3) =~= b.subrange(0, b.len() - 3));
        }
        p.substring_char(bs, pl - 3).to_owned()
    } else {
        proof {
            if b.len() >= 3 && b.subrange(b.len() - 3, b.len() as int) == seq!['.', 'm', 'd'] {
                assert(b[b.len() - 3] == p@[pl - 3] && b[b.len() - 2] == p@[pl - 2] && b[b.len()
                    - 1] == p@[pl - 1]);
                assert(seq!['.', 'm', 'd'][0] == '.' && seq!['.', 'm', 'd'][1] == 'm' && seq![
                    '.',
                    'm',
                    'd',
                ][2] == 'd');
                assert(false);
            }
        }
        p.substring_char(bs, pl).to_owned()
    }
}

pub open spec fn matches_at(t: Seq<char>, j: int, pat: Seq<char>) -> bool {
    0 <= j && j + pat.len() <= t.len() && t.subrange(j, j + pat.len()) == pat
}

/// Start of the closing fence line of a frontmatter block, or -1.
pub open spec fn fm_close(t: Seq<char>, j: int) -> int
    decreases t.len() - j when 0 <= j
{
    if j + 4 > t.len() {
        -1
    } else if t[j] == '\n' && t[j + 1] == '-' && t[j + 2] == '-' && t[j + 3] == '-' && (j + 4
        == t.len() || t[j + 4] == '\n') {
        j
    } else {
        fm_close(t, j + 1)
    }
}

pub proof fn lemma_fm_close(t: Seq<char>, j: int)
    requires
        0 <= j,
    ensures
        fm_close(t, j) == -1 || (j <= fm_close(t, j) && fm_close(t, j) + 4 <= t.len()),
    decreases t.len() - j,
{
    if j + 4 > t.len() {
    } else if t[j] == '\n' && t[j + 1] == '-' && t[j + 2] == '-' && t[j + 3] == '-' && (j + 4
        == t.len() || t[j + 4] == '\n') {
    } else {
        lemma_fm_close(t, j + 1);
    }
}

/// Bounds of the frontmatter body: the text between an opening fence line and
/// the next fence line, when both are present.
pub open spec fn fm_body(t: Seq<char>) -> Option<(int, int)> {
    if t.len() >= 4 && t[0] == '-' && t[1] == '-' && t[2] == '-' && t[3] == '\n' {
        let e = fm_close(t, 3);
        if e < 0 {
            None
        } else if e < 4 {
            Some((4int, 4int))
        } else {
            Some((4int, e))
        }
    } else {
        None
    }
}

/// The value of `key` in the frontmatter body between `j` (a line start) and
/// `end`: the rest of the first line that starts with the key, a colon and a
/// space.
pub open spec fn fm_value_from(t: Seq<char>, j: int, end: int, key: Seq<char>) -> Option<Seq<char>>
    decreases end - j when 0 <= j
        via fm_value_from_decreases
{
    if j >= end || end > t.len() {
        None
    } else {
        let e0 = find_before(t, j, end, '\n');
        let le = if e0 < 0 {
            end
        } else {
            e0
        };
        if matches_at(t, j, key + seq![':', ' ']) && j + key.len() + 2 <= le {
            Some(t.subrange(j + key.len() + 2, le))
        } else {
            fm_value_from(t, if le < end { le + 1 } else { end }, end, key)
        }
    }
}

#[via_fn]
proof fn fm_value_from_decreases(t: Seq<char>, j: int, end: int, key: Seq<char>) {
    if 0 <= j < end <= t.len() {
        lemma_find_before(t, j, end, '\n');
    }
}

/// The value of `key` in the note's frontmatter, if the note has a
/// frontmatter block holding the key.
pub open spec fn fm_value(t: Seq<char>, key: Seq<char>) -> Option<Seq<char>> {
    match fm_body(t) {
        Some(b) => fm_value_from(t, b.0, b.1, key),
        None => None,
    }
}

fn matches_at_exec(t: &str, j: usize, pat: &str) -> (r: bool)
    requires
        j <= t@.len(),
    ensures
        r == matches_at(t@, j as int, pat@),
{
    let tl = t.unicode_len();
    let pl = pat.unicode_len();
    if tl - j < pl {
        return false;
    }
    let mut k: usize = 0;
    while k < pl
        invariant
            k <= pl,
            pl == pat@.len(),
            tl == t@.len(),
            j + pl <= tl,
            forall|m: int| 0 <= m < k ==> t@[j + m] == pat@[m],
        decreases pl - k,
    {
        if t.get_char(j + k) != pat.get_char(k) {
            assert(t@.subrange(j as int, j + pat@.len())[k as int] != pat@[k as int]);
            return false;
        }
        k = k + 1;
    }
    assert(t@.subrange(j as int, j + pat@.len()) =~= pat@);
    true
}

fn fm_close_exec(t: &str, j: usize) -> (r: Option<usize>)
    requires
        j <= t@.len(),
    ensures
        (match r {
            Some(p) => fm_close(t@, j as int) == p && j <= p && p + 4 <= t@.len(),
            None => fm_close(t@, j as int) == -1,
        }),
    decreases t@.len() - j,
{
    let tl = t.unicode_len();
    if tl - j < 4 {
        return None;
    }
    if t.get_char(j) == '\n' && t.get_char(j + 1) == '-' && t.get_char(j + 2) == '-' && t.get_char(
        j + 3,
    ) == '-' && (j + 4 == tl || t.get_char(j + 4) == '\n') {
        Some(j)
    } else {
        fm_close_exec(t, j + 1)
    }
}

fn fm_body_exec(t: &str) -> (r: Option<(usize, usize)>)
    ensures
        (match r {
            Some(p) => fm_body(t@) == Some((p.0 as int, p.1 as int)) && p.0 <= p.1 <= t@.len(),
            None => fm_body(t@) is None,
        }),
{
    let tl = t.unicode_len();
    if tl < 4 {
        return None;
    }
    if !(t.get_char(0) == '-' && t.get_char(1) == '-' && t.get_char(2) == '-' && t.get_char(3)
        == '\n') {
        return None;
    }
    match fm_close_exec(t, 3) {
        None => None,
        Some(e) => {
            if e < 4 {
                Some((4, 4))
            } else {
                Some((4, e))
            }
        },
    }
}

fn fm_value_from_exec(t: &str, j: usize, end: usize, key: &str) -> (r: Option<String>)
    requires
        end <= t@.len(),
    ensures
        (match fm_value_from(t@, j as int, end as int, key@) {
            Some(v) => r is Some && r->0@ == v,
            None => r is None,
        }),
    decreases end - j,
{
    if j >= end {
        return None;
    }
    let e0 = find_before_exec(t, j, end, '\n');
    let le = match e0 {
        Some(e) => e,
        None => end,
    };
    let kl = key.unicode_len();
    let mut hit = false;
    if matches_at_exec(t, j, key) && le >= j && le - j >= kl && (le - j) - kl >= 2 {
        if matches_at_exec(t, j + kl, ": ") {
            hit = true;
        }
    }
    proof {
        reveal_strlit(": ");
        assert((": ")@ =~= seq![':', ' ']);
        if matches_at(t@, j as int, key@) && matches_at(t@, j + key@.len(), seq![':', ' ']) {
            assert(t@.subrange(j as int, j + key@.len() + 2) =~= key@ + seq![':', ' ']);
        }
        if matches_at(t@, j as int, key@ + seq![':', ' ']) {
            assert((key@ + seq![':', ' ']).subrange(0, key@.len() as int) =~= key@);
            assert(t@.subrange(j as int, j + key@.len()) =~= (key@ + seq![':', ' ']).subrange(
                0,
                key@.len() as int,
            ));
            assert((key@ + seq![':', ' ']).subrange(key@.len() as int, key@.len() as int + 2) =~= seq![
                ':',
                ' ',
            ]);
            assert(t@.subrange(j + key@.len(), j + key@.len() + 2) =~= (key@ + seq![
                ':',
                ' ',
            ]).subrange(key@.len() as int, key@.len() as int + 2));
        }
    }
    if hit {
        Some(t.substring_char(j + kl + 2, le).to_owned())
    } else {
        let next = if le < end { le + 1 } else { end };
        fm_value_from_exec(t, next, end, key)
    }
}

/// Looks the key up in the note's frontmatter block.
pub fn fm_value_exec(t: &str, key: &str) -> (r: Option<String>)
    ensures
        (match fm_value(t@, key@) {
            Some(v) => r is Some && r->0@ == v,
            None => r is None,
        }),
{
    match fm_body_exec(t) {
        None => None,
        Some(b) => fm_value_from_exec(t, b.0, b.1, key),
    }
}


/// Splits a comma-separated list, where a single space may follow each comma.
pub open spec fn split_items(s: Seq<char>, j: int) -> Seq<Seq<char>>
    decreases s.len() - j when 0 <= j
        via split_items_decreases
{
    if j > s.len() {
        Seq::empty()
    } else {
        let c = find_before(s, j, s.len() as int, ',');
        if c < 0 {
            seq![s.subrange(j, s.len() as int)]
        } else {
            let next = if c + 1 < s.len() && s[c + 1] == ' ' {
                c + 2
            } else {
                c + 1
            };
            seq![s.subrange(j, c)] + split_items(s, next)
        }
    }
}

#[via_fn]
proof fn split_items_decreases(s: Seq<char>, j: int) {
    if 0 <= j <= s.len() {
        lemma_find_before(s, j, s.len() as int, ',');
    }
}

/// The items of a frontmatter value: a bracketed value is a comma-separated
/// list, a bare nonempty value is a single item.
pub open spec fn split_list(v: Seq<char>) -> Seq<Seq<char>> {
    if v.len() >= 2 && v[0] == '[' && v.last() == ']' {
        let inner = v.subrange(1, v.len() - 1);
        if inner.len() == 0 {
            Seq::empty()
        } else {
            split_items(inner, 0)
        }
    } else if v.len() > 0 {
        seq![v]
    } else {
        Seq::empty()
    }
}

/// The list a frontmatter key holds, or the empty list.
pub open spec fn fm_list(t: Seq<char>, key: Seq<char>) -> Seq<Seq<char>> {
    match fm_value(t, key) {
        Some(v) => split_list(v),
        None => Seq::empty(),
    }
}

pub open spec fn title_fallback(t: Seq<char>, path: Seq<char>) -> Seq<char> {
    match first_heading(t, 0) {
        Some(h) => h,
        None => stem_of(path),
    }
}

/// The title of a note: its frontmatter title when nonempty, else its first
/// heading, else its file name.
pub open spec fn title_of(t: Seq<char>, path: Seq<char>) -> Seq<char> {
    match fm_value(t, seq!['t', 'i', 't', 'l', 'e']) {
        Some(v) => if v.len() > 0 {
            v
        } else {
            title_fallback(t, path)
        },
        None => title_fallback(t, path),
    }
}

/// The tags of a note: the frontmatter tag list, then the inline tags.
pub open spec fn note_tags_spec(t: Seq<char>) -> Seq<Seq<char>> {
    fm_list(t, seq!['t', 'a', 'g', 's']) + extract_tags_spec(t)
}

/// The aliases a note's frontmatter declares.
pub open spec fn note_aliases_spec(t: Seq<char>) -> Seq<Seq<char>> {
    fm_list(t, seq!['a', 'l', 'i', 'a', 's', 'e', 's'])
}

fn split_items_exec(s: &str, j: usize, acc: &mut Vec<String>)
    requires
        j <= s@.len(),
    ensures
        final(acc).deep_view() == old(acc).deep_view() + split_items(s@, j as int),
    decreases s@.len() - j,
{
    let ghost pre = acc.deep_view();
    let sl = s.unicode_len();
    match find_before_exec(s, j, sl, ',') {
        None => {
            let item = s.substring_char(j, sl).to_owned();
            let ghost g = item@;
            acc.push(item);
            proof {
                assert(acc.deep_view() =~= pre.push(g));
                assert(pre.push(g) =~= pre + seq![g]);
            }
        },
        Some(c) => {
            let next = if c + 1 < sl && s.get_char(c + 1) == ' ' {
                c + 2
            } else {
                c + 1
            };
            let item = s.substring_char(j, c).to_owned();
            let ghost g = item@;
            acc.push(item);
            proof {
                assert(acc.deep_view() =~= pre.push(g));
            }
            split_items_exec(s, next, acc);
            proof {
                assert(pre.push(g) + split_items(s@, next as int) =~= pre + (seq![g] + split_items(
                    s@,
                    next as int,
                )));
            }
        },
    }
}

fn split_list_exec(v: &str) -> (r: Vec<String>)
    ensures
        r.deep_view() == split_list(v@),
{
    let vl = v.unicode_len();
    let mut r: Vec<String> = Vec::new();
    if vl >= 2 && v.get_char(0) == '[' && v.get_char(vl - 1) == ']' {
        if vl == 2 {
            assert(r.deep_view() =~= split_list(v@));
            return r;
        }
        let inner = v.substring_char(1, vl - 1);
        assert(r.deep_view() =~= Seq::<Seq<char>>::empty());
        split_items_exec(inner, 0, &mut r);
        proof {
            assert(Seq::<Seq<char>>::empty() + split_items(inner@, 0) =~= split_items(inner@, 0));
        }
        r
    } else if vl > 0 {
        r.push(v.to_owned());
        assert(r.deep_view() =~= seq![v@]);
        r
    } else {
        assert(r.deep_view() =~= Seq::<Seq<char>>::empty());
        r
    }
}

fn fm_list_exec(t: &str, key: &str) -> (r: Vec<String>)
    ensures
        r.deep_view() == fm_list(t@, key@),
{
    match fm_value_exec(t, key) {
        Some(v) => split_list_exec(v.as_str()),
        None => {
            let r: Vec<String> = Vec::new();
            assert(r.deep_view() =~= Seq::<Seq<char>>::empty());
            r
        },
    }
}

/// Derives a note's title: frontmatter title, first heading, or file name, in
/// that precedence.
pub fn derive_title(t: &str, path: &str) -> (r: String)
    ensures
        r@ == title_of(t@, path@),
{
    proof {
        reveal_strlit("title");
        assert(("title")@ =~= seq!['t', 'i', 't', 'l', 'e']);
    }
    match fm_value_exec(t, "title") {
        Some(v) => {
            if v.unicode_len() > 0 {
                return v;
            }
        },
        None => {},
    }
    match first_heading_exec(t, 0) {
        Some(h) => h,
        None => stem_of_exec(path),
    }
}

/// What one note parses to: a title, its tag list, its declared aliases, and
/// its links.
pub struct ParsedNote {
    pub title: String,
    pub tags: Vec<String>,
    pub aliases: Vec<String>,
    pub links: Vec<ParsedLink>,
}

/// Parses one note's raw text: the title by precedence, tags from the
/// frontmatter list and inline tokens, aliases from the frontmatter, and
/// every extracted link. Text without well-formed frontmatter simply has no
/// frontmatter-derived parts.
pub fn parse_note(path: &str, t: &str) -> (r: ParsedNote)
    ensures
        r.title@ == title_of(t@, path@),
        r.tags.deep_view() == note_tags_spec(t@),
        r.aliases.deep_view() == note_aliases_spec(t@),
        links_view(r.links@) == extract_links_spec(t@),
{
    proof {
        reveal_strlit("tags");
        assert(("tags")@ =~= seq!['t', 'a', 'g', 's']);
        reveal_strlit("aliases");
        assert(("aliases")@ =~= seq!['a', 'l', 'i', 'a', 's', 'e', 's']);
    }
    let title = derive_title(t, path);
    let mut tags = fm_list_exec(t, "tags");
    let inline = extract_tags(t);
    let ghost fmpart = tags.deep_view();
    let mut k: usize = 0;
    while k < inline.len()
        invariant
            k <= inline.len(),
            tags.deep_view() == fmpart + inline.deep_view().subrange(0, k as int),
        decreases inline.len() - k,
    {
        let ghost before = tags.deep_view();
        tags.push(inline[k].clone());
        proof {
            assert(tags.deep_view() =~= before.push(inline.deep_view()[k as int]));
            assert(fmpart + inline.deep_view().subrange(0, k + 1) =~= (fmpart
                + inline.deep_view().subrange(0, k as int)).push(inline.deep_view()[k as int]));
        }
        k = k + 1;
    }
    proof {
        assert(inline.deep_view().subrange(0, inline.deep_view().len() as int) =~= inline.deep_view());
    }
    let aliases = fm_list_exec(t, "aliases");
    let links = extract_links(t);
    ParsedNote { title, tags, aliases, links }
}

} // verus!
