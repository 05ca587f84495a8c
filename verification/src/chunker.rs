use vstd::prelude::*;
use vstd::string::*;

verus! {

/// A sentence boundary stands at position `p` of `s` when a period is
/// immediately followed by a space there.
pub open spec fn boundary_at(s: Seq<char>, p: int) -> bool {
    0 <= p && p + 2 <= s.len() && s[p] == '.' && s[p + 1] == ' '
}

/// Position of the last sentence boundary in `s`, or -1 when `s` holds none.
pub open spec fn last_boundary(s: Seq<char>) -> int
    decreases s.len(),
{
    if s.len() < 2 {
        -1
    } else if s[s.len() - 2] == '.' && s[s.len() - 1] == ' ' {
        s.len() - 2
    } else {
        last_boundary(s.subrange(0, s.len() - 1))
    }
}

proof fn lemma_no_boundary(s: Seq<char>)
    requires
        forall|q: int| !boundary_at(s, q),
    ensures
        last_boundary(s) == -1,
{
    lemma_last_boundary(s);
    if last_boundary(s) >= 0 {
        assert(boundary_at(s, last_boundary(s)));
        assert(false);
    }
}

proof fn lemma_last_boundary_unique(s: Seq<char>, p: int)
    requires
        boundary_at(s, p),
        forall|q: int| q > p ==> !boundary_at(s, q),
    ensures
        last_boundary(s) == p,
{
    lemma_last_boundary(s);
    if last_boundary(s) == -1 {
        assert(!boundary_at(s, p));
        assert(false);
    } else if last_boundary(s) > p {
        assert(!boundary_at(s, last_boundary(s)));
        assert(false);
    } else if last_boundary(s) < p {
        assert(boundary_at(s, last_boundary(s)));
        assert(!boundary_at(s, p));
        assert(false);
    }
}

proof fn lemma_last_boundary(s: Seq<char>)
    ensures
        last_boundary(s) >= -1,
        last_boundary(s) == -1 ==> forall|p: int| !boundary_at(s, p),
        last_boundary(s) >= 0 ==> boundary_at(s, last_boundary(s)),
        last_boundary(s) >= 0 ==> forall|p: int| p > last_boundary(s) ==> !boundary_at(s, p),
    decreases s.len(),
{
    if s.len() < 2 {
    } else if s[s.len() - 2] == '.' && s[s.len() - 1] == ' ' {
    } else {
        let t = s.subrange(0, s.len() - 1);
        lemma_last_boundary(t);
        assert forall|p: int| boundary_at(s, p) implies boundary_at(t, p) by {
            if boundary_at(s, p) {
                if p + 2 <= s.len() - 1 {
                    assert(t[p] == s[p] && t[p + 1] == s[p + 1]);
                } else {
                    assert(p == s.len() - 2);
                }
            }
        }
        assert forall|p: int| boundary_at(t, p) implies boundary_at(s, p) by {
            if boundary_at(t, p) {
                assert(s[p] == t[p] && s[p + 1] == t[p + 1]);
            }
        }
    }
}

/// What carries over from `t` into the next chunk: `t` itself when it is no
/// longer than `overlap` characters; otherwise the trailing `overlap`
/// characters, cut down to what follows the last sentence boundary among
/// them, if there is one.
pub open spec fn overlap_text_spec(t: Seq<char>, overlap: nat) -> Seq<char> {
    if t.len() <= overlap {
        t
    } else {
        let tail = t.subrange(t.len() - overlap, t.len() as int);
        let b = last_boundary(tail);
        if b >= 0 {
            tail.subrange(b + 2, tail.len() as int)
        } else {
            tail
        }
    }
}

/// Carry-over context between consecutive chunks, favouring a break at the
/// last period-space pair inside the trailing window over a raw character cut.
/// Works on characters, never on raw bytes, so multi-byte text stays whole.
pub fn get_overlap_text(text: &str, overlap: usize) -> (r: String)
    ensures
        r@ == overlap_text_spec(text@, overlap as nat),
{
    let n = text.unicode_len();
    if n <= overlap {
        return text.to_owned();
    }
    let tail = text.substring_char(n - overlap, n);
    let tail_len = overlap;
    assert(tail@ == text@.subrange(text@.len() - overlap, text@.len() as int));
    // scan backward for the last period-space pair
    let mut i: usize = tail_len;
    let mut found: Option<usize> = None;
    loop
        invariant_except_break
            i <= tail_len,
            tail@.len() == tail_len,
            found is None,
            forall|p: int| p >= i - 1 ==> !boundary_at(tail@, p),
        ensures
            match found {
                Some(f) => f + 2 <= tail_len && last_boundary(tail@) == f,
                None => last_boundary(tail@) == -1,
            },
        decreases i,
    {
        if i < 2 {
            proof {
                assert forall|q: int| !boundary_at(tail@, q) by {
                    if boundary_at(tail@, q) {
                        assert(q >= 0 && q >= i - 1);
                    }
                }
                lemma_no_boundary(tail@);
            }
            break;
        }
        if tail.get_char(i - 2) == '.' && tail.get_char(i - 1) == ' ' {
            found = Some(i - 2);
            proof {
                assert(boundary_at(tail@, i - 2));
                assert forall|q: int| q > i - 2 implies !boundary_at(tail@, q) by {
                    if boundary_at(tail@, q) {
                        assert(q >= i - 1);
                    }
                }
                lemma_last_boundary_unique(tail@, i - 2);
            }
            break;
        }
        i = i - 1;
    }
    match found {
        Some(p) => tail.substring_char(p + 2, tail_len).to_owned(),
        None => tail.to_owned(),
    }
}

/// The chunks that follow the first one, starting at character `pos`, where
/// `prev` is the chunk written just before: each chunk carries over the
/// overlap of its predecessor and then takes up to `window` fresh characters.
pub open spec fn chunk_step(t: Seq<char>, window: nat, overlap: nat, pos: int, prev: Seq<char>) -> Seq<
    Seq<char>,
>
    decreases t.len() - pos
        when 0 <= pos <= t.len() && window >= 1
{
    if pos >= t.len() {
        Seq::empty()
    } else {
        let take = if t.len() - pos < window {
            t.len() - pos
        } else {
            window as int
        };
        let chunk = overlap_text_spec(prev, overlap) + t.subrange(pos, pos + take);
        seq![chunk] + chunk_step(t, window, overlap, pos + take, chunk)
    }
}

/// The ordered chunks of `t` for a given window and overlap; empty text has
/// no chunks, and the first chunk carries nothing over.
pub open spec fn chunks_of(t: Seq<char>, window: nat, overlap: nat) -> Seq<Seq<char>> {
    if t.len() == 0 {
        Seq::empty()
    } else {
        let take = if t.len() < window {
            t.len() as int
        } else {
            window as int
        };
        let first = t.subrange(0, take);
        seq![first] + chunk_step(t, window, overlap, take, first)
    }
}

/// Concatenation of `cs` with each chunk's leading carry-over trimmed, where
/// the carry-over of a chunk is the overlap text of the chunk before it
/// (`prev` before the first).
pub open spec fn concat_trimmed(cs: Seq<Seq<char>>, prev: Seq<char>, overlap: nat) -> Seq<char>
    decreases cs.len(),
{
    if cs.len() == 0 {
        Seq::empty()
    } else {
        let trim = overlap_text_spec(prev, overlap).len();
        cs[0].subrange(trim as int, cs[0].len() as int) + concat_trimmed(
            cs.subrange(1, cs.len() as int),
            cs[0],
            overlap,
        )
    }
}

proof fn lemma_step_coverage(t: Seq<char>, window: nat, overlap: nat, pos: int, prev: Seq<char>)
    requires
        window >= 1,
        0 <= pos <= t.len(),
    ensures
        concat_trimmed(chunk_step(t, window, overlap, pos, prev), prev, overlap) == t.subrange(
            pos,
            t.len() as int,
        ),
    decreases t.len() - pos,
{
    if pos >= t.len() {
        assert(concat_trimmed(chunk_step(t, window, overlap, pos, prev), prev, overlap) =~= t
            .subrange(pos, t.len() as int));
    } else {
        let take = if t.len() - pos < window {
            t.len() - pos
        } else {
            window as int
        };
        let carry = overlap_text_spec(prev, overlap);
        let chunk = carry + t.subrange(pos, pos + take);
        let cs = seq![chunk] + chunk_step(t, window, overlap, pos + take, chunk);
        assert(cs.subrange(1, cs.len() as int) =~= chunk_step(t, window, overlap, pos + take, chunk));
        lemma_step_coverage(t, window, overlap, pos + take, chunk);
        assert(chunk.subrange(carry.len() as int, chunk.len() as int) =~= t.subrange(
            pos,
            pos + take,
        ));
        assert(t.subrange(pos, pos + take) + t.subrange(pos + take, t.len() as int) =~= t.subrange(
            pos,
            t.len() as int,
        ));
    }
}

/// Chunk coverage: concatenating the chunks of a text while trimming each
/// chunk's leading carry-over, as the overlap algorithm computes it from the
/// chunk before, reconstructs the text exactly.
pub proof fn lemma_chunk_coverage(t: Seq<char>, window: nat, overlap: nat)
    requires
        window >= 1,
    ensures
        concat_trimmed(chunks_of(t, window, overlap), Seq::<char>::empty(), overlap) == t,
{
    if t.len() == 0 {
        assert(concat_trimmed(chunks_of(t, window, overlap), Seq::<char>::empty(), overlap) =~= t);
    } else {
        let take = if t.len() < window {
            t.len() as int
        } else {
            window as int
        };
        let first = t.subrange(0, take);
        let cs = seq![first] + chunk_step(t, window, overlap, take, first);
        assert(cs.subrange(1, cs.len() as int) =~= chunk_step(t, window, overlap, take, first));
        lemma_step_coverage(t, window, overlap, take, first);
        assert(overlap_text_spec(Seq::<char>::empty(), overlap) =~= Seq::<char>::empty());
        assert(cs[0].subrange(0, cs[0].len() as int) =~= first);
        assert(first + t.subrange(take, t.len() as int) =~= t);
    }
}

/// Splits a note's text into its ordered search chunks: the first chunk is
/// the leading window, and every further chunk carries over the overlap text
/// of the one before it, then up to `window` fresh characters.
pub fn chunk_note(text: &str, window: usize, overlap: usize) -> (r: Vec<String>)
    requires
        window >= 1,
    ensures
        r.deep_view() == chunks_of(text@, window as nat, overlap as nat),
{
    let ghost w = window as nat;
    let ghost o = overlap as nat;
    let n = text.unicode_len();
    let mut r: Vec<String> = Vec::new();
    if n == 0 {
        assert(r.deep_view() =~= chunks_of(text@, w, o));
        return r;
    }
    let take0 = if n < window {
        n
    } else {
        window
    };
    let first = text.substring_char(0, take0).to_owned();
    let mut prev = first.clone();
    r.push(first);
    let mut pos = take0;
    assert(r.deep_view() =~= seq![text@.subrange(0, take0 as int)]);
    while pos < n
        invariant
            window >= 1,
            w == window as nat,
            o == overlap as nat,
            pos <= n,
            n == text@.len(),
            prev@ == r.deep_view().last(),
            r.len() >= 1,
            chunks_of(text@, w, o) == r.deep_view() + chunk_step(text@, w, o, pos as int, prev@),
        decreases n - pos,
    {
        let ghost prev0 = prev@;
        let mut chunk = get_overlap_text(prev.as_str(), overlap);
        let take = if n - pos < window {
            n - pos
        } else {
            window
        };
        let fresh = text.substring_char(pos, pos + take);
        chunk.append(fresh);
        let ghost old_dv = r.deep_view();
        prev = chunk.clone();
        r.push(chunk);
        proof {
            let take_s = if text@.len() - pos < window {
                text@.len() - pos
            } else {
                window as int
            };
            assert(take_s == take as int);
            assert(prev@ == overlap_text_spec(prev0, o) + text@.subrange(
                pos as int,
                pos as int + take_s,
            ));
            assert(chunk_step(text@, w, o, pos as int, prev0) == seq![prev@] + chunk_step(
                text@,
                w,
                o,
                pos as int + take_s,
                prev@,
            ));
            assert(r.deep_view() =~~= old_dv.push(prev@));
            assert(old_dv.push(prev@) =~= old_dv + seq![prev@]);
            assert((old_dv + seq![prev@]) + chunk_step(text@, w, o, (pos + take) as int, prev@)
                =~= old_dv + (seq![prev@] + chunk_step(text@, w, o, (pos + take) as int, prev@)));
        }
        pos = pos + take;
    }
    assert(chunks_of(text@, w, o) =~= r.deep_view());
    r
}

} // verus!
