//! Splitting a document's text into search chunks that are exact slices of
//! the original text, with their byte offsets, so that a search hit can
//! point at (and highlight) the real position in the document.
use vstd::prelude::*;
use vstd::std_specs::iter::IteratorSpec;
use vstd::utf8::{encode_utf8, is_char_boundary};
use crate::text::{
    byte_offset, char_utf8_width, is_white_space, lemma_byte_offset_full, lemma_char_boundary,
    lemma_byte_offset_split, lemma_byte_offset_step, lemma_byte_offset_strict, lemma_trim_bounds,
    slice_chars, trim_bounds, trim_end, trim_start, utf8_len,
};

verus! {

/// A character after which a chunk may end.
pub open spec fn is_break(c: char) -> bool {
    c == '.' || c == '\n'
}

/// The chunk made of the characters `[a, b)` of `cs` without surrounding
/// whitespace: its text and byte offsets, or nothing when only whitespace
/// is left.
pub open spec fn trimmed_piece(cs: Seq<char>, a: int, b: int) -> Seq<(Seq<char>, nat, nat)> {
    let sub = cs.subrange(a, b);
    let ts = a + trim_start(sub);
    let te = a + trim_end(sub);
    if ts < te {
        seq![(cs.subrange(ts, te), byte_offset(cs, ts), byte_offset(cs, te))]
    } else {
        seq![]
    }
}

/// The chunks of `cs` from character `i` on, when the current chunk began
/// at character `start`: a chunk ends after a '.' or '\n' once it spans at
/// least `target` bytes, and whatever is left at the end forms the last one.
pub open spec fn chunks_from(cs: Seq<char>, target: int, start: int, i: int) -> Seq<(Seq<char>, nat, nat)>
    decreases cs.len() - i,
{
    if i >= cs.len() {
        if start < cs.len() {
            trimmed_piece(cs, start, cs.len() as int)
        } else {
            seq![]
        }
    } else if is_break(cs[i]) && byte_offset(cs, i + 1) - byte_offset(cs, start) >= target {
        trimmed_piece(cs, start, i + 1) + chunks_from(cs, target, i + 1, i + 1)
    } else {
        chunks_from(cs, target, start, i + 1)
    }
}

/// The chunks of the whole text `cs` for a target size of `target` bytes.
pub open spec fn text_chunks(cs: Seq<char>, target: int) -> Seq<(Seq<char>, nat, nat)> {
    chunks_from(cs, target, 0, 0)
}

pub open spec fn chunk_views(v: Seq<(String, usize, usize)>) -> Seq<(Seq<char>, nat, nat)> {
    v.map_values(|c: (String, usize, usize)| (c.0@, c.1 as nat, c.2 as nat))
}

fn is_break_char(c: char) -> (r: bool)
    ensures
        r == is_break(c),
{
    c == '.' || c == '\n'
}

proof fn lemma_sub_offset(cs: Seq<char>, a: int, b: int, t: int)
    requires
        0 <= a <= b <= cs.len(),
        0 <= t <= b - a,
    ensures
        byte_offset(cs, a + t) == byte_offset(cs, a) + byte_offset(cs.subrange(a, b), t),
{
    lemma_byte_offset_split(cs, a, a + t);
    assert(cs.skip(a).take(t) =~= cs.subrange(a, b).take(t));
}

/// Append to `chunks` the trimmed text of `text[start..end]`, which spans
/// the characters `[a, b)`, with its byte offsets, unless it is blank.
fn push_trimmed(
    chunks: &mut Vec<(String, usize, usize)>,
    text: &str,
    start: usize,
    end: usize,
    Ghost(a): Ghost<int>,
    Ghost(b): Ghost<int>,
)
    requires
        0 <= a <= b <= text@.len(),
        start == byte_offset(text@, a),
        end == byte_offset(text@, b),
    ensures
        chunk_views(final(chunks)@) == chunk_views(old(chunks)@) + trimmed_piece(text@, a, b),
{
    let ghost cs = text@;
    let slice = slice_chars(text, start, end, Ghost(a), Ghost(b));
    let ghost sub = slice@;
    let (lo, hi) = trim_bounds(slice);
    proof {
        lemma_trim_bounds(sub);
        lemma_sub_offset(cs, a, b, trim_start(sub));
        lemma_sub_offset(cs, a, b, trim_end(sub));
        lemma_sub_offset(cs, a, b, b - a);
        lemma_byte_offset_strict(sub, trim_start(sub), trim_end(sub));
        lemma_byte_offset_split(sub, trim_start(sub), trim_end(sub));
        lemma_byte_offset_split(sub, trim_end(sub), sub.len() as int);
        lemma_byte_offset_full(sub);
    }
    if lo >= hi {
        proof {
            assert(chunk_views(chunks@) =~= chunk_views(old(chunks)@) + trimmed_piece(cs, a, b));
        }
        return;
    }
    let piece = slice_chars(slice, lo, hi, Ghost(trim_start(sub)), Ghost(trim_end(sub)));
    let entry = (piece.to_owned(), start + lo, start + hi);
    let ghost before = chunks@;
    chunks.push(entry);
    proof {
        assert(chunks@ == before.push(entry));
        assert(sub.subrange(trim_start(sub), trim_end(sub)) =~= cs.subrange(
            a + trim_start(sub),
            a + trim_end(sub),
        ));
        assert(chunk_views(chunks@) =~= chunk_views(before) + trimmed_piece(cs, a, b));
    }
}

/// Split `text` into chunks that are exact substrings of it (with their
/// byte offsets), breaking after '.' or '\n' once a chunk reaches
/// `target_size` bytes; chunks are trimmed of surrounding whitespace and
/// blank ones are dropped.
pub fn chunk_with_offsets(text: &str, target_size: usize) -> (chunks: Vec<(String, usize, usize)>)
    ensures
        chunk_views(chunks@) == text_chunks(text@, target_size as int),
        forall|q: int| 0 <= q < chunks@.len()
            ==> ends_at_first_break(#[trigger] chunk_views(chunks@)[q], target_size as int),
        chunks_reach_target(chunk_views(chunks@), 0, target_size as int),
{
    proof {
        law_chunks_end_at_first_break(text@, target_size as int);
        law_chunks_reach_target(text@, target_size as int);
    }
    let ghost cs = text@;
    let mut chunks: Vec<(String, usize, usize)> = Vec::new();
    let mut chunk_start: usize = 0;
    let ghost mut cstart: int = 0;
    let mut pos: usize = 0;
    let total = text.as_bytes().len();
    proof {
        lemma_byte_offset_full(cs);
        assert(chunk_views(chunks@) =~= Seq::<(Seq<char>, nat, nat)>::empty());
    }
    for c in it: text.chars()
        invariant
            it.seq() == cs,
            cs == text@,
            0 <= cstart <= it.index() <= cs.len(),
            pos == byte_offset(cs, it.index()),
            chunk_start == byte_offset(cs, cstart),
            total == utf8_len(cs),
            chunk_views(chunks@) + chunks_from(cs, target_size as int, cstart, it.index())
                == text_chunks(cs, target_size as int),
    {
        let ghost k = it.index();
        proof {
            lemma_byte_offset_step(cs, k);
            lemma_byte_offset_split(cs, k + 1, cs.len() as int);
            lemma_byte_offset_split(cs, cstart, k + 1);
        }
        let w = char_utf8_width(c);
        if is_break_char(c) {
            let boundary_end = pos + w;
            if boundary_end - chunk_start >= target_size {
                let ghost before = chunks@;
                let ghost cs0 = cstart;
                push_trimmed(&mut chunks, text, chunk_start, boundary_end, Ghost(cstart), Ghost(k + 1));
                chunk_start = boundary_end;
                proof {
                    cstart = k + 1;
                    assert(chunks_from(cs, target_size as int, cs0, k) == trimmed_piece(cs, cs0, k + 1)
                        + chunks_from(cs, target_size as int, k + 1, k + 1));
                    assert(chunk_views(chunks@) + chunks_from(cs, target_size as int, cstart, k + 1)
                        =~= chunk_views(before) + chunks_from(cs, target_size as int, cs0, k));
                }
            }
        }
        pos = pos + w;
    }
    proof {
        lemma_byte_offset_full(cs);
    }
    if chunk_start < total {
        push_trimmed(&mut chunks, text, chunk_start, total, Ghost(cstart), Ghost(cs.len() as int));
    } else {
        proof {
            lemma_byte_offset_strict(cs, cstart, cs.len() as int);
        }
    }
    chunks
}

/// A chunk is a non-empty slice of the text without whitespace at either
/// end, and its offsets are the bytes it occupies in the text's encoding,
/// both on character boundaries.
pub open spec fn chunk_ok(cs: Seq<char>, c: (Seq<char>, nat, nat)) -> bool {
    &&& c.1 < c.2 <= utf8_len(cs)
    &&& is_char_boundary(encode_utf8(cs), c.1 as int)
    &&& is_char_boundary(encode_utf8(cs), c.2 as int)
    &&& encode_utf8(cs).subrange(c.1 as int, c.2 as int) == encode_utf8(c.0)
    &&& c.0.len() > 0
    &&& !is_white_space(c.0[0])
    &&& !is_white_space(c.0[c.0.len() - 1])
}

/// Every chunk is well formed and starts at or after byte `lo`, and the
/// chunks come in text order without overlapping.
pub open spec fn chunks_ok(cs: Seq<char>, v: Seq<(Seq<char>, nat, nat)>, lo: nat) -> bool {
    &&& forall|k: int| 0 <= k < v.len() ==> chunk_ok(cs, #[trigger] v[k]) && lo <= v[k].1
    &&& forall|k: int, l: int| 0 <= k < l < v.len() ==> #[trigger] v[k].2 <= #[trigger] v[l].1
}

/// The byte `x` lies inside one of the chunks.
pub open spec fn covered(v: Seq<(Seq<char>, nat, nat)>, x: nat) -> bool {
    exists|k: int| 0 <= k < v.len() && #[trigger] v[k].1 <= x < v[k].2
}

proof fn lemma_slice_bytes(cs: Seq<char>, i: int, j: int)
    requires
        0 <= i <= j <= cs.len(),
    ensures
        encode_utf8(cs).subrange(byte_offset(cs, i) as int, byte_offset(cs, j) as int)
            == encode_utf8(cs.subrange(i, j)),
{
    lemma_byte_offset_split(cs, i, j);
    let rest = cs.skip(i);
    lemma_byte_offset_split(rest, j - i, rest.len() as int);
    assert(rest.take(j - i) =~= cs.subrange(i, j));
    assert(encode_utf8(cs).subrange(byte_offset(cs, i) as int, byte_offset(cs, j) as int)
        =~= encode_utf8(rest.take(j - i)));
}

proof fn lemma_piece_ok(cs: Seq<char>, a: int, b: int)
    requires
        0 <= a <= b <= cs.len(),
    ensures
        chunks_ok(cs, trimmed_piece(cs, a, b), byte_offset(cs, a)),
        trimmed_piece(cs, a, b).len() <= 1,
        forall|k: int| 0 <= k < trimmed_piece(cs, a, b).len() ==> #[trigger] trimmed_piece(cs, a, b)[k].2 <= byte_offset(cs, b),
        forall|m: int| a <= m < b && !is_white_space(#[trigger] cs[m]) ==> covered(trimmed_piece(cs, a, b), byte_offset(cs, m)),
{
    let sub = cs.subrange(a, b);
    lemma_trim_bounds(sub);
    let ts = a + trim_start(sub);
    let te = a + trim_end(sub);
    lemma_byte_offset_split(cs, a, ts);
    lemma_byte_offset_split(cs, ts, te);
    lemma_byte_offset_split(cs, te, b);
    lemma_byte_offset_split(cs, b, cs.len() as int);
    lemma_byte_offset_full(cs);
    let v = trimmed_piece(cs, a, b);
    if ts < te {
        lemma_byte_offset_strict(cs, ts, te);
        lemma_slice_bytes(cs, ts, te);
        lemma_char_boundary(cs, ts);
        lemma_char_boundary(cs, te);
        let t = cs.subrange(ts, te);
        assert(t[0] == sub[trim_start(sub)]);
        assert(t[t.len() - 1] == sub[trim_end(sub) - 1]);
        assert(chunk_ok(cs, v[0]));
        assert forall|m: int| a <= m < b && !is_white_space(#[trigger] cs[m]) implies covered(v, byte_offset(cs, m)) by {
            assert(sub[m - a] == cs[m]);
            lemma_byte_offset_strict(cs, ts, m);
            lemma_byte_offset_strict(cs, m, te);
            assert(v[0].1 <= byte_offset(cs, m) < v[0].2);
        }
    } else {
        assert forall|m: int| a <= m < b && !is_white_space(#[trigger] cs[m]) implies covered(v, byte_offset(cs, m)) by {
            assert(sub[m - a] == cs[m]);
        }
    }
}

proof fn lemma_concat_ok(
    cs: Seq<char>,
    p: Seq<(Seq<char>, nat, nat)>,
    q: Seq<(Seq<char>, nat, nat)>,
    lo: nat,
    mid: nat,
)
    requires
        chunks_ok(cs, p, lo),
        chunks_ok(cs, q, mid),
        lo <= mid,
        forall|k: int| 0 <= k < p.len() ==> #[trigger] p[k].2 <= mid,
    ensures
        chunks_ok(cs, p + q, lo),
        forall|x: nat| covered(p, x) ==> covered(#[trigger] (p + q), x),
        forall|x: nat| covered(q, x) ==> covered(#[trigger] (p + q), x),
{
    let r = p + q;
    assert forall|k: int| 0 <= k < r.len() implies chunk_ok(cs, #[trigger] r[k]) && lo <= r[k].1 by {
        if k < p.len() {
            assert(r[k] == p[k]);
        } else {
            assert(r[k] == q[k - p.len()]);
        }
    }
    assert forall|k: int, l: int| 0 <= k < l < r.len() implies #[trigger] r[k].2 <= #[trigger] r[l].1 by {
        if l < p.len() {
            assert(r[k] == p[k] && r[l] == p[l]);
        } else if k < p.len() {
            assert(r[k] == p[k] && r[l] == q[l - p.len()]);
            assert(chunk_ok(cs, q[l - p.len()]));
        } else {
            assert(r[k] == q[k - p.len()] && r[l] == q[l - p.len()]);
        }
    }
    assert forall|x: nat| covered(p, x) implies covered(#[trigger] (p + q), x) by {
        let k = choose|k: int| 0 <= k < p.len() && #[trigger] p[k].1 <= x < p[k].2;
        assert(r[k] == p[k]);
    }
    assert forall|x: nat| covered(q, x) implies covered(#[trigger] (p + q), x) by {
        let k = choose|k: int| 0 <= k < q.len() && #[trigger] q[k].1 <= x < q[k].2;
        assert(r[k + p.len()] == q[k]);
    }
}

proof fn lemma_chunks_from_ok(cs: Seq<char>, target: int, start: int, i: int)
    requires
        0 <= start <= i <= cs.len(),
    ensures
        chunks_ok(cs, chunks_from(cs, target, start, i), byte_offset(cs, start)),
        forall|m: int| start <= m < cs.len() && !is_white_space(#[trigger] cs[m])
            ==> covered(chunks_from(cs, target, start, i), byte_offset(cs, m)),
    decreases cs.len() - i,
{
    let v = chunks_from(cs, target, start, i);
    if i >= cs.len() {
        if start < cs.len() {
            lemma_piece_ok(cs, start, cs.len() as int);
        }
    } else if is_break(cs[i]) && byte_offset(cs, i + 1) - byte_offset(cs, start) >= target {
        lemma_piece_ok(cs, start, i + 1);
        lemma_chunks_from_ok(cs, target, i + 1, i + 1);
        lemma_byte_offset_split(cs, start, i + 1);
        let p = trimmed_piece(cs, start, i + 1);
        let q = chunks_from(cs, target, i + 1, i + 1);
        lemma_concat_ok(cs, p, q, byte_offset(cs, start), byte_offset(cs, i + 1));
        assert forall|m: int| start <= m < cs.len() && !is_white_space(#[trigger] cs[m])
            implies covered(v, byte_offset(cs, m)) by {
            if m < i + 1 {
                assert(covered(p, byte_offset(cs, m)));
            } else {
                assert(covered(q, byte_offset(cs, m)));
            }
        }
    } else {
        lemma_chunks_from_ok(cs, target, start, i + 1);
    }
}

/// Law: every chunk is a non-empty, trimmed slice of the text, and its
/// offsets are character boundaries that delimit exactly the bytes of that
/// slice (`&text[start..end] == chunk`);
/// chunks come in text order and do not overlap.
pub proof fn law_chunks_are_exact_slices(cs: Seq<char>, target: int)
    ensures
        chunks_ok(cs, text_chunks(cs, target), 0),
{
    lemma_chunks_from_ok(cs, target, 0, 0);
    lemma_byte_offset_full(cs);
}

/// Law: no text is lost: every non-whitespace character lies inside a chunk.
pub proof fn law_chunks_cover_text(cs: Seq<char>, target: int)
    ensures
        forall|m: int| 0 <= m < cs.len() && !is_white_space(#[trigger] cs[m])
            ==> covered(text_chunks(cs, target), byte_offset(cs, m)),
{
    lemma_chunks_from_ok(cs, target, 0, 0);
}

proof fn lemma_chunks_from_blank(cs: Seq<char>, target: int, start: int, i: int)
    requires
        0 <= start <= i <= cs.len(),
        forall|m: int| 0 <= m < cs.len() ==> is_white_space(#[trigger] cs[m]),
    ensures
        chunks_from(cs, target, start, i).len() == 0,
    decreases cs.len() - i,
{
    if i >= cs.len() {
        if start < cs.len() {
            lemma_piece_blank(cs, start, cs.len() as int);
        }
    } else if is_break(cs[i]) && byte_offset(cs, i + 1) - byte_offset(cs, start) >= target {
        lemma_piece_blank(cs, start, i + 1);
        lemma_chunks_from_blank(cs, target, i + 1, i + 1);
    } else {
        lemma_chunks_from_blank(cs, target, start, i + 1);
    }
}

proof fn lemma_piece_blank(cs: Seq<char>, a: int, b: int)
    requires
        0 <= a <= b <= cs.len(),
        forall|m: int| 0 <= m < cs.len() ==> is_white_space(#[trigger] cs[m]),
    ensures
        trimmed_piece(cs, a, b).len() == 0,
{
    let sub = cs.subrange(a, b);
    assert forall|m: int| 0 <= m < sub.len() implies is_white_space(#[trigger] sub[m]) by {
        assert(sub[m] == cs[a + m]);
    }
    lemma_trim_bounds(sub);
}

/// Law: blank text (empty, or whitespace only) has no chunks.
pub proof fn law_blank_text_has_no_chunks(cs: Seq<char>, target: int)
    requires
        forall|m: int| 0 <= m < cs.len() ==> is_white_space(#[trigger] cs[m]),
    ensures
        text_chunks(cs, target).len() == 0,
{
    lemma_chunks_from_blank(cs, target, 0, 0);
}

/// No '.' or '\n' inside the chunk (before its last character) comes at a
/// point where the chunk already spans `target` bytes: there the chunk would
/// have ended.
pub open spec fn ends_at_first_break(c: (Seq<char>, nat, nat), target: int) -> bool {
    forall|j: int|
        0 <= j < c.0.len() - 1 && (#[trigger] c.0[j] == '.' || c.0[j] == '\n') ==> utf8_len(c.0.take(j + 1)) < target
}

proof fn lemma_piece_breaks(cs: Seq<char>, target: int, a: int, b: int)
    requires
        0 <= a <= b <= cs.len(),
        forall|k: int| a <= k < b - 1 && (#[trigger] cs[k] == '.' || cs[k] == '\n')
            ==> byte_offset(cs, k + 1) - byte_offset(cs, a) < target,
    ensures
        forall|q: int| 0 <= q < trimmed_piece(cs, a, b).len() ==> ends_at_first_break(#[trigger] trimmed_piece(cs, a, b)[q], target),
{
    let sub = cs.subrange(a, b);
    lemma_trim_bounds(sub);
    let ts = a + trim_start(sub);
    let te = a + trim_end(sub);
    let v = trimmed_piece(cs, a, b);
    if ts < te {
        let c = v[0];
        assert forall|j: int| 0 <= j < c.0.len() - 1 && (#[trigger] c.0[j] == '.' || c.0[j] == '\n')
            implies utf8_len(c.0.take(j + 1)) < target by {
            let k = ts + j;
            assert(c.0[j] == cs[k]);
            lemma_byte_offset_split(cs, ts, k + 1);
            assert(cs.skip(ts).take(k + 1 - ts) =~= c.0.take(j + 1));
            lemma_byte_offset_split(cs, a, ts);
        }
    }
}

proof fn lemma_chunks_from_breaks(cs: Seq<char>, target: int, start: int, i: int)
    requires
        0 <= start <= i <= cs.len(),
        forall|k: int| start <= k < i && (#[trigger] cs[k] == '.' || cs[k] == '\n')
            ==> byte_offset(cs, k + 1) - byte_offset(cs, start) < target,
    ensures
        forall|q: int| 0 <= q < chunks_from(cs, target, start, i).len()
            ==> ends_at_first_break(#[trigger] chunks_from(cs, target, start, i)[q], target),
    decreases cs.len() - i,
{
    let v = chunks_from(cs, target, start, i);
    if i >= cs.len() {
        if start < cs.len() {
            lemma_piece_breaks(cs, target, start, cs.len() as int);
            assert(v == trimmed_piece(cs, start, cs.len() as int));
        } else {
            assert(v.len() == 0);
        }
    } else if is_break(cs[i]) && byte_offset(cs, i + 1) - byte_offset(cs, start) >= target {
        lemma_piece_breaks(cs, target, start, i + 1);
        lemma_chunks_from_breaks(cs, target, i + 1, i + 1);
        let p = trimmed_piece(cs, start, i + 1);
        let r = chunks_from(cs, target, i + 1, i + 1);
        assert(v == p + r);
        assert forall|q: int| 0 <= q < v.len() implies ends_at_first_break(#[trigger] v[q], target) by {
            if q < p.len() {
                assert(v[q] == p[q]);
            } else {
                assert(v[q] == r[q - p.len()]);
            }
        }
    } else {
        lemma_chunks_from_breaks(cs, target, start, i + 1);
        assert(v == chunks_from(cs, target, start, i + 1));
    }
}

/// Law: a chunk ends at the first '.' or '\n' at which it spans at least
/// `target` bytes: within a chunk, every '.' and '\n' before its last
/// character comes before the chunk reaches `target` bytes. (So a line of
/// at least `target` bytes never runs on into the next line's chunk.)
pub proof fn law_chunks_end_at_first_break(cs: Seq<char>, target: int)
    ensures
        forall|q: int| 0 <= q < text_chunks(cs, target).len()
            ==> ends_at_first_break(#[trigger] text_chunks(cs, target)[q], target),
{
    lemma_chunks_from_breaks(cs, target, 0, 0);
}

/// Each chunk but the last, together with the whitespace around it, spans
/// at least `target` bytes: from the end of the chunk before it (from `lo`
/// for the first one) to the start of the chunk after it.
pub open spec fn chunks_reach_target(v: Seq<(Seq<char>, nat, nat)>, lo: int, target: int) -> bool {
    forall|q: int| 0 <= q < v.len() - 1
        ==> (#[trigger] v[q + 1]).1 - (if q == 0 { lo } else { v[q - 1].2 as int }) >= target
}

proof fn lemma_chunks_from_reach(cs: Seq<char>, target: int, start: int, i: int)
    requires
        0 <= start <= i <= cs.len(),
    ensures
        chunks_reach_target(chunks_from(cs, target, start, i), byte_offset(cs, start) as int, target),
    decreases cs.len() - i,
{
    let v = chunks_from(cs, target, start, i);
    if i >= cs.len() {
        if start < cs.len() {
            lemma_piece_ok(cs, start, cs.len() as int);
            assert(v == trimmed_piece(cs, start, cs.len() as int));
        } else {
            assert(v.len() == 0);
        }
    } else if is_break(cs[i]) && byte_offset(cs, i + 1) - byte_offset(cs, start) >= target {
        lemma_piece_ok(cs, start, i + 1);
        lemma_chunks_from_ok(cs, target, i + 1, i + 1);
        lemma_chunks_from_reach(cs, target, i + 1, i + 1);
        lemma_byte_offset_split(cs, start, i + 1);
        let p = trimmed_piece(cs, start, i + 1);
        let r = chunks_from(cs, target, i + 1, i + 1);
        assert(v == p + r);
        if p.len() == 0 {
            assert(v =~= r);
        } else {
            assert forall|q: int| 0 <= q < v.len() - 1
                implies (#[trigger] v[q + 1]).1 - (if q == 0 { byte_offset(cs, start) as int } else { v[q - 1].2 as int }) >= target by {
                assert(v[q + 1] == r[q]);
                if q == 0 {
                    assert(chunk_ok(cs, r[0]) && byte_offset(cs, i + 1) <= r[0].1);
                } else if q == 1 {
                    assert(v[0] == p[0]);
                    assert(r[(q - 1) + 1] == r[q]);
                } else {
                    assert(v[q - 1] == r[q - 2]);
                    assert(r[(q - 1) + 1] == r[q]);
                }
            }
        }
    } else {
        lemma_chunks_from_reach(cs, target, start, i + 1);
        assert(v == chunks_from(cs, target, start, i + 1));
        lemma_byte_offset_split(cs, start, i + 1);
    }
}

/// Law: a chunk does not end before it reaches the target size: each
/// chunk but the last, with the whitespace around it, spans at least
/// `target` bytes, counted from the end of the chunk before it (from the
/// start of the text for the first one) to the start of the chunk after it.
pub proof fn law_chunks_reach_target(cs: Seq<char>, target: int)
    ensures
        chunks_reach_target(text_chunks(cs, target), 0, target),
{
    lemma_chunks_from_reach(cs, target, 0, 0);
}

} // verus!
