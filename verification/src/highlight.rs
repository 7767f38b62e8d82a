//! Splitting full-text-search highlight output into marked and unmarked
//! segments. The search engine delimits each matched span with the control
//! characters U+0001 (start) and U+0002 (end) instead of HTML tags, so the
//! snippet text itself never has to be trusted as markup.
use vstd::prelude::*;
use vstd::std_specs::cmp::PartialEqSpecImpl;
use crate::text::{lemma_byte_offset_strict, byte_offset, lemma_byte_offset_full, lemma_byte_offset_split, lemma_byte_offset_step, utf8_len, char_utf8_width, slice_chars};

verus! {

/// A run of snippet text, and whether it lies inside a highlighted span.
#[derive(Debug)]
pub struct HighlightSegment {
    pub text: String,
    pub marked: bool,
}

impl View for HighlightSegment {
    type V = (Seq<char>, bool);

    open spec fn view(&self) -> (Seq<char>, bool) {
        (self.text@, self.marked)
    }
}

impl PartialEq for HighlightSegment {
    fn eq(&self, other: &Self) -> (r: bool) {
        self.text == other.text && self.marked == other.marked
    }
}

impl PartialEqSpecImpl for HighlightSegment {
    open spec fn obeys_eq_spec() -> bool {
        true
    }

    open spec fn eq_spec(&self, other: &HighlightSegment) -> bool {
        self.text@ == other.text@ && self.marked == other.marked
    }
}

/// U+0001, which opens a highlighted span.
pub open spec fn is_open_marker(c: char) -> bool {
    c == '\u{1}'
}

/// U+0002, which closes a highlighted span.
pub open spec fn is_close_marker(c: char) -> bool {
    c == '\u{2}'
}

pub open spec fn is_marker(c: char) -> bool {
    is_open_marker(c) || is_close_marker(c)
}

/// The pending text `cur` as a segment, unless it is empty.
pub open spec fn flush(cur: Seq<char>, marked: bool) -> Seq<(Seq<char>, bool)> {
    if cur.len() > 0 {
        seq![(cur, marked)]
    } else {
        seq![]
    }
}

/// The segments of `cs`, given that the text before it left the pending
/// text `cur` in state `marked`: every marker ends the pending segment and
/// sets the state for the text after it (U+0001 marked, U+0002 unmarked);
/// other characters extend the pending segment; empty segments are dropped.
pub open spec fn segments_from(cs: Seq<char>, marked: bool, cur: Seq<char>) -> Seq<(Seq<char>, bool)>
    decreases cs.len(),
{
    if cs.len() == 0 {
        flush(cur, marked)
    } else if is_open_marker(cs[0]) {
        flush(cur, marked) + segments_from(cs.drop_first(), true, seq![])
    } else if is_close_marker(cs[0]) {
        flush(cur, marked) + segments_from(cs.drop_first(), false, seq![])
    } else {
        segments_from(cs.drop_first(), marked, cur.push(cs[0]))
    }
}

/// The segments of a whole highlighted snippet, which starts unmarked.
pub open spec fn highlight_segments(cs: Seq<char>) -> Seq<(Seq<char>, bool)> {
    segments_from(cs, false, seq![])
}

/// `cs` with the marker characters removed.
pub open spec fn strip_markers(cs: Seq<char>) -> Seq<char>
    decreases cs.len(),
{
    if cs.len() == 0 {
        seq![]
    } else if is_marker(cs[0]) {
        strip_markers(cs.drop_first())
    } else {
        seq![cs[0]] + strip_markers(cs.drop_first())
    }
}

/// The texts of `segs`, joined.
pub open spec fn joined_texts(segs: Seq<(Seq<char>, bool)>) -> Seq<char>
    decreases segs.len(),
{
    if segs.len() == 0 {
        seq![]
    } else {
        segs[0].0 + joined_texts(segs.drop_first())
    }
}

pub open spec fn views(v: Seq<HighlightSegment>) -> Seq<(Seq<char>, bool)> {
    v.map_values(|h: HighlightSegment| h@)
}

fn is_open_marker_char(c: char) -> (r: bool)
    ensures
        r == is_open_marker(c),
{
    c == '\u{1}'
}

fn is_close_marker_char(c: char) -> (r: bool)
    ensures
        r == is_close_marker(c),
{
    c == '\u{2}'
}

/// Split the highlight output `s` (spans delimited by U+0001 and U+0002)
/// into safe-to-render segments.
pub fn parse_highlight_markers(s: &str) -> (segments: Vec<HighlightSegment>)
    ensures
        views(segments@) == highlight_segments(s@),
{
    let ghost cs = s@;
    let mut segments: Vec<HighlightSegment> = Vec::new();
    let mut marked = false;
    let mut pos: usize = 0;
    let mut cur_start: usize = 0;
    let ghost mut cur_i: int = 0;
    let total = s.as_bytes().len();
    proof {
        lemma_byte_offset_full(cs);
        assert(cs.skip(0) =~= cs);
        assert(cs.subrange(0, 0) =~= Seq::<char>::empty());
        assert(views(segments@) =~= Seq::<(Seq<char>, bool)>::empty());
    }
    for c in it: s.chars()
        invariant
            it.seq() == cs,
            cs == s@,
            0 <= cur_i <= it.index() <= cs.len(),
            pos == byte_offset(cs, it.index()),
            cur_start == byte_offset(cs, cur_i),
            total == utf8_len(cs),
            views(segments@) + segments_from(cs.skip(it.index()), marked, cs.subrange(cur_i, it.index()))
                == highlight_segments(cs),
    {
        let ghost k = it.index();
        let ghost before = segments@;
        proof {
            lemma_byte_offset_step(cs, k);
            lemma_byte_offset_split(cs, cur_i, k);
            lemma_byte_offset_split(cs, k + 1, cs.len() as int);
            let rest = cs.skip(k);
            assert(rest[0] == cs[k]);
            assert(rest.drop_first() =~= cs.skip(k + 1));
            assert(cs.subrange(cur_i, k).push(cs[k]) =~= cs.subrange(cur_i, k + 1));
            assert(cs.subrange(k + 1, k + 1) =~= Seq::<char>::empty());
        }
        let w = char_utf8_width(c);
        if is_open_marker_char(c) || is_close_marker_char(c) {
            if cur_start < pos {
                let piece = slice_chars(s, cur_start, pos, Ghost(cur_i), Ghost(k));
                let seg = HighlightSegment { text: piece.to_owned(), marked };
                segments.push(seg);
                proof {
                    assert(segments@ == before.push(seg));
                    assert(views(segments@) =~= views(before).push(seg@));
                    assert(views(segments@) =~= views(before) + flush(cs.subrange(cur_i, k), marked));
                }
            } else {
                proof {
                    assert(cs.subrange(cur_i, k).len() == 0);
                    assert(views(segments@) =~= views(before) + flush(cs.subrange(cur_i, k), marked));
                }
            }
            marked = is_open_marker_char(c);
            cur_start = pos + w;
            proof {
                cur_i = k + 1;
            }
        }
        pos = pos + w;
    }
    let ghost before = segments@;
    proof {
        assert(cs.skip(cs.len() as int) =~= Seq::<char>::empty());
        lemma_byte_offset_full(cs);
    }
    if cur_start < total {
        let piece = slice_chars(s, cur_start, total, Ghost(cur_i), Ghost(cs.len() as int));
        let seg = HighlightSegment { text: piece.to_owned(), marked };
        segments.push(seg);
        proof {
            assert(segments@ == before.push(seg));
            assert(views(segments@) =~= views(before).push(seg@));
            assert(views(segments@) =~= views(before) + flush(cs.subrange(cur_i, cs.len() as int), marked));
        }
    } else {
        proof {
            lemma_byte_offset_strict(cs, cur_i, cs.len() as int);
            assert(views(segments@) =~= views(before) + flush(cs.subrange(cur_i, cs.len() as int), marked));
        }
    }
    segments
}

/// Every segment is non-empty and free of marker characters.
pub open spec fn clean_segments(segs: Seq<(Seq<char>, bool)>) -> bool {
    forall|i: int|
        #![trigger segs[i]]
        0 <= i < segs.len() ==> {
            &&& segs[i].0.len() > 0
            &&& forall|j: int| 0 <= j < segs[i].0.len() ==> !is_marker(#[trigger] segs[i].0[j])
        }
}

proof fn lemma_clean_concat(a: Seq<(Seq<char>, bool)>, b: Seq<(Seq<char>, bool)>)
    requires
        clean_segments(a),
        clean_segments(b),
    ensures
        clean_segments(a + b),
{
    assert forall|i: int| 0 <= i < (a + b).len() implies {
        &&& (#[trigger] (a + b)[i]).0.len() > 0
        &&& forall|j: int| 0 <= j < (a + b)[i].0.len() ==> !is_marker(#[trigger] (a + b)[i].0[j])
    } by {
        if i < a.len() {
            assert((a + b)[i] == a[i]);
        } else {
            assert((a + b)[i] == b[i - a.len()]);
        }
    }
}

proof fn lemma_segments_from_clean(cs: Seq<char>, marked: bool, cur: Seq<char>)
    requires
        forall|j: int| 0 <= j < cur.len() ==> !is_marker(#[trigger] cur[j]),
    ensures
        clean_segments(segments_from(cs, marked, cur)),
    decreases cs.len(),
{
    let empty = Seq::<char>::empty();
    if cs.len() == 0 {
    } else if is_marker(cs[0]) {
        let m = is_open_marker(cs[0]);
        lemma_segments_from_clean(cs.drop_first(), m, empty);
        lemma_clean_concat(flush(cur, marked), segments_from(cs.drop_first(), m, empty));
    } else {
        let next = cur.push(cs[0]);
        assert forall|j: int| 0 <= j < next.len() implies !is_marker(#[trigger] next[j]) by {
            if j < cur.len() {
                assert(next[j] == cur[j]);
            }
        }
        lemma_segments_from_clean(cs.drop_first(), marked, next);
    }
}

/// Law: the segments never leak a marker character and are never empty.
pub proof fn law_segments_are_clean(cs: Seq<char>)
    ensures
        clean_segments(highlight_segments(cs)),
{
    lemma_segments_from_clean(cs, false, Seq::<char>::empty());
}

proof fn lemma_joined_concat(a: Seq<(Seq<char>, bool)>, b: Seq<(Seq<char>, bool)>)
    ensures
        joined_texts(a + b) == joined_texts(a) + joined_texts(b),
    decreases a.len(),
{
    if a.len() == 0 {
        assert(a + b =~= b);
        assert(joined_texts(a) + joined_texts(b) =~= joined_texts(b));
    } else {
        assert((a + b)[0] == a[0]);
        assert((a + b).drop_first() =~= a.drop_first() + b);
        lemma_joined_concat(a.drop_first(), b);
        assert(joined_texts(a + b) =~= joined_texts(a) + joined_texts(b));
    }
}

proof fn lemma_joined_flush(cur: Seq<char>, marked: bool)
    ensures
        joined_texts(flush(cur, marked)) == cur,
{
    if cur.len() > 0 {
        let f = flush(cur, marked);
        assert(f.drop_first() =~= Seq::<(Seq<char>, bool)>::empty());
        assert(f[0].0 == cur);
        assert(joined_texts(f.drop_first()) =~= Seq::<char>::empty());
        assert(joined_texts(f) == f[0].0 + joined_texts(f.drop_first()));
        assert(joined_texts(f) =~= cur);
    } else {
        assert(cur =~= Seq::<char>::empty());
    }
}

proof fn lemma_segments_from_text(cs: Seq<char>, marked: bool, cur: Seq<char>)
    ensures
        joined_texts(segments_from(cs, marked, cur)) == cur + strip_markers(cs),
    decreases cs.len(),
{
    let empty = Seq::<char>::empty();
    if cs.len() == 0 {
        lemma_joined_flush(cur, marked);
        assert(cur + strip_markers(cs) =~= cur);
    } else if is_marker(cs[0]) {
        let m = is_open_marker(cs[0]);
        lemma_segments_from_text(cs.drop_first(), m, empty);
        lemma_joined_concat(flush(cur, marked), segments_from(cs.drop_first(), m, empty));
        lemma_joined_flush(cur, marked);
        assert(empty + strip_markers(cs.drop_first()) =~= strip_markers(cs.drop_first()));
    } else {
        lemma_segments_from_text(cs.drop_first(), marked, cur.push(cs[0]));
        assert(cur.push(cs[0]) + strip_markers(cs.drop_first()) =~= cur + strip_markers(cs));
    }
}

/// Law: joining the segment texts gives back the input without its markers.
pub proof fn law_segments_preserve_text(cs: Seq<char>)
    ensures
        joined_texts(highlight_segments(cs)) == strip_markers(cs),
{
    lemma_segments_from_text(cs, false, Seq::<char>::empty());
    assert(Seq::<char>::empty() + strip_markers(cs) =~= strip_markers(cs));
}

proof fn lemma_segments_from_plain(cs: Seq<char>, marked: bool, cur: Seq<char>)
    requires
        forall|j: int| 0 <= j < cs.len() ==> !is_marker(#[trigger] cs[j]),
    ensures
        segments_from(cs, marked, cur) == flush(cur + cs, marked),
    decreases cs.len(),
{
    if cs.len() == 0 {
        assert(cur + cs =~= cur);
    } else {
        assert(!is_marker(cs[0]));
        assert forall|j: int| 0 <= j < cs.drop_first().len() implies !is_marker(#[trigger] cs.drop_first()[j]) by {
            assert(cs.drop_first()[j] == cs[j + 1]);
        }
        lemma_segments_from_plain(cs.drop_first(), marked, cur.push(cs[0]));
        assert(cur.push(cs[0]) + cs.drop_first() =~= cur + cs);
    }
}

/// Law: text without markers is one unmarked segment (none when empty).
pub proof fn law_plain_text_is_one_segment(cs: Seq<char>)
    requires
        forall|j: int| 0 <= j < cs.len() ==> !is_marker(#[trigger] cs[j]),
    ensures
        cs.len() > 0 ==> highlight_segments(cs) == seq![(cs, false)],
        cs.len() == 0 ==> highlight_segments(cs).len() == 0,
{
    lemma_segments_from_plain(cs, false, Seq::<char>::empty());
    assert(Seq::<char>::empty() + cs =~= cs);
}

/// A segment written back in highlight form: a marked segment between
/// U+0001 and U+0002, an unmarked one as its plain text.
pub open spec fn encode_segment(g: (Seq<char>, bool)) -> Seq<char> {
    if g.1 {
        seq!['\u{1}'] + g.0 + seq!['\u{2}']
    } else {
        g.0
    }
}

/// Segments written back in highlight form, one after the other.
pub open spec fn encode_segments(segs: Seq<(Seq<char>, bool)>) -> Seq<char>
    decreases segs.len(),
{
    if segs.len() == 0 {
        seq![]
    } else {
        encode_segment(segs[0]) + encode_segments(segs.drop_first())
    }
}

/// Segments as the parser can give them: non-empty, marker-free texts, and
/// never two unmarked segments in a row.
pub open spec fn parseable_segments(segs: Seq<(Seq<char>, bool)>) -> bool {
    &&& clean_segments(segs)
    &&& forall|i: int| 0 <= i < segs.len() - 1 ==> #[trigger] segs[i].1 || segs[i + 1].1
}

proof fn lemma_plain_prefix(t: Seq<char>, rest: Seq<char>, marked: bool, cur: Seq<char>)
    requires
        forall|j: int| 0 <= j < t.len() ==> !is_marker(#[trigger] t[j]),
    ensures
        segments_from(t + rest, marked, cur) == segments_from(rest, marked, cur + t),
    decreases t.len(),
{
    if t.len() == 0 {
        assert(t + rest =~= rest);
        assert(cur + t =~= cur);
    } else {
        assert((t + rest)[0] == t[0]);
        assert(!is_marker(t[0]));
        assert((t + rest).drop_first() =~= t.drop_first() + rest);
        assert forall|j: int| 0 <= j < t.drop_first().len() implies !is_marker(#[trigger] t.drop_first()[j]) by {
            assert(t.drop_first()[j] == t[j + 1]);
        }
        lemma_plain_prefix(t.drop_first(), rest, marked, cur.push(t[0]));
        assert(cur.push(t[0]) + t.drop_first() =~= cur + t);
    }
}

proof fn lemma_marked_block(u: Seq<char>, rest: Seq<char>, marked: bool, cur: Seq<char>)
    requires
        u.len() > 0,
        forall|j: int| 0 <= j < u.len() ==> !is_marker(#[trigger] u[j]),
    ensures
        segments_from(encode_segment((u, true)) + rest, marked, cur)
            == flush(cur, marked) + seq![(u, true)] + segments_from(rest, false, seq![]),
{
    let empty = Seq::<char>::empty();
    let close = seq!['\u{2}'] + rest;
    let s = encode_segment((u, true)) + rest;
    assert(s[0] == '\u{1}');
    assert(s.drop_first() =~= u + close);
    lemma_plain_prefix(u, close, true, empty);
    assert(empty + u =~= u);
    assert(close[0] == '\u{2}');
    assert(close.drop_first() =~= rest);
    assert(flush(u, true) =~= seq![(u, true)]);
    assert(segments_from(close, true, u) == flush(u, true) + segments_from(rest, false, empty));
    assert(segments_from(s, marked, cur) == flush(cur, marked) + segments_from(u + close, true, empty));
    assert(flush(cur, marked) + (seq![(u, true)] + segments_from(rest, false, empty))
        =~= flush(cur, marked) + seq![(u, true)] + segments_from(rest, false, empty));
}

proof fn lemma_segments_roundtrip(segs: Seq<(Seq<char>, bool)>)
    requires
        parseable_segments(segs),
    ensures
        segments_from(encode_segments(segs), false, seq![]) == segs,
    decreases segs.len(),
{
    let empty = Seq::<char>::empty();
    if segs.len() == 0 {
        assert(encode_segments(segs) =~= empty);
        assert(segs =~= Seq::<(Seq<char>, bool)>::empty());
    } else {
        let g = segs[0];
        let rest = segs.drop_first();
        assert(g.0.len() > 0);
        assert(parseable_segments(rest)) by {
            assert forall|i: int| #![trigger rest[i]] 0 <= i < rest.len() implies {
                &&& rest[i].0.len() > 0
                &&& forall|j: int| 0 <= j < rest[i].0.len() ==> !is_marker(#[trigger] rest[i].0[j])
            } by {
                assert(rest[i] == segs[i + 1]);
            }
            assert forall|i: int| 0 <= i < rest.len() - 1 implies #[trigger] rest[i].1 || rest[i + 1].1 by {
                assert(rest[i] == segs[i + 1]);
                assert(rest[i + 1] == segs[i + 2]);
                assert(segs[i + 1].1 || segs[i + 2].1);
            }
        }
        assert(forall|j: int| 0 <= j < g.0.len() ==> !is_marker(#[trigger] g.0[j]));
        if g.1 {
            lemma_marked_block(g.0, encode_segments(rest), false, empty);
            lemma_segments_roundtrip(rest);
            assert(flush(empty, false) =~= Seq::<(Seq<char>, bool)>::empty());
            assert(segs =~= seq![(g.0, true)] + rest);
            assert(Seq::<(Seq<char>, bool)>::empty() + seq![(g.0, true)] + rest =~= segs);
        } else {
            let e = encode_segments(rest);
            lemma_plain_prefix(g.0, e, false, empty);
            assert(empty + g.0 =~= g.0);
            if rest.len() == 0 {
                assert(e =~= empty);
                assert(flush(g.0, false) =~= seq![(g.0, false)]);
                assert(segs =~= seq![(g.0, false)]);
            } else {
                let h = rest[0];
                let rest2 = rest.drop_first();
                assert(segs[0].1 || segs[1].1);
                assert(h == segs[1]);
                assert(h.1);
                assert(h.0.len() > 0);
                assert(forall|j: int| 0 <= j < h.0.len() ==> !is_marker(#[trigger] h.0[j]));
                assert(h == (h.0, true));
                assert(e == encode_segment(h) + encode_segments(rest2));
                lemma_marked_block(h.0, encode_segments(rest2), false, g.0);
                assert(parseable_segments(rest2)) by {
                    assert forall|i: int| #![trigger rest2[i]] 0 <= i < rest2.len() implies {
                        &&& rest2[i].0.len() > 0
                        &&& forall|j: int| 0 <= j < rest2[i].0.len() ==> !is_marker(#[trigger] rest2[i].0[j])
                    } by {
                        assert(rest2[i] == segs[i + 2]);
                    }
                    assert forall|i: int| 0 <= i < rest2.len() - 1 implies #[trigger] rest2[i].1 || rest2[i + 1].1 by {
                        assert(rest2[i] == segs[i + 2]);
                        assert(rest2[i + 1] == segs[i + 3]);
                        assert(segs[i + 2].1 || segs[i + 3].1);
                    }
                }
                lemma_segments_roundtrip(rest2);
                assert(flush(g.0, false) =~= seq![(g.0, false)]);
                assert(seq![(g.0, false)] + seq![(h.0, true)] + rest2 =~= segs);
            }
        }
    }
}

/// Law: writing parser-shaped segments back in highlight form and parsing
/// the result gives the same segments.
pub proof fn law_segments_roundtrip(segs: Seq<(Seq<char>, bool)>)
    requires
        parseable_segments(segs),
    ensures
        highlight_segments(encode_segments(segs)) == segs,
{
    lemma_segments_roundtrip(segs);
}

} // verus!
