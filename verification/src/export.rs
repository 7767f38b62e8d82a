//! Text shaping for document export: sentence-packed chunks for the JSON
//! export.
use vstd::prelude::*;
use vstd::std_specs::iter::IteratorSpec;
use vstd::string::StringExecFns;
use vstd::utf8::{encode_scalar, encode_utf8};
use crate::chunking::is_break;
use crate::text::{
    byte_offset, char_utf8_width, lemma_byte_offset_full, lemma_encode_concat, lemma_encode_single, lemma_byte_offset_split,
    lemma_byte_offset_step, lemma_trim_bounds, slice_chars, str_byte_len, trim_str, trimmed, utf8_len,
};

verus! {

/// The separator that joins sentences packed into one chunk.
pub open spec fn sentence_sep() -> Seq<char> {
    seq!['.', ' ']
}

/// The pieces of `cs` between '.' / '\n' characters, from character `i`
/// on, when the current piece began at `start` (as `str::split` yields them).
pub open spec fn pieces_from(cs: Seq<char>, start: int, i: int) -> Seq<Seq<char>>
    decreases cs.len() - i,
{
    if i >= cs.len() {
        seq![cs.subrange(start, cs.len() as int)]
    } else if is_break(cs[i]) {
        seq![cs.subrange(start, i)] + pieces_from(cs, i + 1, i + 1)
    } else {
        pieces_from(cs, start, i + 1)
    }
}

/// The pieces of `cs` between '.' / '\n' characters.
pub open spec fn split_pieces(cs: Seq<char>) -> Seq<Seq<char>> {
    pieces_from(cs, 0, 0)
}

/// `current` extended by the sentence `s`, with the separator between them
/// when `current` is not empty.
pub open spec fn extend_chunk(current: Seq<char>, s: Seq<char>) -> Seq<char> {
    if current.len() > 0 {
        current + sentence_sep() + s
    } else {
        s
    }
}

/// The chunks made by packing the trimmed, non-blank `pieces` greedily
/// after `current`: a sentence starts a new chunk when the current one is
/// not empty and their byte lengths together exceed `target`.
pub open spec fn pack(pieces: Seq<Seq<char>>, current: Seq<char>, target: int) -> Seq<Seq<char>>
    decreases pieces.len(),
{
    if pieces.len() == 0 {
        if current.len() > 0 {
            seq![current]
        } else {
            seq![]
        }
    } else {
        let s = trimmed(pieces[0]);
        if s.len() == 0 {
            pack(pieces.drop_first(), current, target)
        } else if utf8_len(current) + utf8_len(s) > target && current.len() > 0 {
            seq![current] + pack(pieces.drop_first(), s, target)
        } else {
            pack(pieces.drop_first(), extend_chunk(current, s), target)
        }
    }
}

/// The export chunks of `cs` for a target size of `target` bytes.
pub open spec fn sentence_chunks(cs: Seq<char>, target: int) -> Seq<Seq<char>> {
    pack(split_pieces(cs), seq![], target)
}

pub open spec fn string_views(v: Seq<String>) -> Seq<Seq<char>> {
    v.map_values(|s: String| s@)
}

fn is_break_char(c: char) -> (r: bool)
    ensures
        r == is_break(c),
{
    c == '.' || c == '\n'
}

/// Split `text` into sentences at '.' and '\n', trim them, drop blank ones,
/// and pack consecutive sentences (joined by ". ") into chunks of about
/// `target_size` bytes.
pub fn create_chunks(text: &str, target_size: usize) -> (chunks: Vec<String>)
    ensures
        string_views(chunks@) == sentence_chunks(text@, target_size as int),
        (forall|m: int| 0 <= m < text@.len() ==> #[trigger] text@[m] != '.' && text@[m] != '\n')
            ==> string_views(chunks@) == (if trimmed(text@).len() > 0 {
            seq![trimmed(text@)]
        } else {
            Seq::<Seq<char>>::empty()
        }),
        packed_tightly(string_views(chunks@), target_size as int),
{
    proof {
        if forall|m: int| 0 <= m < text@.len() ==> #[trigger] text@[m] != '.' && text@[m] != '\n' {
            law_text_without_breaks_is_one_chunk(text@, target_size as int);
        }
    }
    let ghost cs = text@;
    let mut chunks: Vec<String> = Vec::new();
    let mut current = String::new();
    let mut pos: usize = 0;
    let mut piece_start: usize = 0;
    let ghost mut ps: int = 0;
    let total = text.as_bytes().len();
    proof {
        lemma_byte_offset_full(cs);
        assert(string_views(chunks@) =~= Seq::<Seq<char>>::empty());
        reveal_strlit(". ");
    }
    for c in it: text.chars()
        invariant
            it.seq() == cs,
            cs == text@,
            0 <= ps <= it.index() <= cs.len(),
            pos == byte_offset(cs, it.index()),
            piece_start == byte_offset(cs, ps),
            total == utf8_len(cs),
            ". "@ == sentence_sep(),
            string_views(chunks@) + pack(pieces_from(cs, ps, it.index()), current@, target_size as int)
                == sentence_chunks(cs, target_size as int),
    {
        let ghost k = it.index();
        proof {
            lemma_byte_offset_step(cs, k);
            lemma_byte_offset_split(cs, k + 1, cs.len() as int);
            lemma_byte_offset_split(cs, ps, k);
        }
        let w = char_utf8_width(c);
        if is_break_char(c) {
            let ghost before = chunks@;
            let ghost cur0 = current@;
            let ghost ps0 = ps;
            let piece = slice_chars(text, piece_start, pos, Ghost(ps), Ghost(k));
            take_sentence(&mut chunks, &mut current, piece, target_size);
            piece_start = pos + w;
            proof {
                ps = k + 1;
                let p = cs.subrange(ps0, k);
                assert(pieces_from(cs, ps0, k) == seq![p] + pieces_from(cs, k + 1, k + 1));
                let rest = pieces_from(cs, k + 1, k + 1);
                assert((seq![p] + rest)[0] == p);
                assert((seq![p] + rest).drop_first() =~= rest);
                assert(pack(pieces_from(cs, ps0, k), cur0, target_size as int) == pack_step(p, cur0, target_size as int) + pack(rest, pack_carry(p, cur0, target_size as int), target_size as int));
                assert(string_views(chunks@) + pack(rest, current@, target_size as int)
                    =~= string_views(before) + pack(pieces_from(cs, ps0, k), cur0, target_size as int));
            }
        }
        pos = pos + w;
    }
    let ghost before = chunks@;
    let ghost cur0 = current@;
    proof {
        lemma_byte_offset_full(cs);
        assert(cs.skip(cs.len() as int).len() == 0);
    }
    let piece = slice_chars(text, piece_start, total, Ghost(ps), Ghost(cs.len() as int));
    take_sentence(&mut chunks, &mut current, piece, target_size);
    proof {
        let p = cs.subrange(ps, cs.len() as int);
        let empty = Seq::<Seq<char>>::empty();
        assert(pieces_from(cs, ps, cs.len() as int) == seq![p]);
        assert(seq![p][0] == p);
        assert(seq![p].drop_first() =~= empty);
        assert(pack(seq![p], cur0, target_size as int) == pack_step(p, cur0, target_size as int) + pack(empty, pack_carry(p, cur0, target_size as int), target_size as int));
    }
    if str_byte_len(current.as_str()) > 0 {
        let ghost b2 = chunks@;
        let last = current.clone();
        chunks.push(last);
        proof {
            assert(chunks@ == b2.push(last));
            assert(string_views(chunks@) =~= string_views(b2).push(current@));
        }
    } else {
        proof {
            assert(current@.len() == 0);
        }
    }
    proof {
        law_chunks_packed_tightly(text@, target_size as int);
    }
    chunks
}

/// The chunks that one sentence piece completes.
pub open spec fn pack_step(p: Seq<char>, current: Seq<char>, target: int) -> Seq<Seq<char>> {
    let s = trimmed(p);
    if s.len() > 0 && utf8_len(current) + utf8_len(s) > target && current.len() > 0 {
        seq![current]
    } else {
        seq![]
    }
}

/// The current chunk after one sentence piece.
pub open spec fn pack_carry(p: Seq<char>, current: Seq<char>, target: int) -> Seq<char> {
    let s = trimmed(p);
    if s.len() == 0 {
        current
    } else if utf8_len(current) + utf8_len(s) > target && current.len() > 0 {
        s
    } else {
        extend_chunk(current, s)
    }
}

/// Feed one sentence piece to the packer: trim it, and either start a new
/// chunk (pushing the finished one) or extend the current chunk.
fn take_sentence(chunks: &mut Vec<String>, current: &mut String, piece: &str, target_size: usize)
    requires
        ". "@ == sentence_sep(),
    ensures
        string_views(final(chunks)@) == string_views(old(chunks)@) + pack_step(piece@, old(current)@, target_size as int),
        final(current)@ == pack_carry(piece@, old(current)@, target_size as int),
{
    let sentence = trim_str(piece);
    let slen = str_byte_len(sentence);
    if slen == 0 {
        proof {
            assert(string_views(chunks@) =~= string_views(old(chunks)@) + pack_step(piece@, old(current)@, target_size as int));
        }
        return;
    }
    let clen = str_byte_len(current.as_str());
    if clen > 0 && (clen > target_size || slen > target_size - clen) {
        let ghost before = chunks@;
        let done = current.clone();
        chunks.push(done);
        *current = String::new();
        current.append(sentence);
        proof {
            assert(chunks@ == before.push(done));
            assert(string_views(chunks@) =~= string_views(before).push(old(current)@));
            assert(current@ =~= sentence@);
        }
    } else {
        if clen > 0 {
            current.append(". ");
        }
        current.append(sentence);
        proof {
            assert(current@ =~= extend_chunk(old(current)@, sentence@));
            assert(string_views(chunks@) =~= string_views(old(chunks)@) + pack_step(piece@, old(current)@, target_size as int));
        }
    }
}

/// The trimmed, non-blank sentences among `pieces`.
pub open spec fn sentences(pieces: Seq<Seq<char>>) -> Seq<Seq<char>>
    decreases pieces.len(),
{
    if pieces.len() == 0 {
        seq![]
    } else if trimmed(pieces[0]).len() == 0 {
        sentences(pieces.drop_first())
    } else {
        seq![trimmed(pieces[0])] + sentences(pieces.drop_first())
    }
}

/// `parts` joined with the sentence separator.
pub open spec fn join(parts: Seq<Seq<char>>) -> Seq<char>
    decreases parts.len(),
{
    if parts.len() == 0 {
        seq![]
    } else if parts.len() == 1 {
        parts[0]
    } else {
        parts[0] + sentence_sep() + join(parts.drop_first())
    }
}

/// What `join` appends after a non-empty first part.
pub open spec fn join_tail(parts: Seq<Seq<char>>) -> Seq<char> {
    if parts.len() == 0 {
        seq![]
    } else {
        sentence_sep() + join(parts)
    }
}

proof fn lemma_join_cons(x: Seq<char>, rest: Seq<Seq<char>>)
    ensures
        join(seq![x] + rest) == x + join_tail(rest),
{
    let p = seq![x] + rest;
    assert(p[0] == x);
    assert(p.drop_first() =~= rest);
    if rest.len() == 0 {
        assert(x + join_tail(rest) =~= x);
    } else {
        assert(join(p) == x + sentence_sep() + join(rest));
        assert(x + sentence_sep() + join(rest) =~= x + (sentence_sep() + join(rest)));
    }
}

proof fn lemma_pack_nonempty(pieces: Seq<Seq<char>>, current: Seq<char>, target: int)
    requires
        current.len() > 0,
    ensures
        pack(pieces, current, target).len() > 0,
    decreases pieces.len(),
{
    if pieces.len() > 0 {
        let s = trimmed(pieces[0]);
        if s.len() == 0 {
            lemma_pack_nonempty(pieces.drop_first(), current, target);
        } else if utf8_len(current) + utf8_len(s) > target {
        } else {
            lemma_pack_nonempty(pieces.drop_first(), extend_chunk(current, s), target);
        }
    }
}

proof fn lemma_pack_join(pieces: Seq<Seq<char>>, current: Seq<char>, target: int)
    ensures
        current.len() > 0 ==> join(pack(pieces, current, target)) == current + join_tail(sentences(pieces)),
        current.len() == 0 ==> join(pack(pieces, current, target)) == join(sentences(pieces)),
        forall|k: int| 0 <= k < pack(pieces, current, target).len() ==> (#[trigger] pack(pieces, current, target)[k]).len() > 0,
    decreases pieces.len(),
{
    let v = pack(pieces, current, target);
    if pieces.len() == 0 {
        if current.len() > 0 {
            assert(v =~= seq![current]);
            assert(join(v) == current);
            assert(current + join_tail(sentences(pieces)) =~= current);
        }
    } else {
        let s = trimmed(pieces[0]);
        let rest = pieces.drop_first();
        if s.len() == 0 {
            lemma_pack_join(rest, current, target);
        } else {
            assert(sentences(pieces) == seq![s] + sentences(rest));
            lemma_join_cons(s, sentences(rest));
            if utf8_len(current) + utf8_len(s) > target && current.len() > 0 {
                lemma_pack_join(rest, s, target);
                lemma_pack_nonempty(rest, s, target);
                let p = pack(rest, s, target);
                lemma_join_cons(current, p);
                assert(v == seq![current] + p);
                assert(join_tail(p) == sentence_sep() + join(p));
                assert(current + (sentence_sep() + (s + join_tail(sentences(rest))))
                    =~= current + join_tail(sentences(pieces)));
                assert forall|k: int| 0 <= k < v.len() implies (#[trigger] v[k]).len() > 0 by {
                    if k > 0 {
                        assert(v[k] == p[k - 1]);
                    }
                }
            } else {
                let next = extend_chunk(current, s);
                lemma_pack_join(rest, next, target);
                if current.len() > 0 {
                    assert(next + join_tail(sentences(rest)) =~= current + join_tail(sentences(pieces)));
                }
            }
        }
    }
}

/// Law: joined with ". ", the chunks are the text's trimmed, non-blank
/// sentences joined with ". " (packing loses and adds nothing), and no
/// chunk is empty.
pub proof fn law_chunks_join_sentences(cs: Seq<char>, target: int)
    ensures
        join(sentence_chunks(cs, target)) == join(sentences(split_pieces(cs))),
        forall|k: int| 0 <= k < sentence_chunks(cs, target).len() ==> (#[trigger] sentence_chunks(cs, target)[k]).len() > 0,
{
    lemma_pack_join(split_pieces(cs), seq![], target);
}

proof fn lemma_sep_len()
    ensures
        utf8_len(sentence_sep()) == 2,
{
    let sep = sentence_sep();
    assert(sep[0] == '.');
    assert(sep.drop_first() =~= seq![' ']);
    lemma_encode_single(' ');
    assert(encode_utf8(sep) == encode_scalar('.' as u32) + encode_utf8(sep.drop_first()));
}

/// A chunk of at most `target + 2` bytes, or one sentence of `all`.
pub open spec fn size_ok(c: Seq<char>, target: int, all: Seq<Seq<char>>) -> bool {
    utf8_len(c) <= target + 2 || all.contains(c)
}

proof fn lemma_pack_size(pieces: Seq<Seq<char>>, current: Seq<char>, target: int, all: Seq<Seq<char>>)
    requires
        forall|x: Seq<char>| sentences(pieces).contains(x) ==> all.contains(x),
        current.len() == 0 || size_ok(current, target, all),
    ensures
        forall|k: int| 0 <= k < pack(pieces, current, target).len()
            ==> size_ok(#[trigger] pack(pieces, current, target)[k], target, all),
    decreases pieces.len(),
{
    let v = pack(pieces, current, target);
    if pieces.len() == 0 {
        if current.len() > 0 {
            assert(v =~= seq![current]);
            assert(v[0] == current);
        }
    } else {
        let s = trimmed(pieces[0]);
        let rest = pieces.drop_first();
        if s.len() == 0 {
            assert(sentences(pieces) == sentences(rest));
            lemma_pack_size(rest, current, target, all);
            assert(v == pack(rest, current, target));
        } else {
            assert(sentences(pieces) == seq![s] + sentences(rest));
            assert((seq![s] + sentences(rest))[0] == s);
            assert(all.contains(s));
            assert forall|x: Seq<char>| sentences(rest).contains(x) implies all.contains(x) by {
                let j = choose|j: int| 0 <= j < sentences(rest).len() && sentences(rest)[j] == x;
                assert(sentences(pieces)[j + 1] == x);
            }
            if utf8_len(current) + utf8_len(s) > target && current.len() > 0 {
                lemma_pack_size(rest, s, target, all);
                let p = pack(rest, s, target);
                assert forall|k: int| 0 <= k < v.len() implies size_ok(#[trigger] v[k], target, all) by {
                    if k > 0 {
                        assert(v[k] == p[k - 1]);
                    }
                }
            } else {
                let next = extend_chunk(current, s);
                if current.len() > 0 {
                    lemma_encode_concat(current, sentence_sep());
                    lemma_encode_concat(current + sentence_sep(), s);
                    lemma_sep_len();
                    assert(utf8_len(next) == utf8_len(current) + 2 + utf8_len(s));
                    assert(size_ok(next, target, all));
                } else {
                    assert(next == s);
                    assert(size_ok(next, target, all));
                }
                lemma_pack_size(rest, next, target, all);
                assert(v == pack(rest, next, target));
            }
        }
    }
}

/// Law: a chunk is at most two bytes over the target size (the ". " that
/// joins its last sentence is not counted), unless it is a single sentence.
pub proof fn law_chunk_size(cs: Seq<char>, target: int)
    ensures
        forall|k: int| 0 <= k < sentence_chunks(cs, target).len()
            ==> size_ok(#[trigger] sentence_chunks(cs, target)[k], target, sentences(split_pieces(cs))),
{
    lemma_pack_size(split_pieces(cs), seq![], target, sentences(split_pieces(cs)));
}

/// Where the piece `k` of `ps` starts, when each piece is followed by one
/// separating character.
pub open spec fn piece_offset(ps: Seq<Seq<char>>, k: int) -> int
    decreases k,
{
    if k <= 0 {
        0
    } else {
        piece_offset(ps, k - 1) + ps[k - 1].len() + 1
    }
}

/// The pieces `ps` cut `cs[start..]` at '.' and '\n' characters: each piece
/// is the slice of `cs` at its place and holds no '.' or '\n', each but the
/// last is followed by a '.' or '\n', and the last one ends the text.
pub open spec fn cut_at_breaks(cs: Seq<char>, start: int, ps: Seq<Seq<char>>) -> bool {
    &&& ps.len() >= 1
    &&& forall|k: int| 0 <= k < ps.len() ==> {
        &&& start + piece_offset(ps, k) + ps[k].len() <= cs.len()
        &&& cs.subrange(start + piece_offset(ps, k), start + piece_offset(ps, k) + ps[k].len()) == #[trigger] ps[k]
    }
    &&& forall|k: int| 0 <= k < ps.len() - 1 ==> {
        let c = cs[start + piece_offset(ps, k) + (#[trigger] ps[k]).len()];
        c == '.' || c == '\n'
    }
    &&& start + piece_offset(ps, ps.len() - 1) + ps[ps.len() - 1].len() == cs.len()
    &&& forall|k: int, j: int| 0 <= k < ps.len() && 0 <= j < ps[k].len()
        ==> #[trigger] ps[k][j] != '.' && ps[k][j] != '\n'
}

proof fn lemma_piece_offset_cons(x: Seq<char>, rest: Seq<Seq<char>>, k: int)
    requires
        1 <= k <= rest.len() + 1,
    ensures
        piece_offset(seq![x] + rest, k) == x.len() + 1 + piece_offset(rest, k - 1),
    decreases k,
{
    let ps = seq![x] + rest;
    if k == 1 {
        assert(ps[0] == x);
        assert(piece_offset(ps, 0) == 0);
        assert(piece_offset(rest, 0) == 0);
        assert(piece_offset(ps, 1) == piece_offset(ps, 0) + ps[0].len() + 1);
    } else {
        lemma_piece_offset_cons(x, rest, k - 1);
        assert(ps[k - 1] == rest[k - 2]);
        assert(piece_offset(ps, k) == piece_offset(ps, k - 1) + ps[k - 1].len() + 1);
        assert(piece_offset(rest, k - 1) == piece_offset(rest, k - 2) + rest[k - 2].len() + 1);
    }
}

proof fn lemma_cut_last(cs: Seq<char>, start: int)
    requires
        0 <= start <= cs.len(),
        forall|m: int| start <= m < cs.len() ==> !is_break(#[trigger] cs[m]),
    ensures
        cut_at_breaks(cs, start, seq![cs.subrange(start, cs.len() as int)]),
{
    let x = cs.subrange(start, cs.len() as int);
    let ps = seq![x];
    assert(ps[0] == x);
    assert(piece_offset(ps, 0) == 0);
    assert(cs.subrange(start, start + x.len()) =~= x);
    assert forall|k: int, j: int| 0 <= k < ps.len() && 0 <= j < ps[k].len()
        implies #[trigger] ps[k][j] != '.' && ps[k][j] != '\n' by {
        assert(ps[k][j] == cs[start + j]);
    }
}

proof fn lemma_cut_cons(cs: Seq<char>, start: int, i: int, rest: Seq<Seq<char>>)
    requires
        0 <= start <= i < cs.len(),
        forall|m: int| start <= m < i ==> !is_break(#[trigger] cs[m]),
        is_break(cs[i]),
        cut_at_breaks(cs, i + 1, rest),
    ensures
        cut_at_breaks(cs, start, seq![cs.subrange(start, i)] + rest),
{
    let x = cs.subrange(start, i);
    let ps = seq![x] + rest;
    assert(ps[0] == x);
    assert(piece_offset(ps, 0) == 0);
    assert forall|k: int| 1 <= k < ps.len() implies piece_offset(ps, k) == x.len() + 1 + piece_offset(rest, k - 1)
        && #[trigger] ps[k] == rest[k - 1] by {
        lemma_piece_offset_cons(x, rest, k);
    }
    assert(cs.subrange(start, start + x.len()) =~= x);
    assert forall|k: int| 0 <= k < ps.len() implies {
        &&& start + piece_offset(ps, k) + ps[k].len() <= cs.len()
        &&& cs.subrange(start + piece_offset(ps, k), start + piece_offset(ps, k) + ps[k].len()) == #[trigger] ps[k]
    } by {
        if k > 0 {
            assert(ps[k] == rest[k - 1]);
        }
    }
    assert forall|k: int| 0 <= k < ps.len() - 1 implies {
        let c = cs[start + piece_offset(ps, k) + (#[trigger] ps[k]).len()];
        c == '.' || c == '\n'
    } by {
        if k > 0 {
            assert(ps[k] == rest[k - 1]);
        }
    }
    assert(ps[ps.len() - 1] == rest[rest.len() - 1]);
    assert forall|k: int, j: int| 0 <= k < ps.len() && 0 <= j < ps[k].len()
        implies #[trigger] ps[k][j] != '.' && ps[k][j] != '\n' by {
        if k > 0 {
            assert(ps[k] == rest[k - 1]);
            assert(rest[k - 1][j] != '.' && rest[k - 1][j] != '\n');
        } else {
            assert(ps[k][j] == cs[start + j]);
        }
    }
}

proof fn lemma_pieces_from_cut(cs: Seq<char>, start: int, i: int)
    requires
        0 <= start <= i <= cs.len(),
        forall|m: int| start <= m < i ==> !is_break(#[trigger] cs[m]),
    ensures
        cut_at_breaks(cs, start, pieces_from(cs, start, i)),
    decreases cs.len() - i,
{
    if i >= cs.len() {
        lemma_cut_last(cs, start);
    } else if is_break(cs[i]) {
        lemma_pieces_from_cut(cs, i + 1, i + 1);
        lemma_cut_cons(cs, start, i, pieces_from(cs, i + 1, i + 1));
    } else {
        lemma_pieces_from_cut(cs, start, i + 1);
    }
}

/// Law: the sentence pieces are exactly the parts of the text between its
/// '.' and '\n' characters: each is the slice of the text at its place,
/// none holds a '.' or '\n', a '.' or '\n' follows each but the last, and
/// the last one runs to the end of the text. Every other character stays
/// inside a piece.
pub proof fn law_pieces_cut_at_breaks(cs: Seq<char>)
    ensures
        cut_at_breaks(cs, 0, split_pieces(cs)),
{
    lemma_pieces_from_cut(cs, 0, 0);
}

/// Law: a text without '.' and '\n' is a single sentence: it makes one
/// chunk, the whole text trimmed, whatever the target size (or none when
/// it is blank).
pub proof fn law_text_without_breaks_is_one_chunk(cs: Seq<char>, target: int)
    requires
        forall|m: int| 0 <= m < cs.len() ==> #[trigger] cs[m] != '.' && cs[m] != '\n',
    ensures
        sentence_chunks(cs, target) == (if trimmed(cs).len() > 0 {
            seq![trimmed(cs)]
        } else {
            Seq::<Seq<char>>::empty()
        }),
{
    let ps = split_pieces(cs);
    law_pieces_cut_at_breaks(cs);
    if ps.len() > 1 {
        assert(ps[1] == ps[1]);
        assert(piece_offset(ps, 0) == 0);
        assert(piece_offset(ps, 1) == piece_offset(ps, 0) + ps[0].len() + 1);
        let c = cs[piece_offset(ps, 0) + ps[0].len()];
        assert(c == '.' || c == '\n');
        assert(false);
    }
    assert(ps.len() == 1);
    assert(piece_offset(ps, 0) == 0);
    assert(ps[0] =~= cs);
    assert(ps.drop_first() =~= Seq::<Seq<char>>::empty());
    let s = trimmed(cs);
    if s.len() > 0 {
        assert(pack(ps, seq![], target) == pack(ps.drop_first(), extend_chunk(seq![], s), target));
        assert(extend_chunk(seq![], s) == s);
    } else {
        assert(pack(ps, seq![], target) == pack(ps.drop_first(), seq![], target));
    }
}

/// `c[..k]` is the first sentence of the chunk `c`: no '.' comes before
/// index `k`, and a '.' (or the chunk's end) comes at it.
pub open spec fn first_sentence_end(c: Seq<char>, k: int) -> bool {
    &&& 0 <= k <= c.len()
    &&& forall|j: int| 0 <= j < k ==> #[trigger] c[j] != '.'
    &&& k == c.len() || c[k] == '.'
}

/// The packed chunks begin with `current`, followed by the chunk's end or
/// by a '.'.
pub open spec fn begins_with_sentence(v: Seq<Seq<char>>, current: Seq<char>) -> bool {
    &&& v.len() > 0
    &&& current.len() <= v[0].len()
    &&& v[0].take(current.len() as int) == current
    &&& v[0].len() == current.len() || v[0][current.len() as int] == '.'
}

/// No chunk could have taken the first sentence of the next one without
/// going over `target` bytes.
pub open spec fn packed_tightly(v: Seq<Seq<char>>, target: int) -> bool {
    forall|q: int, k: int| 0 <= q < v.len() - 1 && #[trigger] first_sentence_end(v[q + 1], k)
        ==> utf8_len(v[q]) + utf8_len(v[q + 1].take(k)) > target
}

proof fn lemma_trimmed_no_dot(p: Seq<char>)
    requires
        forall|j: int| 0 <= j < p.len() ==> #[trigger] p[j] != '.',
    ensures
        forall|j: int| 0 <= j < trimmed(p).len() ==> #[trigger] trimmed(p)[j] != '.',
{
    lemma_trim_bounds(p);
    assert forall|j: int| 0 <= j < trimmed(p).len() implies #[trigger] trimmed(p)[j] != '.' by {
        assert(trimmed(p)[j] == p[crate::text::trim_start(p) + j]);
    }
}

proof fn lemma_pack_tight(pieces: Seq<Seq<char>>, current: Seq<char>, target: int)
    requires
        forall|k: int, j: int| 0 <= k < pieces.len() && 0 <= j < pieces[k].len() ==> #[trigger] pieces[k][j] != '.',
    ensures
        packed_tightly(pack(pieces, current, target), target),
        current.len() > 0 ==> begins_with_sentence(pack(pieces, current, target), current),
    decreases pieces.len(),
{
    let v = pack(pieces, current, target);
    if pieces.len() == 0 {
        if current.len() > 0 {
            assert(v =~= seq![current]);
            assert(v[0].take(current.len() as int) =~= current);
        }
    } else {
        let s = trimmed(pieces[0]);
        let rest = pieces.drop_first();
        assert forall|k: int, j: int| 0 <= k < rest.len() && 0 <= j < rest[k].len() implies #[trigger] rest[k][j] != '.' by {
            assert(rest[k] == pieces[k + 1]);
        }
        assert forall|j: int| 0 <= j < pieces[0].len() implies #[trigger] pieces[0][j] != '.' by {
            assert(pieces[0][j] == pieces[0][j]);
        }
        lemma_trimmed_no_dot(pieces[0]);
        if s.len() == 0 {
            lemma_pack_tight(rest, current, target);
        } else if utf8_len(current) + utf8_len(s) > target && current.len() > 0 {
            lemma_pack_tight(rest, s, target);
            let p = pack(rest, s, target);
            assert(v == seq![current] + p);
            assert(v[0] == current);
            assert(v[0].take(current.len() as int) =~= current);
            assert forall|q: int, k: int| 0 <= q < v.len() - 1 && #[trigger] first_sentence_end(v[q + 1], k)
                implies utf8_len(v[q]) + utf8_len(v[q + 1].take(k)) > target by {
                if q == 0 {
                    assert(v[1] == p[0]);
                    let n = p[0];
                    if k < s.len() {
                        assert(n[k] == n.take(s.len() as int)[k]);
                        assert(s[k] != '.');
                    } else if k > s.len() {
                        assert(n[s.len() as int] == '.');
                    }
                    assert(k == s.len());
                    assert(n.take(k) == s);
                    assert(utf8_len(v[0]) + utf8_len(v[1].take(k)) == utf8_len(current) + utf8_len(s));
                } else {
                    assert(v[q] == p[q - 1]);
                    assert(v[q + 1] == p[q]);
                    assert(first_sentence_end(p[(q - 1) + 1], k));
                    assert(utf8_len(p[q - 1]) + utf8_len(p[(q - 1) + 1].take(k)) > target);
                }
            }
        } else {
            let next = extend_chunk(current, s);
            lemma_pack_tight(rest, next, target);
            if current.len() > 0 {
                let w = v[0];
                assert(next == current + sentence_sep() + s);
                assert(next[current.len() as int] == '.');
                assert(next.take(current.len() as int) =~= current);
                assert(w.take(next.len() as int) == next);
                assert(w[current.len() as int] == next[current.len() as int]);
                assert(w.take(current.len() as int) =~= next.take(current.len() as int));
            }
        }
    }
}

/// Law: chunks are packed as full as the target size allows: for each
/// chunk but the last, adding the first sentence of the next chunk (the
/// part before its first '.') would have taken it over `target` bytes.
pub proof fn law_chunks_packed_tightly(cs: Seq<char>, target: int)
    ensures
        packed_tightly(sentence_chunks(cs, target), target),
{
    law_pieces_cut_at_breaks(cs);
    let ps = split_pieces(cs);
    assert forall|k: int, j: int| 0 <= k < ps.len() && 0 <= j < ps[k].len() implies #[trigger] ps[k][j] != '.' by {
        assert(ps[k][j] != '.' && ps[k][j] != '\n');
    }
    lemma_pack_tight(ps, seq![], target);
}

} // verus!
