//! UTF-8 aware text helpers: byte offsets of character positions, slicing
//! a string at character positions, and Unicode whitespace trimming.
use vstd::prelude::*;
use vstd::std_specs::iter::IteratorSpec;
use vstd::string::*;
use vstd::utf8::*;

verus! {

broadcast use vstd::utf8::encode_utf8_valid_utf8, vstd::utf8::encode_utf8_decode_utf8;

/// Number of bytes in the UTF-8 encoding of `cs`.
pub open spec fn utf8_len(cs: Seq<char>) -> nat {
    encode_utf8(cs).len()
}

/// Byte offset, in the UTF-8 encoding of `cs`, of the character at index `k`.
pub open spec fn byte_offset(cs: Seq<char>, k: int) -> nat {
    utf8_len(cs.take(k))
}

/// Number of bytes in the UTF-8 encoding of one character.
pub open spec fn char_width(c: char) -> nat {
    encode_scalar(c as u32).len()
}

/// The Unicode `White_Space` property (the set of characters that
/// `char::is_whitespace` and `str::trim` treat as whitespace).
pub open spec fn is_white_space(c: char) -> bool {
    let u = c as u32;
    ||| 0x9 <= u <= 0xD
    ||| u == 0x20
    ||| u == 0x85
    ||| u == 0xA0
    ||| u == 0x1680
    ||| 0x2000 <= u <= 0x200A
    ||| u == 0x2028
    ||| u == 0x2029
    ||| u == 0x202F
    ||| u == 0x205F
    ||| u == 0x3000
}

pub proof fn lemma_encode_concat(a: Seq<char>, b: Seq<char>)
    ensures
        encode_utf8(a + b) == encode_utf8(a) + encode_utf8(b),
    decreases a.len(),
{
    if a.len() == 0 {
        assert(a + b =~= b);
        assert(encode_utf8(a) + encode_utf8(b) =~= encode_utf8(b));
    } else {
        assert((a + b)[0] == a[0]);
        assert((a + b).drop_first() =~= a.drop_first() + b);
        lemma_encode_concat(a.drop_first(), b);
        assert(encode_utf8(a + b) =~= encode_utf8(a) + encode_utf8(b));
    }
}

pub proof fn lemma_encode_single(c: char)
    ensures
        encode_utf8(seq![c]) == encode_scalar(c as u32),
{
    let s = seq![c];
    assert(s[0] == c);
    assert(s.drop_first() =~= Seq::<char>::empty());
    assert(encode_utf8(Seq::<char>::empty()) =~= Seq::<u8>::empty());
    assert(encode_utf8(s) =~= encode_scalar(c as u32) + encode_utf8(s.drop_first()));
    assert(encode_utf8(s) =~= encode_scalar(c as u32));
}

/// Each character takes between one and four bytes.
pub proof fn lemma_char_width_bounds(c: char)
    ensures
        1 <= char_width(c) <= 4,
{
    broadcast use vstd::utf8::char_is_scalar;

}

/// The byte length of a sequence is at least its number of characters.
pub proof fn lemma_utf8_len_ge(cs: Seq<char>)
    ensures
        utf8_len(cs) >= cs.len(),
    decreases cs.len(),
{
    if cs.len() > 0 {
        lemma_char_width_bounds(cs[0]);
        lemma_utf8_len_ge(cs.drop_first());
    }
}

pub proof fn lemma_byte_offset_split(cs: Seq<char>, i: int, j: int)
    requires
        0 <= i <= j <= cs.len(),
    ensures
        byte_offset(cs, j) == byte_offset(cs, i) + byte_offset(cs.skip(i), j - i),
        byte_offset(cs, i) <= byte_offset(cs, j) <= utf8_len(cs),
        encode_utf8(cs) == encode_utf8(cs.take(i)) + encode_utf8(cs.skip(i)),
{
    assert(cs.take(j) =~= cs.take(i) + cs.skip(i).take(j - i));
    lemma_encode_concat(cs.take(i), cs.skip(i).take(j - i));
    assert(cs =~= cs.take(j) + cs.skip(j));
    lemma_encode_concat(cs.take(j), cs.skip(j));
    assert(cs =~= cs.take(i) + cs.skip(i));
    lemma_encode_concat(cs.take(i), cs.skip(i));
}

/// Byte offsets grow at least as fast as character positions.
pub proof fn lemma_byte_offset_strict(cs: Seq<char>, i: int, j: int)
    requires
        0 <= i <= j <= cs.len(),
    ensures
        byte_offset(cs, j) >= byte_offset(cs, i) + (j - i),
{
    lemma_byte_offset_split(cs, i, j);
    lemma_utf8_len_ge(cs.skip(i).take(j - i));
}

/// Moving over one character advances the byte offset by its width.
pub proof fn lemma_byte_offset_step(cs: Seq<char>, k: int)
    requires
        0 <= k < cs.len(),
    ensures
        byte_offset(cs, k + 1) == byte_offset(cs, k) + char_width(cs[k]),
{
    assert(cs.take(k + 1) =~= cs.take(k) + seq![cs[k]]);
    lemma_encode_concat(cs.take(k), seq![cs[k]]);
    lemma_encode_single(cs[k]);
}

pub proof fn lemma_byte_offset_full(cs: Seq<char>)
    ensures
        byte_offset(cs, cs.len() as int) == utf8_len(cs),
        byte_offset(cs, 0) == 0,
{
    assert(cs.take(cs.len() as int) =~= cs);
    assert(cs.take(0) =~= Seq::<char>::empty());
}

/// Every character position is a character boundary of the encoding.
pub proof fn lemma_char_boundary(cs: Seq<char>, k: int)
    requires
        0 <= k <= cs.len(),
    ensures
        is_char_boundary(encode_utf8(cs), byte_offset(cs, k) as int),
    decreases k,
{
    let bytes = encode_utf8(cs);
    if k == 0 {
        assert(cs.take(0) =~= Seq::<char>::empty());
    } else {
        encode_utf8_first_scalar(cs);
        assert(pop_first_scalar(bytes) =~= encode_utf8(cs.drop_first()));
        lemma_char_boundary(cs.drop_first(), k - 1);
        assert(cs.take(k).drop_first() =~= cs.drop_first().take(k - 1));
        assert(cs.take(k)[0] == cs[0]);
        lemma_utf8_len_ge(cs.take(k));
        lemma_byte_offset_split(cs, k, cs.len() as int);
        lemma_byte_offset_full(cs);
    }
}

/// Two character sequences with the same encoding are equal.
pub proof fn lemma_encode_injective(a: Seq<char>, b: Seq<char>)
    requires
        encode_utf8(a) == encode_utf8(b),
    ensures
        a == b,
{
    assert(decode_utf8(encode_utf8(a)) == a);
    assert(decode_utf8(encode_utf8(b)) == b);
}

/// Width in bytes of the UTF-8 encoding of `c`.
pub fn char_utf8_width(c: char) -> (w: usize)
    ensures
        w == char_width(c),
        1 <= w <= 4,
{
    proof {
        broadcast use vstd::utf8::char_is_scalar;
        lemma_char_width_bounds(c);
    }
    let u = c as u32;
    if u <= 0x7F {
        1
    } else if u <= 0x7FF {
        2
    } else if u <= 0xFFFF {
        3
    } else {
        4
    }
}

/// Whether `c` is Unicode whitespace.
pub fn is_white_space_char(c: char) -> (r: bool)
    ensures
        r == is_white_space(c),
{
    let u = c as u32;
    (0x9 <= u && u <= 0xD) || u == 0x20 || u == 0x85 || u == 0xA0 || u == 0x1680 || (0x2000
        <= u && u <= 0x200A) || u == 0x2028 || u == 0x2029 || u == 0x202F || u == 0x205F || u
        == 0x3000
}

/// The part of `s` between the character positions `i` and `j`, whose
/// byte offsets are `a` and `b`.
pub fn slice_chars<'a>(s: &'a str, a: usize, b: usize, Ghost(i): Ghost<int>, Ghost(j): Ghost<int>) -> (r: &'a str)
    requires
        0 <= i <= j <= s@.len(),
        a == byte_offset(s@, i),
        b == byte_offset(s@, j),
    ensures
        r@ == s@.subrange(i, j),
{
    let ghost cs = s@;
    proof {
        lemma_char_boundary(cs, i);
        lemma_byte_offset_split(cs, i, j);
        lemma_byte_offset_full(cs);
    }
    let (_head, rest) = s.split_at(a);
    proof {
        assert(encode_utf8(cs).subrange(a as int, encode_utf8(cs).len() as int) =~= encode_utf8(cs.skip(i)));
        lemma_encode_injective(rest@, cs.skip(i));
        lemma_char_boundary(cs.skip(i), j - i);
    }
    let (mid, _tail) = rest.split_at(b - a);
    proof {
        let rs = cs.skip(i);
        lemma_byte_offset_split(rs, j - i, rs.len() as int);
        assert(encode_utf8(rs).subrange(0, (b - a) as int) =~= encode_utf8(rs.take(j - i)));
        lemma_encode_injective(mid@, rs.take(j - i));
        assert(rs.take(j - i) =~= cs.subrange(i, j));
    }
    mid
}

/// Index of the first non-whitespace character of `cs` in `[s, e)`, or `e`.
pub open spec fn lead_ws(cs: Seq<char>, s: int, e: int) -> int
    decreases e - s,
{
    if s >= e {
        e
    } else if !is_white_space(cs[s]) {
        s
    } else {
        lead_ws(cs, s + 1, e)
    }
}

/// One past the index of the last non-whitespace character of `cs` in
/// `[s, e)`, or `s`.
pub open spec fn trail_ws(cs: Seq<char>, s: int, e: int) -> int
    decreases e - s,
{
    if e <= s {
        s
    } else if !is_white_space(cs[e - 1]) {
        e
    } else {
        trail_ws(cs, s, e - 1)
    }
}

/// Start of `cs` with leading whitespace removed (a character index).
pub open spec fn trim_start(cs: Seq<char>) -> int {
    lead_ws(cs, 0, cs.len() as int)
}

/// End of `cs` with trailing whitespace removed (a character index).
pub open spec fn trim_end(cs: Seq<char>) -> int {
    trail_ws(cs, trim_start(cs), cs.len() as int)
}

/// `cs` without leading and trailing whitespace, as `str::trim` gives it.
pub open spec fn trimmed(cs: Seq<char>) -> Seq<char> {
    cs.subrange(trim_start(cs), trim_end(cs))
}

pub proof fn lemma_lead_ws(cs: Seq<char>, s: int, e: int)
    requires
        0 <= s <= e <= cs.len(),
    ensures
        s <= lead_ws(cs, s, e) <= e,
        forall|m: int| s <= m < lead_ws(cs, s, e) ==> is_white_space(#[trigger] cs[m]),
        lead_ws(cs, s, e) < e ==> !is_white_space(cs[lead_ws(cs, s, e)]),
    decreases e - s,
{
    if s < e && is_white_space(cs[s]) {
        lemma_lead_ws(cs, s + 1, e);
    }
}

pub proof fn lemma_trail_ws(cs: Seq<char>, s: int, e: int)
    requires
        0 <= s <= e <= cs.len(),
    ensures
        s <= trail_ws(cs, s, e) <= e,
        forall|m: int| trail_ws(cs, s, e) <= m < e ==> is_white_space(#[trigger] cs[m]),
        trail_ws(cs, s, e) > s ==> !is_white_space(cs[trail_ws(cs, s, e) - 1]),
    decreases e - s,
{
    if s < e && is_white_space(cs[e - 1]) {
        lemma_trail_ws(cs, s, e - 1);
    }
}

/// The trimmed bounds are characterised by the whitespace around them.
pub proof fn lemma_trim_bounds(cs: Seq<char>)
    ensures
        0 <= trim_start(cs) <= trim_end(cs) <= cs.len(),
        forall|m: int| 0 <= m < trim_start(cs) ==> is_white_space(#[trigger] cs[m]),
        forall|m: int| trim_end(cs) <= m < cs.len() ==> is_white_space(#[trigger] cs[m]),
        trim_start(cs) < cs.len() ==> !is_white_space(cs[trim_start(cs)]),
        trim_start(cs) < cs.len() ==> trim_start(cs) < trim_end(cs),
        trim_end(cs) > trim_start(cs) ==> !is_white_space(cs[trim_end(cs) - 1]),
        (trim_start(cs) == trim_end(cs)) <==> (forall|m: int| 0 <= m < cs.len() ==> is_white_space(#[trigger] cs[m])),
{
    lemma_lead_ws(cs, 0, cs.len() as int);
    let lo = trim_start(cs);
    lemma_trail_ws(cs, lo, cs.len() as int);
    if lo < cs.len() {
        assert(!is_white_space(cs[lo]));
        if trim_end(cs) == lo {
            assert(is_white_space(cs[lo]));
        }
    }
}

/// Any bounds with the characterising properties are the trimmed bounds.
pub proof fn lemma_trim_bounds_unique(cs: Seq<char>, lo: int, hi: int)
    requires
        0 <= lo <= hi <= cs.len(),
        forall|m: int| 0 <= m < lo ==> is_white_space(#[trigger] cs[m]),
        forall|m: int| hi <= m < cs.len() ==> is_white_space(#[trigger] cs[m]),
        lo < cs.len() ==> !is_white_space(cs[lo]),
        hi > lo ==> !is_white_space(cs[hi - 1]),
    ensures
        trim_start(cs) == lo,
        trim_end(cs) == hi,
{
    lemma_trim_bounds(cs);
    let a = trim_start(cs);
    if a < lo {
        assert(is_white_space(cs[a]));
    }
    if lo < a {
        assert(is_white_space(cs[lo]));
    }
    let b = trim_end(cs);
    if b < hi {
        assert(is_white_space(cs[hi - 1]));
    }
    if hi < b {
        assert(is_white_space(cs[b - 1]));
    }
}

/// Byte offsets of the start and end of `s` without its leading and
/// trailing whitespace.
pub fn trim_bounds(s: &str) -> (r: (usize, usize))
    ensures
        r.0 == byte_offset(s@, trim_start(s@)),
        r.1 == byte_offset(s@, trim_end(s@)),
{
    let ghost cs = s@;
    let total = s.as_bytes().len();
    let mut pos: usize = 0;
    let mut found = false;
    let mut lo: usize = 0;
    let mut hi: usize = 0;
    let ghost mut lo_i: int = 0;
    let ghost mut hi_i: int = 0;
    proof {
        lemma_byte_offset_full(cs);
    }
    for c in it: s.chars()
        invariant
            it.seq() == cs,
            0 <= it.index() <= cs.len(),
            pos == byte_offset(cs, it.index()),
            total == utf8_len(cs),
            !found ==> forall|m: int| 0 <= m < it.index() ==> is_white_space(#[trigger] cs[m]),
            found ==> {
                &&& 0 <= lo_i < hi_i <= it.index()
                &&& lo == byte_offset(cs, lo_i)
                &&& hi == byte_offset(cs, hi_i)
                &&& forall|m: int| 0 <= m < lo_i ==> is_white_space(#[trigger] cs[m])
                &&& !is_white_space(cs[lo_i])
                &&& !is_white_space(cs[hi_i - 1])
                &&& forall|m: int| hi_i <= m < it.index() ==> is_white_space(#[trigger] cs[m])
            },
    {
        let ghost k = it.index();
        proof {
            lemma_byte_offset_step(cs, k);
            lemma_byte_offset_split(cs, k + 1, cs.len() as int);
        }
        let w = char_utf8_width(c);
        if !is_white_space_char(c) {
            if !found {
                found = true;
                lo = pos;
                proof {
                    lo_i = k;
                }
            }
            hi = pos + w;
            proof {
                hi_i = k + 1;
            }
        }
        pos = pos + w;
    }
    if !found {
        proof {
            lemma_trim_bounds_unique(cs, cs.len() as int, cs.len() as int);
        }
        (total, total)
    } else {
        proof {
            lemma_trim_bounds_unique(cs, lo_i, hi_i);
        }
        (lo, hi)
    }
}

/// `s` with leading and trailing whitespace removed.
pub fn trim_str<'a>(s: &'a str) -> (r: &'a str)
    ensures
        r@ == trimmed(s@),
{
    let (lo, hi) = trim_bounds(s);
    proof {
        lemma_trim_bounds(s@);
    }
    slice_chars(s, lo, hi, Ghost(trim_start(s@)), Ghost(trim_end(s@)))
}

/// Byte length of `s`; zero exactly when `s` is empty.
pub fn str_byte_len(s: &str) -> (n: usize)
    ensures
        n == utf8_len(s@),
        (n == 0) == (s@.len() == 0),
{
    proof {
        lemma_utf8_len_ge(s@);
        if s@.len() == 0 {
            assert(encode_utf8(s@) =~= Seq::<u8>::empty());
        }
    }
    s.as_bytes().len()
}

} // verus!
