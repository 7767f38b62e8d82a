//! Rendering a document for export: the printable HTML page and the
//! Markdown file, the escaping of document text inside HTML, and the file
//! names they are saved under.
use vstd::prelude::*;
use vstd::std_specs::iter::IteratorSpec;
use vstd::string::StringExecFns;
use crate::text::{
    byte_offset, char_utf8_width, lemma_byte_offset_full, lemma_byte_offset_split,
    lemma_byte_offset_step, slice_chars, utf8_len,
};

verus! {

pub const HTML_BEFORE_TITLE: &'static str = r#"<!DOCTYPE html>
<html lang="pl">
<head>
    <meta charset="UTF-8">
    <title>"#;

pub const HTML_BEFORE_HEADING: &'static str = r#"</title>
    <style>
        body { font-family: Arial, sans-serif; max-width: 800px; margin: 40px auto; padding: 20px; }
        h1 { color: #333; border-bottom: 2px solid #4f46e5; padding-bottom: 10px; }
        .meta { background: #f5f5f5; padding: 15px; border-radius: 8px; margin: 20px 0; display: flex; gap: 30px; }
        .meta-item { }
        .meta-item strong { color: #666; }
        .content { white-space: pre-wrap; line-height: 1.8; font-size: 14px; }
        @media print { body { margin: 20px; } }
    </style>
</head>
<body>
    <h1>"#;

pub const HTML_BEFORE_TYPE: &'static str = r#"</h1>
    <div class="meta">
        <div class="meta-item"><strong>Typ:</strong> "#;

pub const HTML_BEFORE_PAGES: &'static str = r#"</div>
        <div class="meta-item"><strong>Strony:</strong> "#;

pub const HTML_BEFORE_WORDS: &'static str = r#"</div>
        <div class="meta-item"><strong>Słowa:</strong> "#;

pub const HTML_BEFORE_SIZE: &'static str = r#"</div>
        <div class="meta-item"><strong>Rozmiar:</strong> "#;

pub const HTML_BEFORE_CONTENT: &'static str = r#" KB</div>
    </div>
    <div class="content">"#;

pub const HTML_END: &'static str = r#"</div>
    <script>window.onload = function() { window.print(); }</script>
</body>
</html>"#;

pub const MD_BEFORE_TITLE: &'static str = r#"# "#;

pub const MD_BEFORE_TYPE: &'static str = r#"

## Metadane

| Pole | Wartość |
|------|---------|
| Typ dokumentu | "#;

pub const MD_BEFORE_PATH: &'static str = r#" |
| Ścieżka | "#;

pub const MD_BEFORE_PAGES: &'static str = r#" |
| Strony | "#;

pub const MD_BEFORE_WORDS: &'static str = r#" |
| Słowa | "#;

pub const MD_BEFORE_SIZE: &'static str = r#" |
| Rozmiar | "#;

pub const MD_BEFORE_PROCESSED: &'static str = r#" bajtów |
| Przetworzono | "#;

pub const MD_BEFORE_CONTENT: &'static str = r#" |

## Treść dokumentu

"#;

pub const MD_END: &'static str = r#"
"#;

/// Shown for a document without a type.
pub const UNKNOWN_TYPE: &'static str = "nieznany";

/// Shown for a count that is not known.
pub const NOT_AVAILABLE: &'static str = "N/A";

/// Shown for a document without text.
pub const NO_CONTENT: &'static str = "Brak treści";

pub open spec fn digits() -> Seq<char> {
    seq!['0', '1', '2', '3', '4', '5', '6', '7', '8', '9']
}

/// The decimal representation of `n`, without leading zeros.
pub open spec fn decimal(n: nat) -> Seq<char>
    decreases n,
{
    if n < 10 {
        seq![digits()[n as int]]
    } else {
        decimal(n / 10) + seq![digits()[(n % 10) as int]]
    }
}

/// `Some(text)` as its text, `None` as `default`.
pub open spec fn text_or(t: Option<Seq<char>>, default: Seq<char>) -> Seq<char> {
    match t {
        Some(s) => s,
        None => default,
    }
}

/// A count in decimal, or "N/A" when it is not known.
pub open spec fn count_text(n: Option<u32>) -> Seq<char> {
    match n {
        Some(v) => decimal(v as nat),
        None => NOT_AVAILABLE@,
    }
}

/// `c` as it appears in escaped HTML text.
pub open spec fn escape_char(c: char) -> Seq<char> {
    if c == '<' {
        "&lt;"@
    } else if c == '>' {
        "&gt;"@
    } else {
        seq![c]
    }
}

/// `cs` with every '<' written as "&lt;" and every '>' as "&gt;".
pub open spec fn escape_angle(cs: Seq<char>) -> Seq<char>
    decreases cs.len(),
{
    if cs.len() == 0 {
        seq![]
    } else {
        escape_angle(cs.drop_last()) + escape_char(cs.last())
    }
}

/// Whether, in `is_alphanumeric`'s terms (the Unicode `Alphabetic` or
/// `Numeric` property), `c` is alphanumeric.
pub uninterp spec fn is_alphanumeric(c: char) -> bool;

/// A character that may stay in an exported file name.
pub open spec fn keeps_in_file_name(c: char) -> bool {
    is_alphanumeric(c) || c == '.' || c == '-' || c == '_'
}

/// `cs` with every character that may not stay in a file name replaced by '_'.
pub open spec fn sanitize(cs: Seq<char>) -> Seq<char>
    decreases cs.len(),
{
    if cs.len() == 0 {
        seq![]
    } else {
        sanitize(cs.drop_last()) + (if keeps_in_file_name(cs.last()) {
            seq![cs.last()]
        } else {
            seq!['_']
        })
    }
}

/// The printable HTML page of a document.
pub open spec fn html_page(
    filename: Seq<char>,
    doc_type: Option<Seq<char>>,
    pages: Option<u32>,
    word_count: Option<u32>,
    size: u64,
    full_text: Option<Seq<char>>,
) -> Seq<char> {
    HTML_BEFORE_TITLE@ + filename + HTML_BEFORE_HEADING@ + filename + HTML_BEFORE_TYPE@
        + text_or(doc_type, UNKNOWN_TYPE@) + HTML_BEFORE_PAGES@ + count_text(pages)
        + HTML_BEFORE_WORDS@ + count_text(word_count) + HTML_BEFORE_SIZE@ + decimal(
        (size / 1024) as nat,
    ) + HTML_BEFORE_CONTENT@ + escape_angle(text_or(full_text, NO_CONTENT@)) + HTML_END@
}

/// The Markdown export of a document.
pub open spec fn markdown_page(
    filename: Seq<char>,
    doc_type: Option<Seq<char>>,
    original_path: Seq<char>,
    pages: Option<u32>,
    word_count: Option<u32>,
    size: u64,
    processed_at: Seq<char>,
    full_text: Option<Seq<char>>,
) -> Seq<char> {
    MD_BEFORE_TITLE@ + filename + MD_BEFORE_TYPE@ + text_or(doc_type, UNKNOWN_TYPE@)
        + MD_BEFORE_PATH@ + original_path + MD_BEFORE_PAGES@ + count_text(pages)
        + MD_BEFORE_WORDS@ + count_text(word_count) + MD_BEFORE_SIZE@ + decimal(size as nat)
        + MD_BEFORE_PROCESSED@ + processed_at + MD_BEFORE_CONTENT@ + text_or(
        full_text,
        NO_CONTENT@,
    ) + MD_END@
}

pub open spec fn opt_view(t: Option<&str>) -> Option<Seq<char>> {
    match t {
        Some(s) => Some(s@),
        None => None,
    }
}

fn digit_str(d: u64) -> (r: &'static str)
    requires
        d < 10,
    ensures
        r@ == seq![digits()[d as int]],
{
    proof {
        reveal_strlit("0");
        reveal_strlit("1");
        reveal_strlit("2");
        reveal_strlit("3");
        reveal_strlit("4");
        reveal_strlit("5");
        reveal_strlit("6");
        reveal_strlit("7");
        reveal_strlit("8");
        reveal_strlit("9");
        assert("0"@ =~= seq!['0']);
        assert("1"@ =~= seq!['1']);
        assert("2"@ =~= seq!['2']);
        assert("3"@ =~= seq!['3']);
        assert("4"@ =~= seq!['4']);
        assert("5"@ =~= seq!['5']);
        assert("6"@ =~= seq!['6']);
        assert("7"@ =~= seq!['7']);
        assert("8"@ =~= seq!['8']);
        assert("9"@ =~= seq!['9']);
    }
    match d {
        0 => "0",
        1 => "1",
        2 => "2",
        3 => "3",
        4 => "4",
        5 => "5",
        6 => "6",
        7 => "7",
        8 => "8",
        _ => "9",
    }
}

/// `n` in decimal, as `to_string` writes it.
pub fn decimal_string(n: u64) -> (s: String)
    ensures
        s@ == decimal(n as nat),
    decreases n,
{
    if n < 10 {
        let mut s = String::new();
        s.append(digit_str(n));
        proof {
            assert(s@ =~= decimal(n as nat));
        }
        s
    } else {
        let mut s = decimal_string(n / 10);
        s.append(digit_str(n % 10));
        s
    }
}

fn count_string(n: Option<u32>) -> (s: String)
    ensures
        s@ == count_text(n),
{
    match n {
        Some(v) => decimal_string(v as u64),
        None => String::from_str(NOT_AVAILABLE),
    }
}

/// `text` with '<' and '>' replaced by the HTML entities "&lt;" and "&gt;".
pub fn escape_angle_brackets(text: &str) -> (r: String)
    ensures
        r@ == escape_angle(text@),
{
    let ghost cs = text@;
    let mut out = String::new();
    let mut pos: usize = 0;
    let total = text.as_bytes().len();
    proof {
        lemma_byte_offset_full(cs);
        reveal_strlit("&lt;");
        reveal_strlit("&gt;");
        assert(cs.take(0) =~= Seq::<char>::empty());
    }
    for c in it: text.chars()
        invariant
            it.seq() == cs,
            cs == text@,
            total == utf8_len(cs),
            0 <= it.index() <= cs.len(),
            pos == byte_offset(cs, it.index()),
            out@ == escape_angle(cs.take(it.index())),
    {
        let ghost k = it.index();
        proof {
            lemma_byte_offset_step(cs, k);
            lemma_byte_offset_split(cs, k + 1, cs.len() as int);
            assert(cs.take(k + 1).drop_last() =~= cs.take(k));
            assert(cs.take(k + 1).last() == cs[k]);
        }
        let w = char_utf8_width(c);
        if c == '<' {
            out.append("&lt;");
        } else if c == '>' {
            out.append("&gt;");
        } else {
            let one = slice_chars(text, pos, pos + w, Ghost(k), Ghost(k + 1));
            proof {
                assert(cs.subrange(k, k + 1) =~= seq![cs[k]]);
            }
            out.append(one);
        }
        pos = pos + w;
    }
    proof {
        assert(cs.take(cs.len() as int) =~= cs);
    }
    out
}

/// Whether `c` is alphanumeric (`char::is_alphanumeric`).
#[verifier::external_body]
fn char_is_alphanumeric(c: char) -> (r: bool)
    ensures
        r == is_alphanumeric(c),
{
    c.is_alphanumeric()
}

/// `name` with every character other than alphanumerics, '.', '-' and '_'
/// replaced by '_'.
pub fn sanitize_file_name(name: &str) -> (r: String)
    ensures
        r@ == sanitize(name@),
{
    let ghost cs = name@;
    let mut out = String::new();
    let mut pos: usize = 0;
    let total = name.as_bytes().len();
    proof {
        lemma_byte_offset_full(cs);
        reveal_strlit("_");
        assert(cs.take(0) =~= Seq::<char>::empty());
    }
    for c in it: name.chars()
        invariant
            it.seq() == cs,
            cs == name@,
            total == utf8_len(cs),
            0 <= it.index() <= cs.len(),
            pos == byte_offset(cs, it.index()),
            out@ == sanitize(cs.take(it.index())),
            "_"@ == seq!['_'],
    {
        let ghost k = it.index();
        proof {
            lemma_byte_offset_step(cs, k);
            lemma_byte_offset_split(cs, k + 1, cs.len() as int);
            assert(cs.take(k + 1).drop_last() =~= cs.take(k));
            assert(cs.take(k + 1).last() == cs[k]);
        }
        let w = char_utf8_width(c);
        if char_is_alphanumeric(c) || c == '.' || c == '-' || c == '_' {
            let one = slice_chars(name, pos, pos + w, Ghost(k), Ghost(k + 1));
            proof {
                assert(cs.subrange(k, k + 1) =~= seq![cs[k]]);
            }
            out.append(one);
        } else {
            out.append("_");
        }
        pos = pos + w;
    }
    proof {
        assert(cs.take(cs.len() as int) =~= cs);
    }
    out
}

/// The printable HTML page of a document (the document text escaped).
pub fn render_print_html(
    filename: &str,
    doc_type: Option<&str>,
    pages: Option<u32>,
    word_count: Option<u32>,
    size: u64,
    full_text: Option<&str>,
) -> (page: String)
    ensures
        page@ == html_page(filename@, opt_view(doc_type), pages, word_count, size, opt_view(full_text)),
        occurs(
            page@,
            HTML_BEFORE_TYPE@ + (match doc_type {
                Some(t) => t@,
                None => "nieznany"@,
            }) + HTML_BEFORE_PAGES@,
        ),
{
    proof {
        law_print_html_fields(filename@, opt_view(doc_type), pages, word_count, size, opt_view(full_text));
    }
    let mut page = String::new();
    page.append(HTML_BEFORE_TITLE);
    page.append(filename);
    page.append(HTML_BEFORE_HEADING);
    page.append(filename);
    page.append(HTML_BEFORE_TYPE);
    match doc_type {
        Some(t) => page.append(t),
        None => page.append(UNKNOWN_TYPE),
    }
    page.append(HTML_BEFORE_PAGES);
    page.append(count_string(pages).as_str());
    page.append(HTML_BEFORE_WORDS);
    page.append(count_string(word_count).as_str());
    page.append(HTML_BEFORE_SIZE);
    page.append(decimal_string(size / 1024).as_str());
    page.append(HTML_BEFORE_CONTENT);
    let content = match full_text {
        Some(t) => escape_angle_brackets(t),
        None => escape_angle_brackets(NO_CONTENT),
    };
    page.append(content.as_str());
    page.append(HTML_END);
    proof {
        assert(page@ =~= html_page(filename@, opt_view(doc_type), pages, word_count, size, opt_view(full_text)));
    }
    page
}

/// The Markdown export of a document.
pub fn render_markdown(
    filename: &str,
    doc_type: Option<&str>,
    original_path: &str,
    pages: Option<u32>,
    word_count: Option<u32>,
    size: u64,
    processed_at: &str,
    full_text: Option<&str>,
) -> (page: String)
    ensures
        page@ == markdown_page(
            filename@,
            opt_view(doc_type),
            original_path@,
            pages,
            word_count,
            size,
            processed_at@,
            opt_view(full_text),
        ),
        occurs_at(
            page@,
            MD_BEFORE_TYPE@ + (match doc_type {
                Some(t) => t@,
                None => "nieznany"@,
            }) + MD_BEFORE_PATH@,
            (MD_BEFORE_TITLE@.len() + filename@.len()) as int,
        ),
{
    proof {
        law_markdown_rows(
            filename@,
            opt_view(doc_type),
            original_path@,
            pages,
            word_count,
            size,
            processed_at@,
            opt_view(full_text),
        );
    }
    let mut page = String::new();
    page.append(MD_BEFORE_TITLE);
    page.append(filename);
    page.append(MD_BEFORE_TYPE);
    match doc_type {
        Some(t) => page.append(t),
        None => page.append(UNKNOWN_TYPE),
    }
    page.append(MD_BEFORE_PATH);
    page.append(original_path);
    page.append(MD_BEFORE_PAGES);
    page.append(count_string(pages).as_str());
    page.append(MD_BEFORE_WORDS);
    page.append(count_string(word_count).as_str());
    page.append(MD_BEFORE_SIZE);
    page.append(decimal_string(size).as_str());
    page.append(MD_BEFORE_PROCESSED);
    page.append(processed_at);
    page.append(MD_BEFORE_CONTENT);
    match full_text {
        Some(t) => page.append(t),
        None => page.append(NO_CONTENT),
    }
    page.append(MD_END);
    proof {
        assert(page@ =~= markdown_page(
            filename@,
            opt_view(doc_type),
            original_path@,
            pages,
            word_count,
            size,
            processed_at@,
            opt_view(full_text),
        ));
    }
    page
}

/// The file name of a document's printable HTML export.
pub fn print_html_file_name(filename: &str) -> (r: String)
    ensures
        r@ == sanitize(filename@) + "_print.html"@,
{
    let mut r = sanitize_file_name(filename);
    r.append("_print.html");
    r
}

/// The file name of a document's Markdown export.
pub fn markdown_file_name(filename: &str) -> (r: String)
    ensures
        r@ == sanitize(filename@) + ".md"@,
{
    let mut r = sanitize_file_name(filename);
    r.append(".md");
    r
}

/// Law: escaped text contains no angle brackets, so document text cannot
/// open or close markup in the exported page.
pub proof fn law_escaped_text_has_no_angle_brackets(cs: Seq<char>)
    ensures
        forall|i: int| 0 <= i < escape_angle(cs).len() ==> #[trigger] escape_angle(cs)[i] != '<'
            && escape_angle(cs)[i] != '>',
    decreases cs.len(),
{
    if cs.len() > 0 {
        law_escaped_text_has_no_angle_brackets(cs.drop_last());
        reveal_strlit("&lt;");
        reveal_strlit("&gt;");
        let a = escape_angle(cs.drop_last());
        let b = escape_char(cs.last());
        assert(forall|j: int| 0 <= j < b.len() ==> #[trigger] b[j] != '<' && b[j] != '>');
        assert forall|i: int| 0 <= i < (a + b).len() implies #[trigger] (a + b)[i] != '<' && (a + b)[i] != '>' by {
            if i < a.len() {
                assert((a + b)[i] == a[i]);
            } else {
                assert((a + b)[i] == b[i - a.len()]);
            }
        }
    }
}

/// Law: a sanitized file name keeps the length of the original name and
/// holds only characters that `keeps_in_file_name` accepts: alphanumerics
/// (in `char::is_alphanumeric`'s terms), '.', '-' and '_'.
pub proof fn law_sanitized_name_is_safe(cs: Seq<char>)
    ensures
        sanitize(cs).len() == cs.len(),
        forall|i: int| 0 <= i < sanitize(cs).len() ==> keeps_in_file_name(#[trigger] sanitize(cs)[i]),
        forall|i: int| 0 <= i < cs.len() ==> #[trigger] sanitize(cs)[i] == (if keeps_in_file_name(cs[i]) {
            cs[i]
        } else {
            '_'
        }),
    decreases cs.len(),
{
    if cs.len() > 0 {
        law_sanitized_name_is_safe(cs.drop_last());
        let a = sanitize(cs.drop_last());
        let b = if keeps_in_file_name(cs.last()) {
            seq![cs.last()]
        } else {
            seq!['_']
        };
        assert forall|i: int| 0 <= i < (a + b).len() implies keeps_in_file_name(#[trigger] (a + b)[i]) by {
            if i < a.len() {
                assert((a + b)[i] == a[i]);
            } else {
                assert((a + b)[i] == b[0]);
            }
        }
        assert forall|i: int| 0 <= i < cs.len() implies #[trigger] (a + b)[i] == (if keeps_in_file_name(cs[i]) {
            cs[i]
        } else {
            '_'
        }) by {
            if i < a.len() {
                assert((a + b)[i] == a[i]);
                assert(cs.drop_last()[i] == cs[i]);
            } else {
                assert((a + b)[i] == b[0]);
            }
        }
    }
}

/// Law: escaping works character by character: the escape of two texts
/// one after the other is their escapes one after the other, '<' becomes
/// "&lt;", '>' becomes "&gt;", and every other character stays as it is.
pub proof fn law_escape_by_character(a: Seq<char>, b: Seq<char>, c: char)
    ensures
        escape_angle(a + b) == escape_angle(a) + escape_angle(b),
        escape_angle(seq![c]) == (if c == '<' {
            "&lt;"@
        } else if c == '>' {
            "&gt;"@
        } else {
            seq![c]
        }),
    decreases b.len(),
{
    reveal_strlit("&lt;");
    reveal_strlit("&gt;");
    assert(seq![c].drop_last() =~= Seq::<char>::empty());
    assert(escape_angle(Seq::<char>::empty()) == Seq::<char>::empty());
    assert(Seq::<char>::empty() + escape_char(c) =~= escape_char(c));
    if b.len() == 0 {
        assert(a + b =~= a);
        assert(escape_angle(a) + escape_angle(b) =~= escape_angle(a));
    } else {
        law_escape_by_character(a, b.drop_last(), c);
        assert((a + b).drop_last() =~= a + b.drop_last());
        assert((a + b).last() == b.last());
        assert(escape_angle(a) + escape_angle(b.drop_last()) + escape_char(b.last())
            =~= escape_angle(a) + (escape_angle(b.drop_last()) + escape_char(b.last())));
    }
}

/// `part` stands in `s` starting at index `k`.
pub open spec fn occurs_at(s: Seq<char>, part: Seq<char>, k: int) -> bool {
    0 <= k && k + part.len() <= s.len() && s.subrange(k, k + part.len()) == part
}

/// `part` stands somewhere in `s`.
pub open spec fn occurs(s: Seq<char>, part: Seq<char>) -> bool {
    exists|k: int| occurs_at(s, part, k)
}

proof fn lemma_row(x: Seq<char>, label: Seq<char>, v: Seq<char>, next: Seq<char>)
    ensures
        occurs_at(x + label + v + next, label + v + next, x.len() as int),
{
    assert((x + label + v + next).subrange(x.len() as int, (x.len() + label.len() + v.len() + next.len()) as int)
        =~= label + v + next);
}

/// `x` is a prefix of `s`.
pub open spec fn starts_with(s: Seq<char>, x: Seq<char>) -> bool {
    x.len() <= s.len() && s.subrange(0, x.len() as int) == x
}

proof fn lemma_starts_with_ext(s: Seq<char>, x: Seq<char>, y: Seq<char>)
    requires
        starts_with(s, x + y),
    ensures
        starts_with(s, x),
{
    assert(s.subrange(0, x.len() as int) =~= (x + y).subrange(0, x.len() as int));
    assert((x + y).subrange(0, x.len() as int) =~= x);
}

proof fn lemma_occurs_in_prefix(s: Seq<char>, x: Seq<char>, m: Seq<char>, k: int)
    requires
        starts_with(s, x),
        occurs_at(x, m, k),
    ensures
        occurs_at(s, m, k),
{
    assert(s.subrange(k, k + m.len()) =~= x.subrange(k, k + m.len()));
}

/// Law: each row of the Markdown metadata table shows its own field: the
/// page opens with the title line, the type row holds the given type
/// ("nieznany" only when there is none), the path, page and word counts
/// (in decimal, or "N/A"), the size in bytes and the processing time stand
/// each between their row's label and the next one, and the page ends with
/// the document's text ("Brak treści" when there is none).
#[verifier::spinoff_prover]
pub proof fn law_markdown_rows(
    filename: Seq<char>,
    doc_type: Option<Seq<char>>,
    original_path: Seq<char>,
    pages: Option<u32>,
    word_count: Option<u32>,
    size: u64,
    processed_at: Seq<char>,
    full_text: Option<Seq<char>>,
)
    ensures
        ({
            let page = markdown_page(filename, doc_type, original_path, pages, word_count, size, processed_at, full_text);
            let shown_type = match doc_type {
                Some(t) => t,
                None => "nieznany"@,
            };
            let shown_pages = match pages {
                Some(n) => decimal(n as nat),
                None => "N/A"@,
            };
            let shown_words = match word_count {
                Some(n) => decimal(n as nat),
                None => "N/A"@,
            };
            let content = match full_text {
                Some(t) => t,
                None => "Brak treści"@,
            };
            let tail = MD_BEFORE_CONTENT@ + content + MD_END@;
            &&& occurs_at(page, MD_BEFORE_TITLE@ + filename + MD_BEFORE_TYPE@, 0)
            &&& occurs_at(page, MD_BEFORE_TYPE@ + shown_type + MD_BEFORE_PATH@, (MD_BEFORE_TITLE@.len() + filename.len()) as int)
            &&& occurs(page, MD_BEFORE_PATH@ + original_path + MD_BEFORE_PAGES@)
            &&& occurs(page, MD_BEFORE_PAGES@ + shown_pages + MD_BEFORE_WORDS@)
            &&& occurs(page, MD_BEFORE_WORDS@ + shown_words + MD_BEFORE_SIZE@)
            &&& occurs(page, MD_BEFORE_SIZE@ + decimal(size as nat) + MD_BEFORE_PROCESSED@)
            &&& occurs(page, MD_BEFORE_PROCESSED@ + processed_at + MD_BEFORE_CONTENT@)
            &&& occurs_at(page, tail, page.len() - tail.len())
        }),
{
    reveal_strlit("nieznany");
    reveal_strlit("N/A");
    reveal_strlit("Brak treści");
    let a0 = MD_BEFORE_TITLE@;
    let a1 = MD_BEFORE_TYPE@;
    let a2 = MD_BEFORE_PATH@;
    let a3 = MD_BEFORE_PAGES@;
    let a4 = MD_BEFORE_WORDS@;
    let a5 = MD_BEFORE_SIZE@;
    let a6 = MD_BEFORE_PROCESSED@;
    let a7 = MD_BEFORE_CONTENT@;
    let a8 = MD_END@;
    let t = text_or(doc_type, UNKNOWN_TYPE@);
    let p = count_text(pages);
    let w = count_text(word_count);
    let z = decimal(size as nat);
    let c = text_or(full_text, NO_CONTENT@);
    let page = markdown_page(filename, doc_type, original_path, pages, word_count, size, processed_at, full_text);
    let p1 = a0;
    let p2 = p1 + filename;
    let p3 = p2 + a1;
    let p4 = p3 + t;
    let p5 = p4 + a2;
    let p6 = p5 + original_path;
    let p7 = p6 + a3;
    let p8 = p7 + p;
    let p9 = p8 + a4;
    let p10 = p9 + w;
    let p11 = p10 + a5;
    let p12 = p11 + z;
    let p13 = p12 + a6;
    let p14 = p13 + processed_at;
    let p15 = p14 + a7;
    let p16 = p15 + c;
    let p17 = p16 + a8;
    assert(page == p17);
    assert(page.subrange(0, page.len() as int) =~= page);
    lemma_starts_with_ext(page, p16, a8);
    lemma_starts_with_ext(page, p15, c);
    lemma_starts_with_ext(page, p14, a7);
    lemma_starts_with_ext(page, p13, processed_at);
    lemma_starts_with_ext(page, p12, a6);
    lemma_starts_with_ext(page, p11, z);
    lemma_starts_with_ext(page, p10, a5);
    lemma_starts_with_ext(page, p9, w);
    lemma_starts_with_ext(page, p8, a4);
    lemma_starts_with_ext(page, p7, p);
    lemma_starts_with_ext(page, p6, a3);
    lemma_starts_with_ext(page, p5, original_path);
    lemma_starts_with_ext(page, p4, a2);
    lemma_starts_with_ext(page, p3, t);
    lemma_starts_with_ext(page, p2, a1);
    lemma_starts_with_ext(page, p1, filename);
    assert(p3.subrange(0, p3.len() as int) =~= p3);
    lemma_occurs_in_prefix(page, p3, p3, 0);
    lemma_row(p2, a1, t, a2);
    lemma_occurs_in_prefix(page, p5, a1 + t + a2, p2.len() as int);
    lemma_row(p4, a2, original_path, a3);
    lemma_occurs_in_prefix(page, p7, a2 + original_path + a3, p4.len() as int);
    lemma_row(p6, a3, p, a4);
    lemma_occurs_in_prefix(page, p9, a3 + p + a4, p6.len() as int);
    lemma_row(p8, a4, w, a5);
    lemma_occurs_in_prefix(page, p11, a4 + w + a5, p8.len() as int);
    lemma_row(p10, a5, z, a6);
    lemma_occurs_in_prefix(page, p13, a5 + z + a6, p10.len() as int);
    lemma_row(p12, a6, processed_at, a7);
    lemma_occurs_in_prefix(page, p15, a6 + processed_at + a7, p12.len() as int);
    lemma_row(p14, a7, c, a8);
    lemma_occurs_in_prefix(page, p17, a7 + c + a8, p14.len() as int);
}

/// Law: the printable page shows each field in its place: the file name
/// as the page title and as the heading, the given type ("nieznany" only
/// when there is none), the page and word counts (in decimal, or "N/A") and
/// the size in whole kilobytes each between their label and the next one,
/// and the page ends with the document's text, escaped ("Brak treści" when
/// there is none).
#[verifier::spinoff_prover]
pub proof fn law_print_html_fields(
    filename: Seq<char>,
    doc_type: Option<Seq<char>>,
    pages: Option<u32>,
    word_count: Option<u32>,
    size: u64,
    full_text: Option<Seq<char>>,
)
    ensures
        ({
            let page = html_page(filename, doc_type, pages, word_count, size, full_text);
            let shown_type = match doc_type {
                Some(t) => t,
                None => "nieznany"@,
            };
            let shown_pages = match pages {
                Some(n) => decimal(n as nat),
                None => "N/A"@,
            };
            let shown_words = match word_count {
                Some(n) => decimal(n as nat),
                None => "N/A"@,
            };
            let content = match full_text {
                Some(t) => t,
                None => "Brak treści"@,
            };
            let tail = HTML_BEFORE_CONTENT@ + escape_angle(content) + HTML_END@;
            &&& occurs_at(page, HTML_BEFORE_TITLE@ + filename + HTML_BEFORE_HEADING@, 0)
            &&& occurs(page, HTML_BEFORE_HEADING@ + filename + HTML_BEFORE_TYPE@)
            &&& occurs(page, HTML_BEFORE_TYPE@ + shown_type + HTML_BEFORE_PAGES@)
            &&& occurs(page, HTML_BEFORE_PAGES@ + shown_pages + HTML_BEFORE_WORDS@)
            &&& occurs(page, HTML_BEFORE_WORDS@ + shown_words + HTML_BEFORE_SIZE@)
            &&& occurs(page, HTML_BEFORE_SIZE@ + decimal((size / 1024) as nat) + HTML_BEFORE_CONTENT@)
            &&& occurs_at(page, tail, page.len() - tail.len())
        }),
{
    reveal_strlit("nieznany");
    reveal_strlit("N/A");
    reveal_strlit("Brak treści");
    let h0 = HTML_BEFORE_TITLE@;
    let h1 = HTML_BEFORE_HEADING@;
    let h2 = HTML_BEFORE_TYPE@;
    let h3 = HTML_BEFORE_PAGES@;
    let h4 = HTML_BEFORE_WORDS@;
    let h5 = HTML_BEFORE_SIZE@;
    let h6 = HTML_BEFORE_CONTENT@;
    let h7 = HTML_END@;
    let t = text_or(doc_type, UNKNOWN_TYPE@);
    let p = count_text(pages);
    let w = count_text(word_count);
    let z = decimal((size / 1024) as nat);
    let e = escape_angle(text_or(full_text, NO_CONTENT@));
    let page = html_page(filename, doc_type, pages, word_count, size, full_text);
    let p1 = h0;
    let p2 = p1 + filename;
    let p3 = p2 + h1;
    let p4 = p3 + filename;
    let p5 = p4 + h2;
    let p6 = p5 + t;
    let p7 = p6 + h3;
    let p8 = p7 + p;
    let p9 = p8 + h4;
    let p10 = p9 + w;
    let p11 = p10 + h5;
    let p12 = p11 + z;
    let p13 = p12 + h6;
    let p14 = p13 + e;
    let p15 = p14 + h7;
    assert(page == p15);
    assert(page.subrange(0, page.len() as int) =~= page);
    lemma_starts_with_ext(page, p14, h7);
    lemma_starts_with_ext(page, p13, e);
    lemma_starts_with_ext(page, p12, h6);
    lemma_starts_with_ext(page, p11, z);
    lemma_starts_with_ext(page, p10, h5);
    lemma_starts_with_ext(page, p9, w);
    lemma_starts_with_ext(page, p8, h4);
    lemma_starts_with_ext(page, p7, p);
    lemma_starts_with_ext(page, p6, h3);
    lemma_starts_with_ext(page, p5, t);
    lemma_starts_with_ext(page, p4, h2);
    lemma_starts_with_ext(page, p3, filename);
    lemma_starts_with_ext(page, p2, h1);
    lemma_starts_with_ext(page, p1, filename);
    assert(p3.subrange(0, p3.len() as int) =~= p3);
    lemma_occurs_in_prefix(page, p3, p3, 0);
    lemma_row(p2, h1, filename, h2);
    lemma_occurs_in_prefix(page, p5, h1 + filename + h2, p2.len() as int);
    lemma_row(p4, h2, t, h3);
    lemma_occurs_in_prefix(page, p7, h2 + t + h3, p4.len() as int);
    lemma_row(p6, h3, p, h4);
    lemma_occurs_in_prefix(page, p9, h3 + p + h4, p6.len() as int);
    lemma_row(p8, h4, w, h5);
    lemma_occurs_in_prefix(page, p11, h4 + w + h5, p8.len() as int);
    lemma_row(p10, h5, z, h6);
    lemma_occurs_in_prefix(page, p13, h5 + z + h6, p10.len() as int);
    lemma_row(p12, h6, e, h7);
    lemma_occurs_in_prefix(page, p15, h6 + e + h7, p12.len() as int);
}

/// The value of a decimal digit, or -1 for any other character.
pub open spec fn digit_value(c: char) -> int {
    if c == '0' {
        0
    } else if c == '1' {
        1
    } else if c == '2' {
        2
    } else if c == '3' {
        3
    } else if c == '4' {
        4
    } else if c == '5' {
        5
    } else if c == '6' {
        6
    } else if c == '7' {
        7
    } else if c == '8' {
        8
    } else if c == '9' {
        9
    } else {
        -1
    }
}

/// The number that the digits `s` stand for, most significant first.
pub open spec fn decimal_value(s: Seq<char>) -> int
    decreases s.len(),
{
    if s.len() == 0 {
        0
    } else {
        decimal_value(s.drop_last()) * 10 + digit_value(s.last())
    }
}

proof fn lemma_digit(d: int)
    requires
        0 <= d < 10,
    ensures
        digit_value(digits()[d]) == d,
        digits()[d] == '0' <==> d == 0,
{
    if d == 0 {
        assert(digits()[0] == '0');
    } else if d == 1 {
        assert(digits()[1] == '1');
    } else if d == 2 {
        assert(digits()[2] == '2');
    } else if d == 3 {
        assert(digits()[3] == '3');
    } else if d == 4 {
        assert(digits()[4] == '4');
    } else if d == 5 {
        assert(digits()[5] == '5');
    } else if d == 6 {
        assert(digits()[6] == '6');
    } else if d == 7 {
        assert(digits()[7] == '7');
    } else if d == 8 {
        assert(digits()[8] == '8');
    } else {
        assert(digits()[9] == '9');
    }
}

/// Law: a number is written with decimal digits only, they stand for that
/// very number, and there is no leading zero: the first digit is '0' only
/// for zero itself.
pub proof fn law_decimal_digits(n: nat)
    ensures
        decimal(n).len() > 0,
        forall|i: int| 0 <= i < decimal(n).len() ==> 0 <= #[trigger] digit_value(decimal(n)[i]),
        decimal_value(decimal(n)) == n,
        decimal(n)[0] == '0' <==> n == 0,
    decreases n,
{
    if n < 10 {
        lemma_digit(n as int);
        let one = seq![digits()[n as int]];
        assert(one.drop_last() =~= Seq::<char>::empty());
        assert(one.last() == digits()[n as int]);
        assert(decimal_value(one) == decimal_value(one.drop_last()) * 10 + digit_value(one.last()));
    } else {
        law_decimal_digits(n / 10);
        lemma_digit((n % 10) as int);
        let hi = decimal(n / 10);
        let lo = seq![digits()[(n % 10) as int]];
        assert((hi + lo).drop_last() =~= hi);
        assert((hi + lo)[0] == hi[0]);
        assert forall|i: int| 0 <= i < (hi + lo).len() implies 0 <= #[trigger] digit_value((hi + lo)[i]) by {
            if i < hi.len() {
                assert((hi + lo)[i] == hi[i]);
            }
        }
        assert((hi + lo).last() == digits()[(n % 10) as int]);
        assert(decimal_value(hi + lo) == decimal_value(hi) * 10 + digit_value((hi + lo).last()));
        assert((n / 10) * 10 + n % 10 == n);
    }
}

} // verus!
