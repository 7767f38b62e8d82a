//! Decisions around importing and searching documents: which files a
//! folder scan picks up, which id a saved document ends up under, and which
//! queries are searched at all.
use vstd::prelude::*;
use vstd::string::StrSliceExecFns;
use crate::text::{trim_str, trimmed};

verus! {

/// `c` with ASCII upper-case letters turned into lower case.
pub open spec fn ascii_lower(c: char) -> char {
    if 'A' <= c <= 'Z' {
        ((c as u32) + 32) as char
    } else {
        c
    }
}

pub open spec fn lowered(cs: Seq<char>) -> Seq<char> {
    Seq::new(cs.len(), |i: int| ascii_lower(cs[i]))
}

/// The file extensions that a folder scan imports, compared case-insensitively.
/// (Unicode lower-casing, which the comparison stands for, maps no
/// non-ASCII character onto the ASCII letters of these names, so comparing
/// ASCII-lowercased text decides the same.)
pub open spec fn is_supported(ext: Seq<char>) -> bool {
    let l = lowered(ext);
    l == "pdf"@ || l == "docx"@ || l == "doc"@ || l == "txt"@
}

fn ascii_lower_char(c: char) -> (r: char)
    ensures
        r == ascii_lower(c),
{
    if 'A' <= c && c <= 'Z' {
        ((c as u32) + 32) as u8 as char
    } else {
        c
    }
}

fn eq_lowered(ext: &str, target: &str) -> (r: bool)
    ensures
        r == (lowered(ext@) == target@),
{
    let n = ext.unicode_len();
    if n != target.unicode_len() {
        proof {
            assert(lowered(ext@).len() != target@.len());
        }
        return false;
    }
    let mut i: usize = 0;
    while i < n
        invariant
            n == ext@.len(),
            n == target@.len(),
            i <= n,
            forall|j: int| 0 <= j < i ==> ascii_lower(ext@[j]) == target@[j],
        decreases n - i,
    {
        if ascii_lower_char(ext.get_char(i)) != target.get_char(i) {
            proof {
                assert(lowered(ext@)[i as int] != target@[i as int]);
            }
            return false;
        }
        i = i + 1;
    }
    proof {
        assert(lowered(ext@) =~= target@);
    }
    true
}

/// Whether a file with extension `ext` (without the dot) is a document
/// that a folder scan imports: pdf, docx, doc or txt, in any case.
pub fn is_supported_extension(ext: &str) -> (r: bool)
    ensures
        r == is_supported(ext@),
{
    eq_lowered(ext, "pdf") || eq_lowered(ext, "docx") || eq_lowered(ext, "doc") || eq_lowered(
        ext,
        "txt",
    )
}

/// The id a document is saved under: the id of the row already stored for
/// its path, if there is one, else the id generated for this processing run.
pub fn saved_document_id(existing: Option<String>, generated: &str) -> (id: String)
    ensures
        id@ == (match existing {
            Some(e) => e@,
            None => generated@,
        }),
{
    match existing {
        Some(e) => e,
        None => generated.to_owned(),
    }
}

/// Whether a search query is blank (empty or whitespace only), in which
/// case it is answered with no results.
pub fn is_blank_query(query: &str) -> (r: bool)
    ensures
        r == (trimmed(query@).len() == 0),
{
    let t = trim_str(query);
    t.unicode_len() == 0
}

/// Whether a folder scan processes a supported file: always when forced to
/// reprocess, otherwise unless the file is known to be imported already
/// (a failed lookup counts as not imported).
pub fn should_import(force_reprocess: bool, already_imported: Option<bool>) -> (r: bool)
    ensures
        r == (force_reprocess || already_imported != Some(true)),
{
    if force_reprocess {
        return true;
    }
    match already_imported {
        Some(true) => false,
        _ => true,
    }
}

} // verus!
