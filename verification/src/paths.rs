//! File names derived from the path of a book.

use vstd::prelude::*;
use crate::html_tree::opt_view;
use crate::text::{append_str, string_from};

verus! {

/// What `Path::file_stem` gives for a path holding `p`, as text.
pub uninterp spec fn path_file_stem(p: Seq<char>) -> Option<Seq<char>>;

/// What `Path::extension` gives for a path holding `p`, as text.
pub uninterp spec fn path_extension(p: Seq<char>) -> Option<Seq<char>>;

/// `Path::file_stem`: the file name of `path` without its extension, if the
/// path has a file name. Its result is named, not described.
#[verifier::external_body]
pub(crate) fn file_stem_of(path: &str) -> (r: Option<String>)
    ensures
        opt_view(r) == path_file_stem(path@),
{
    std::path::Path::new(path).file_stem().and_then(|s| s.to_str()).map(String::from)
}

/// `Path::extension`: the part of the file name of `path` after its last
/// `.`, if there is one. Its result is named, not described.
#[verifier::external_body]
pub(crate) fn extension_of(path: &str) -> (r: Option<String>)
    ensures
        opt_view(r) == path_extension(path@),
{
    std::path::Path::new(path).extension().and_then(|s| s.to_str()).map(String::from)
}

/// The file stem of `path`, or `default` when it has none.
pub open spec fn stem_or(path: Seq<char>, default: Seq<char>) -> Seq<char> {
    match path_file_stem(path) {
        Some(s) => s,
        None => default,
    }
}

/// Where the text left out of a PDF as footnotes is recorded:
/// `<file_path>.<file stem>_footnotes.txt`.
pub open spec fn audit_log_path_spec(file_path: Seq<char>) -> Seq<char> {
    file_path + "."@ + stem_or(file_path, "unknown"@) + "_footnotes.txt"@
}

/// The path of the footnote record of the PDF at `file_path`.
pub fn audit_log_path(file_path: &str) -> (r: String)
    ensures
        r@ == audit_log_path_spec(file_path@),
{
    let stem = match file_stem_of(file_path) {
        Some(s) => s,
        None => "unknown".to_owned(),
    };
    let mut acc: Vec<char> = Vec::new();
    append_str(&mut acc, file_path);
    append_str(&mut acc, ".");
    append_str(&mut acc, stem.as_str());
    append_str(&mut acc, "_footnotes.txt");
    string_from(&acc)
}

} // verus!
