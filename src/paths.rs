//! Which files are indexed: the extension and basename allow-lists and the
//! size limit, and the parts of a path they are read from.

use crate::index::Indexer;
use vstd::prelude::*;
use vstd::string::StringExecFns;

verus! {

/// What `Path::file_name` gives for a path.
pub uninterp spec fn file_name_of(p: Seq<char>) -> Option<Seq<char>>;

/// What `Path::extension` gives for a path.
pub uninterp spec fn extension_of(p: Seq<char>) -> Option<Seq<char>>;

/// What `Path::file_stem` gives for a path.
pub uninterp spec fn stem_of(p: Seq<char>) -> Option<Seq<char>>;

/// What `str::to_lowercase` gives for a string.
pub uninterp spec fn lower_of(s: Seq<char>) -> Seq<char>;

pub open spec fn view_opt(o: Option<String>) -> Option<Seq<char>> {
    match o {
        Some(s) => Some(s@),
        None => None,
    }
}

/// Relies on `Path::file_name`: the last normal component of the path, none
/// where the path is a root or ends in `..`; it depends on the path's text
/// alone.
#[verifier::external_body]
pub(crate) fn file_name(p: &str) -> (r: Option<String>)
    ensures
        view_opt(r) == file_name_of(p@),
{
    std::path::Path::new(p).file_name().and_then(|n| n.to_str()).map(|n| n.to_string())
}

/// Relies on `Path::extension`: the part of the file name after its last
/// `.`, if the name has one that is not its first character.
#[verifier::external_body]
pub(crate) fn extension(p: &str) -> (r: Option<String>)
    ensures
        view_opt(r) == extension_of(p@),
{
    std::path::Path::new(p).extension().and_then(|n| n.to_str()).map(|n| n.to_string())
}

/// Relies on `Path::file_stem`: the file name without its extension.
#[verifier::external_body]
pub(crate) fn file_stem(p: &str) -> (r: Option<String>)
    ensures
        view_opt(r) == stem_of(p@),
{
    std::path::Path::new(p).file_stem().and_then(|n| n.to_str()).map(|n| n.to_string())
}

/// Relies on `str::to_lowercase`: the result depends on the characters alone.
#[verifier::external_body]
pub(crate) fn lowercase(s: &str) -> (r: String)
    ensures
        r@ == lower_of(s@),
{
    s.to_lowercase()
}

/// Extensions of source, text, configuration and markup files.
pub open spec fn known_extension(e: Seq<char>) -> bool {
    e == "rs"@ || e == "py"@ || e == "js"@ || e == "ts"@ || e == "go"@ || e == "c"@ || e == "cpp"@
        || e == "h"@ || e == "hpp"@ || e == "java"@ || e == "kt"@ || e == "swift"@ || e == "rb"@
        || e == "php"@ || e == "cs"@ || e == "scala"@ || e == "clj"@ || e == "hs"@ || e == "ml"@
        || e == "elm"@ || e == "ex"@ || e == "exs"@ || e == "erl"@ || e == "vim"@ || e == "lua"@
        || e == "pl"@ || e == "txt"@ || e == "md"@ || e == "rst"@ || e == "org"@ || e == "tex"@
        || e == "rtf"@ || e == "toml"@ || e == "yaml"@ || e == "yml"@ || e == "json"@
        || e == "config"@ || e == "xml"@ || e == "html"@ || e == "css"@ || e == "scss"@
        || e == "sass"@ || e == "less"@ || e == "csv"@ || e == "sql"@
}

/// Conventional names of project files.
pub open spec fn known_basename(s: Seq<char>) -> bool {
    s == "readme"@ || s == "license"@ || s == "licence"@ || s == "changelog"@ || s == "changes"@
        || s == "history"@ || s == "makefile"@ || s == "dockerfile"@ || s == "containerfile"@
        || s == "gitignore"@ || s == "authors"@ || s == "contributors"@ || s == "manifest"@
}

/// A path is parsable when its lowercased extension is known, or its
/// lowercased stem is.
pub open spec fn parsable(p: Seq<char>) -> bool {
    (match extension_of(p) {
        Some(e) => known_extension(lower_of(e)),
        None => false,
    }) || (match stem_of(p) {
        Some(s) => known_basename(lower_of(s)),
        None => false,
    })
}

/// Whether `s` reads `lit`.
fn reads(s: &String, lit: &str) -> (r: bool)
    ensures
        r == (s@ == lit@),
{
    *s == String::from_str(lit)
}

/// Whether a lowercased extension is one of the known ones.
pub fn is_known_extension(e: &String) -> (r: bool)
    ensures
        r == known_extension(e@),
{
    reads(e, "rs") || reads(e, "py") || reads(e, "js") || reads(e, "ts") || reads(e, "go")
        || reads(e, "c") || reads(e, "cpp") || reads(e, "h") || reads(e, "hpp") || reads(e, "java")
        || reads(e, "kt") || reads(e, "swift") || reads(e, "rb") || reads(e, "php") || reads(e, "cs")
        || reads(e, "scala") || reads(e, "clj") || reads(e, "hs") || reads(e, "ml") || reads(e, "elm")
        || reads(e, "ex") || reads(e, "exs") || reads(e, "erl") || reads(e, "vim") || reads(e, "lua")
        || reads(e, "pl") || reads(e, "txt") || reads(e, "md") || reads(e, "rst") || reads(e, "org")
        || reads(e, "tex") || reads(e, "rtf") || reads(e, "toml") || reads(e, "yaml") || reads(e, "yml")
        || reads(e, "json") || reads(e, "config") || reads(e, "xml") || reads(e, "html")
        || reads(e, "css") || reads(e, "scss") || reads(e, "sass") || reads(e, "less")
        || reads(e, "csv") || reads(e, "sql")
}

/// Whether a lowercased stem is one of the known project-file names.
pub fn is_known_basename(s: &String) -> (r: bool)
    ensures
        r == known_basename(s@),
{
    reads(s, "readme") || reads(s, "license") || reads(s, "licence") || reads(s, "changelog")
        || reads(s, "changes") || reads(s, "history") || reads(s, "makefile") || reads(
        s,
        "dockerfile",
    ) || reads(s, "containerfile") || reads(s, "gitignore") || reads(s, "authors") || reads(
        s,
        "contributors",
    ) || reads(s, "manifest")
}

/// Largest size of an indexed file, in bytes, for a limit in MiB.
pub open spec fn max_bytes(max_file_size: usize) -> int {
    max_file_size * 1024 * 1024
}

impl Indexer {
    /// Whether a path names a file worth indexing: its lowercased extension
    /// is a known one, or its lowercased stem is a known project-file name.
    pub fn is_parsable(path: &str) -> (r: bool)
        ensures
            r == parsable(path@),
    {
        let by_extension = match extension(path) {
            Some(e) => is_known_extension(&lowercase(e.as_str())),
            None => false,
        };
        let by_stem = match file_stem(path) {
            Some(s) => is_known_basename(&lowercase(s.as_str())),
            None => false,
        };
        by_extension || by_stem
    }

    /// Whether a file of `size` bytes at `path` is indexed: it is no larger
    /// than the limit and its path is parsable.
    pub fn is_eligible(&self, size: u64, path: &str) -> (r: bool)
        ensures
            r == (size <= max_bytes(self.max_file_size) && parsable(path@)),
    {
        let limit = self.max_file_size as u128 * 1024 * 1024;
        size as u128 <= limit && Self::is_parsable(path)
    }
}

} // verus!
