//! The language of a file, by its name.

use crate::graph::Language;
use crate::text;
use crate::text::text_finishes_with;
use vstd::prelude::*;

verus! {

/// The language that the end of a file's name stands for.
pub open spec fn language_of(path: Seq<char>) -> Language {
    if text::finishes_with(path, ".py"@) {
        Language::Python
    } else if text::finishes_with(path, ".ts"@) || text::finishes_with(path, ".tsx"@) {
        Language::TypeScript
    } else if text::finishes_with(path, ".rs"@) {
        Language::Rust
    } else {
        Language::Unknown
    }
}

/// Reads the language of a file off its name.
pub fn language_for_path(path: &str) -> (r: Language)
    ensures
        r == language_of(path@),
{
    if text_finishes_with(path, ".py") {
        Language::Python
    } else if text_finishes_with(path, ".ts") || text_finishes_with(path, ".tsx") {
        Language::TypeScript
    } else if text_finishes_with(path, ".rs") {
        Language::Rust
    } else {
        Language::Unknown
    }
}

/// A file that some indexer reads.
pub open spec fn indexable(path: Seq<char>) -> bool {
    language_of(path) != Language::Unknown
}

/// Whether some indexer reads a file.
pub fn has_indexer(path: &str) -> (r: bool)
    ensures
        r == indexable(path@),
{
    match language_for_path(path) {
        Language::Unknown => false,
        _ => true,
    }
}

} // verus!
