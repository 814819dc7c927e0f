//! What an indexer of a language does.

use crate::file_index::{FileIndex, IndexView};
use crate::graph::Language;
use vstd::prelude::*;

verus! {

/// Why a file has no index.
#[derive(Debug, Clone, Copy, PartialEq, Eq, Structural)]
pub enum IndexError {
    ParseFailed,
}

/// What is known of a file, as an optional view.
pub open spec fn index_view(r: Result<FileIndex, IndexError>) -> Option<IndexView> {
    match r {
        Ok(i) => Some(i@),
        Err(_) => None,
    }
}

/// An indexer of a language.
pub trait LanguageIndexer {
    /// What is known of a file.
    spec fn index_of(&self, path: Seq<char>, content: Seq<char>) -> Option<IndexView>;

    /// The module that a file is.
    spec fn module_of(&self, rel_path: Seq<char>) -> Seq<char>;

    /// The language.
    spec fn language_spec(&self) -> Language;

    /// The ending of the language's files.
    spec fn extension_spec(&self) -> Seq<char>;

    /// Tells the language.
    fn language(&self) -> (r: Language)
        ensures
            r == self.language_spec(),
    ;

    /// Finds what is known of a file.
    fn index_file(&self, path: &str, content: &str) -> (r: Result<FileIndex, IndexError>)
        ensures
            index_view(r) == self.index_of(path@, content@),
    ;

    /// Builds the name of the module that a file is.
    fn module_key(&self, rel_path: &str) -> (r: String)
        ensures
            r@ == self.module_of(rel_path@),
    ;

    /// Tells the ending of the language's files.
    fn file_extension(&self) -> (r: &'static str)
        ensures
            r@ == self.extension_spec(),
    ;
}

} // verus!
