use vstd::prelude::*;

use crate::alias::AliasWarning;

verus! {

/// Edits to an item's tags: a replacement list, additions and removals.
#[derive(Clone, Debug, Default)]
pub struct TagEdits {
    pub set: Option<Vec<String>>,
    pub add: Vec<String>,
    pub remove: Vec<String>,
}

/// A requested change to an item's stored edits.
#[derive(Clone, Debug, Default)]
pub struct EditUpdate {
    pub set_tags: Option<Vec<String>>,
    pub add_tags: Vec<String>,
    pub remove_tags: Vec<String>,
    pub clear_tags: bool,
    pub notes: Option<String>,
}

/// A problem met while scanning a library root.
#[derive(Debug)]
pub struct ScanWarning {
    pub path: String,
    pub message: String,
}

/// Search terms, and whether to widen them through the alias groups.
#[derive(Clone, Debug, Default)]
pub struct SearchQuery {
    pub terms: Vec<String>,
    pub use_aliases: bool,
}

impl SearchQuery {
    pub fn new(terms: Vec<String>) -> (r: SearchQuery)
        ensures
            r.terms@ == terms@,
            !r.use_aliases,
    {
        SearchQuery { terms, use_aliases: false }
    }

    pub fn with_aliases(self, use_aliases: bool) -> (r: SearchQuery)
        ensures
            r.terms@ == self.terms@,
            r.use_aliases == use_aliases,
    {
        let mut q = self;
        q.use_aliases = use_aliases;
        q
    }
}

/// The outcome of a search: the terms as normalized and as widened, the matching
/// item indices, and the problems met reading alias files.
#[derive(Clone, Debug, Default)]
pub struct SearchResult {
    pub normalized_terms: Vec<String>,
    pub expanded_terms: Vec<String>,
    pub indices: Vec<usize>,
    pub alias_warnings: Vec<AliasWarning>,
}

} // verus!
