//! The names of the eight trees of an index in the store.

use vstd::prelude::*;
use vstd::string::StringExecFns;

verus! {

/// The names of the trees of one index.
pub struct TreeNames {
    /// The schema, the dictionaries and the ranked map.
    pub main: String,
    /// The alternatives of each synonym source.
    pub synonyms: String,
    /// The postings of each term.
    pub words: String,
    /// The words of each document.
    pub docs_words: String,
    /// The fields of each document.
    pub documents: String,
    /// The custom settings.
    pub custom: String,
    /// The queued updates.
    pub updates: String,
    /// The results of the applied updates.
    pub updates_results: String,
}

/// The names of the trees of the index called `name`: the name itself for the
/// main tree, and the name with a suffix for each of the others.
pub fn tree_names(name: &str) -> (names: TreeNames)
    ensures
        names.main@ == name@,
        names.synonyms@ == name@ + "-synonyms"@,
        names.words@ == name@ + "-words"@,
        names.docs_words@ == name@ + "-docs-words"@,
        names.documents@ == name@ + "-documents"@,
        names.custom@ == name@ + "-custom"@,
        names.updates@ == name@ + "-updates"@,
        names.updates_results@ == name@ + "-updates-results"@,
{
    TreeNames {
        main: name.to_owned(),
        synonyms: name.to_owned().concat("-synonyms"),
        words: name.to_owned().concat("-words"),
        docs_words: name.to_owned().concat("-docs-words"),
        documents: name.to_owned().concat("-documents"),
        custom: name.to_owned().concat("-custom"),
        updates: name.to_owned().concat("-updates"),
        updates_results: name.to_owned().concat("-updates-results"),
    }
}

} // verus!
