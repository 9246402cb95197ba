//! The mutations that can be queued, and the record that is kept of each once
//! it has been applied.

use vstd::prelude::*;
use crate::bytes::{byte_strings, compare, Order};

verus! {

/// The identifier of a document.
pub type DocumentId = u64;

/// The identifier of an attribute of the schema.
pub type AttrId = u16;

/// A list of byte strings, as a caller hands it over.
pub type Terms = Vec<Vec<u8>>;

/// One mutation of an index, as it waits in the queue.
///
/// A document is carried as the bytes of its self-describing encoding; a
/// synonym source and its replacements are carried as the bytes of each token.
pub enum Update {
    /// Documents to add, or to replace.
    DocumentsAddition(Vec<Vec<u8>>),
    /// Documents to remove.
    DocumentsDeletion(Vec<DocumentId>),
    /// For each source, replacements to add to its alternatives.
    SynonymsAddition(Vec<(Vec<u8>, Terms)>),
    /// For each source, replacements to take from its alternatives; `None`
    /// removes all alternatives of the source.
    SynonymsDeletion(Vec<(Vec<u8>, Option<Terms>)>),
}

/// What an `Update` holds, as mathematical values.
pub enum UpdateView {
    DocumentsAddition(Seq<Seq<u8>>),
    DocumentsDeletion(Seq<u64>),
    SynonymsAddition(Seq<(Seq<u8>, Seq<Seq<u8>>)>),
    SynonymsDeletion(Seq<(Seq<u8>, Option<Seq<Seq<u8>>>)>),
}

/// The sources and replacements that a list of additions holds.
pub open spec fn additions_view(l: Seq<(Vec<u8>, Terms)>) -> Seq<(Seq<u8>, Seq<Seq<u8>>)> {
    Seq::new(l.len(), |i: int| (l[i].0@, byte_strings(l[i].1@)))
}

/// The replacements that one removal names, if it names any.
pub open spec fn removed_view(alternatives: Option<Terms>) -> Option<Seq<Seq<u8>>> {
    match alternatives {
        Some(terms) => Some(byte_strings(terms@)),
        None => None,
    }
}

/// The sources and replacements that a list of removals holds.
pub open spec fn removals_view(l: Seq<(Vec<u8>, Option<Terms>)>) -> Seq<
    (Seq<u8>, Option<Seq<Seq<u8>>>),
> {
    Seq::new(l.len(), |i: int| (l[i].0@, removed_view(l[i].1)))
}

/// The sources that a list of synonym entries names, each at the place of
/// its entry.
pub open spec fn sources<T>(entries: Seq<(Seq<u8>, T)>) -> Seq<Seq<u8>> {
    Seq::new(entries.len(), |i: int| entries[i].0)
}

/// The number of sources that a list of synonym entries names: a source that
/// is named more than once counts once.
pub open spec fn number_of_sources<T>(entries: Seq<(Seq<u8>, T)>) -> nat {
    sources(entries).to_set().len()
}

/// The sources that a list of synonym entries in memory names.
pub open spec fn named_sources<T>(entries: Seq<(Vec<u8>, T)>) -> Seq<Seq<u8>> {
    Seq::new(entries.len(), |i: int| entries[i].0@)
}

/// The number of sources that `entries` name, each counted once.
pub fn count_sources<T>(entries: &Vec<(Vec<u8>, T)>) -> (n: usize)
    ensures
        n == named_sources(entries@).to_set().len(),
        n <= entries@.len(),
{
    broadcast use vstd::seq_lib::seq_to_set_is_finite;

    let ghost all = named_sources(entries@);
    let mut n: usize = 0;
    let mut i: usize = 0;
    proof {
        assert(all.subrange(0, 0).to_set() =~= Set::<Seq<u8>>::empty());
    }
    while i < entries.len()
        invariant
            i <= entries@.len(),
            all == named_sources(entries@),
            n <= i,
            n == all.subrange(0, i as int).to_set().len(),
        decreases entries@.len() - i,
    {
        let mut seen = false;
        let mut j: usize = 0;
        while j < i
            invariant
                j <= i < entries@.len(),
                all == named_sources(entries@),
                seen == all.subrange(0, j as int).contains(all[i as int]),
            decreases i - j,
        {
            let same = match compare(entries[j].0.as_slice(), entries[i].0.as_slice()) {
                Order::Same => true,
                _ => false,
            };
            proof {
                let a = all.subrange(0, j as int);
                let b = all.subrange(0, j + 1);
                let x = all[i as int];
                assert(b =~= a.push(all[j as int]));
                if a.contains(x) {
                    let k = choose|k: int| 0 <= k < a.len() && a[k] == x;
                    assert(b[k] == x);
                }
                if b.contains(x) {
                    let k = choose|k: int| 0 <= k < b.len() && b[k] == x;
                    if k < j {
                        assert(a[k] == x);
                    }
                }
                if same {
                    assert(b[j as int] == x);
                }
            }
            if same {
                seen = true;
            }
            j = j + 1;
        }
        proof {
            let a = all.subrange(0, i as int);
            let b = all.subrange(0, i + 1);
            let x = all[i as int];
            assert(b =~= a.push(x));
            assert forall|y: Seq<u8>| b.to_set().contains(y) == (a.to_set().contains(y) || y
                == x) by {
                if b.contains(y) {
                    let k = choose|k: int| 0 <= k < b.len() && b[k] == y;
                    if k < i {
                        assert(a[k] == y);
                    }
                }
                if a.contains(y) {
                    let k = choose|k: int| 0 <= k < a.len() && a[k] == y;
                    assert(b[k] == y);
                }
                if y == x {
                    assert(b[i as int] == y);
                }
            }
            assert(b.to_set() =~= a.to_set().insert(x));
            assert(a.to_set().contains(x) == seen);
        }
        if !seen {
            n = n + 1;
        }
        i = i + 1;
    }
    proof {
        assert(all.subrange(0, i as int) =~= all);
    }
    n
}

impl View for Update {
    type V = UpdateView;

    open spec fn view(&self) -> UpdateView {
        match self {
            Update::DocumentsAddition(docs) => UpdateView::DocumentsAddition(byte_strings(docs@)),
            Update::DocumentsDeletion(ids) => UpdateView::DocumentsDeletion(ids@),
            Update::SynonymsAddition(entries) => UpdateView::SynonymsAddition(
                additions_view(entries@),
            ),
            Update::SynonymsDeletion(entries) => UpdateView::SynonymsDeletion(
                removals_view(entries@),
            ),
        }
    }
}

/// The kind of an update and the size of its batch: the number of documents,
/// or of synonym sources, each source counted once. `Malformed` is the kind of a queued payload that is
/// no update at all; its number is 0.
#[derive(Clone, Copy, Debug, PartialEq, Eq, Structural)]
pub enum UpdateType {
    DocumentsAddition { number: usize },
    DocumentsDeletion { number: usize },
    SynonymsAddition { number: usize },
    SynonymsDeletion { number: usize },
    Malformed { number: usize },
}

impl UpdateView {
    /// The kind of the update, with the size of its batch.
    pub open spec fn update_type(self) -> UpdateType {
        match self {
            UpdateView::DocumentsAddition(docs) => UpdateType::DocumentsAddition {
                number: docs.len() as usize,
            },
            UpdateView::DocumentsDeletion(ids) => UpdateType::DocumentsDeletion {
                number: ids.len() as usize,
            },
            UpdateView::SynonymsAddition(entries) => UpdateType::SynonymsAddition {
                number: number_of_sources(entries) as usize,
            },
            UpdateView::SynonymsDeletion(entries) => UpdateType::SynonymsDeletion {
                number: number_of_sources(entries) as usize,
            },
        }
    }
}

impl Update {
    /// The kind of the update, with the size of its batch.
    pub fn update_type(&self) -> (t: UpdateType)
        ensures
            t == self@.update_type(),
    {
        match self {
            Update::DocumentsAddition(docs) => UpdateType::DocumentsAddition {
                number: docs.len(),
            },
            Update::DocumentsDeletion(ids) => UpdateType::DocumentsDeletion { number: ids.len() },
            Update::SynonymsAddition(entries) => {
                proof {
                    assert(sources(additions_view(entries@)) =~= named_sources(entries@));
                }
                UpdateType::SynonymsAddition { number: count_sources(entries) }
            },
            Update::SynonymsDeletion(entries) => {
                proof {
                    assert(sources(removals_view(entries@)) =~= named_sources(entries@));
                }
                UpdateType::SynonymsDeletion { number: count_sources(entries) }
            },
        }
    }
}

impl UpdateType {
    /// The size of the batch.
    pub open spec fn number_spec(self) -> usize {
        match self {
            UpdateType::DocumentsAddition { number } => number,
            UpdateType::DocumentsDeletion { number } => number,
            UpdateType::SynonymsAddition { number } => number,
            UpdateType::SynonymsDeletion { number } => number,
            UpdateType::Malformed { number } => number,
        }
    }

    /// The size of the batch.
    pub fn number(&self) -> (n: usize)
        ensures
            n == self.number_spec(),
    {
        match self {
            UpdateType::DocumentsAddition { number } => *number,
            UpdateType::DocumentsDeletion { number } => *number,
            UpdateType::SynonymsAddition { number } => *number,
            UpdateType::SynonymsDeletion { number } => *number,
            UpdateType::Malformed { number } => *number,
        }
    }
}

/// How long the parts of an update took. `main` is the time the applier ran,
/// in nanoseconds.
#[derive(Clone, Copy, Debug, PartialEq, Eq, Structural)]
pub struct DetailedDuration {
    pub main: u64,
}

/// The record of an applied update.
#[derive(Debug)]
pub struct UpdateStatus {
    pub update_id: u64,
    pub update_type: UpdateType,
    pub result: Result<(), String>,
    pub detailed_duration: DetailedDuration,
}

/// What an `UpdateStatus` holds, as mathematical values.
pub struct UpdateStatusView {
    pub update_id: u64,
    pub update_type: UpdateType,
    pub result: Result<(), Seq<char>>,
    pub detailed_duration: DetailedDuration,
}

impl View for UpdateStatus {
    type V = UpdateStatusView;

    open spec fn view(&self) -> UpdateStatusView {
        UpdateStatusView {
            update_id: self.update_id,
            update_type: self.update_type,
            result: match self.result {
                Ok(_) => Ok(()),
                Err(message) => Err(message@),
            },
            detailed_duration: self.detailed_duration,
        }
    }
}

impl Clone for UpdateStatus {
    fn clone(&self) -> (r: Self)
        ensures
            r@ == self@,
    {
        UpdateStatus {
            update_id: self.update_id,
            update_type: self.update_type,
            result: match &self.result {
                Ok(_) => Ok(()),
                Err(message) => Err(message.clone()),
            },
            detailed_duration: self.detailed_duration,
        }
    }
}

/// The sizes of an index.
#[derive(Clone, Copy, Debug, PartialEq, Eq, Structural)]
pub struct IndexStats {
    pub number_of_words: usize,
    pub number_of_documents: usize,
    pub number_attrs_in_ranked_map: usize,
}

} // verus!
