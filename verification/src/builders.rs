//! The staged mutations: each gathers its input in memory and, once
//! finalized, queues one update and hands back its id.

use vstd::prelude::*;
use crate::bytes::byte_strings;
use crate::codec::{dec_update, enc_update};
use crate::index::{enqueued, Index};
use crate::schema::IndexError;
use crate::update::{additions_view, removals_view, Terms, Update, UpdateView};

verus! {

/// Documents that are to be added.
pub struct DocumentsAddition {
    documents: Vec<Vec<u8>>,
}

/// Documents that are to be removed.
pub struct DocumentsDeletion {
    documents: Vec<u64>,
}

/// Synonyms that are to be added.
pub struct SynonymsAddition {
    synonyms: Vec<(Vec<u8>, Terms)>,
}

/// Synonyms that are to be removed.
pub struct SynonymsDeletion {
    synonyms: Vec<(Vec<u8>, Option<Terms>)>,
}

impl DocumentsAddition {
    /// The documents gathered so far, each as its self-describing encoding.
    pub closed spec fn view(&self) -> Seq<Seq<u8>> {
        byte_strings(self.documents@)
    }

    /// An addition without documents.
    pub fn new() -> (a: Self)
        ensures
            a@ == Seq::<Seq<u8>>::empty(),
    {
        let a = DocumentsAddition { documents: Vec::new() };
        proof {
            assert(a@ =~= Seq::<Seq<u8>>::empty());
        }
        a
    }

    /// Gathers one more document.
    pub fn update_document(&mut self, document: Vec<u8>)
        ensures
            final(self)@ == old(self)@.push(document@),
    {
        self.documents.push(document);
        proof {
            assert(self@ =~= old(self)@.push(document@));
        }
    }

    /// The update that adds what was gathered.
    pub fn into_update(self) -> (update: Update)
        ensures
            update@ == UpdateView::DocumentsAddition(self@),
    {
        Update::DocumentsAddition(self.documents)
    }

    /// Queues the addition in `index`, and hands back the id of the update.
    pub fn finalize(self, index: &mut Index) -> (r: Result<u64, IndexError>)
        requires
            old(index).inv(),
        ensures
            final(index).inv(),
            enqueued(
                *old(index),
                *final(index),
                enc_update(UpdateView::DocumentsAddition(self@)),
                r,
            ),
            dec_update(enc_update(UpdateView::DocumentsAddition(self@))) == Some(UpdateView::DocumentsAddition(self@)),
    {
        index.push_documents_addition(self.documents)
    }
}

impl DocumentsDeletion {
    /// The ids gathered so far.
    pub closed spec fn view(&self) -> Seq<u64> {
        self.documents@
    }

    /// A deletion without documents.
    pub fn new() -> (d: Self)
        ensures
            d@ == Seq::<u64>::empty(),
    {
        DocumentsDeletion { documents: Vec::new() }
    }

    /// Gathers one more document, by its id.
    pub fn delete_document_by_id(&mut self, id: u64)
        ensures
            final(self)@ == old(self)@.push(id),
    {
        self.documents.push(id);
    }

    /// The update that removes what was gathered.
    pub fn into_update(self) -> (update: Update)
        ensures
            update@ == UpdateView::DocumentsDeletion(self@),
    {
        Update::DocumentsDeletion(self.documents)
    }

    /// Queues the deletion in `index`, and hands back the id of the update.
    pub fn finalize(self, index: &mut Index) -> (r: Result<u64, IndexError>)
        requires
            old(index).inv(),
        ensures
            final(index).inv(),
            enqueued(
                *old(index),
                *final(index),
                enc_update(UpdateView::DocumentsDeletion(self@)),
                r,
            ),
            dec_update(enc_update(UpdateView::DocumentsDeletion(self@))) == Some(UpdateView::DocumentsDeletion(self@)),
    {
        index.push_documents_deletion(self.documents)
    }
}

impl SynonymsAddition {
    /// The sources gathered so far, each with its replacements.
    pub closed spec fn view(&self) -> Seq<(Seq<u8>, Seq<Seq<u8>>)> {
        additions_view(self.synonyms@)
    }

    /// An addition without synonyms.
    pub fn new() -> (a: Self)
        ensures
            a@ == Seq::<(Seq<u8>, Seq<Seq<u8>>)>::empty(),
    {
        let a = SynonymsAddition { synonyms: Vec::new() };
        proof {
            assert(a@ =~= Seq::<(Seq<u8>, Seq<Seq<u8>>)>::empty());
        }
        a
    }

    /// Gathers replacements for one source.
    pub fn add_synonym(&mut self, synonym: Vec<u8>, alternatives: Terms)
        ensures
            final(self)@ == old(self)@.push((synonym@, byte_strings(alternatives@))),
    {
        self.synonyms.push((synonym, alternatives));
        proof {
            assert(self@ =~= old(self)@.push((synonym@, byte_strings(alternatives@))));
        }
    }

    /// The update that adds what was gathered.
    pub fn into_update(self) -> (update: Update)
        ensures
            update@ == UpdateView::SynonymsAddition(self@),
    {
        Update::SynonymsAddition(self.synonyms)
    }

    /// Queues the addition in `index`, and hands back the id of the update.
    pub fn finalize(self, index: &mut Index) -> (r: Result<u64, IndexError>)
        requires
            old(index).inv(),
        ensures
            final(index).inv(),
            enqueued(
                *old(index),
                *final(index),
                enc_update(UpdateView::SynonymsAddition(self@)),
                r,
            ),
            dec_update(enc_update(UpdateView::SynonymsAddition(self@))) == Some(UpdateView::SynonymsAddition(self@)),
    {
        index.push_synonyms_addition(self.synonyms)
    }
}

impl SynonymsDeletion {
    /// The sources gathered so far, each with the replacements to take away,
    /// or with `None` where all of them go.
    pub closed spec fn view(&self) -> Seq<(Seq<u8>, Option<Seq<Seq<u8>>>)> {
        removals_view(self.synonyms@)
    }

    /// A deletion without synonyms.
    pub fn new() -> (d: Self)
        ensures
            d@ == Seq::<(Seq<u8>, Option<Seq<Seq<u8>>>)>::empty(),
    {
        let d = SynonymsDeletion { synonyms: Vec::new() };
        proof {
            assert(d@ =~= Seq::<(Seq<u8>, Option<Seq<Seq<u8>>>)>::empty());
        }
        d
    }

    /// Gathers one source of which every alternative is to go.
    pub fn delete_all_alternatives_of(&mut self, synonym: Vec<u8>)
        ensures
            final(self)@ == old(self)@.push((synonym@, None::<Seq<Seq<u8>>>)),
    {
        self.synonyms.push((synonym, None));
        proof {
            assert(self@ =~= old(self)@.push((synonym@, None::<Seq<Seq<u8>>>)));
        }
    }

    /// Gathers one source with the alternatives that are to go.
    pub fn delete_specific_alternatives_of(&mut self, synonym: Vec<u8>, alternatives: Terms)
        ensures
            final(self)@ == old(self)@.push((synonym@, Some(byte_strings(alternatives@)))),
    {
        self.synonyms.push((synonym, Some(alternatives)));
        proof {
            assert(self@ =~= old(self)@.push((synonym@, Some(byte_strings(alternatives@)))));
        }
    }

    /// The update that removes what was gathered.
    pub fn into_update(self) -> (update: Update)
        ensures
            update@ == UpdateView::SynonymsDeletion(self@),
    {
        Update::SynonymsDeletion(self.synonyms)
    }

    /// Queues the deletion in `index`, and hands back the id of the update.
    pub fn finalize(self, index: &mut Index) -> (r: Result<u64, IndexError>)
        requires
            old(index).inv(),
        ensures
            final(index).inv(),
            enqueued(
                *old(index),
                *final(index),
                enc_update(UpdateView::SynonymsDeletion(self@)),
                r,
            ),
            dec_update(enc_update(UpdateView::SynonymsDeletion(self@))) == Some(UpdateView::SynonymsDeletion(self@)),
    {
        index.push_synonyms_deletion(self.synonyms)
    }
}

impl Index {
    /// A documents addition to be staged.
    pub fn documents_addition(&self) -> (a: DocumentsAddition)
        ensures
            a@ == Seq::<Seq<u8>>::empty(),
    {
        DocumentsAddition::new()
    }

    /// A documents deletion to be staged.
    pub fn documents_deletion(&self) -> (d: DocumentsDeletion)
        ensures
            d@ == Seq::<u64>::empty(),
    {
        DocumentsDeletion::new()
    }

    /// A synonyms addition to be staged.
    pub fn synonyms_addition(&self) -> (a: SynonymsAddition)
        ensures
            a@ == Seq::<(Seq<u8>, Seq<Seq<u8>>)>::empty(),
    {
        SynonymsAddition::new()
    }

    /// A synonyms deletion to be staged.
    pub fn synonyms_deletion(&self) -> (d: SynonymsDeletion)
        ensures
            d@ == Seq::<(Seq<u8>, Option<Seq<Seq<u8>>>)>::empty(),
    {
        SynonymsDeletion::new()
    }

    /// Queues the addition of `addition`, each document in its
    /// self-describing encoding.
    pub fn push_documents_addition(&mut self, addition: Vec<Vec<u8>>) -> (r: Result<
        u64,
        IndexError,
    >)
        requires
            old(self).inv(),
        ensures
            final(self).inv(),
            enqueued(
                *old(self),
                *final(self),
                enc_update(UpdateView::DocumentsAddition(byte_strings(addition@))),
                r,
            ),
            dec_update(enc_update(UpdateView::DocumentsAddition(byte_strings(addition@)))) == Some(UpdateView::DocumentsAddition(byte_strings(addition@))),
    {
        let update = Update::DocumentsAddition(addition);
        self.push_update(&update)
    }

    /// Queues the deletion of the documents `deletion`.
    pub fn push_documents_deletion(&mut self, deletion: Vec<u64>) -> (r: Result<u64, IndexError>)
        requires
            old(self).inv(),
        ensures
            final(self).inv(),
            enqueued(
                *old(self),
                *final(self),
                enc_update(UpdateView::DocumentsDeletion(deletion@)),
                r,
            ),
            dec_update(enc_update(UpdateView::DocumentsDeletion(deletion@))) == Some(UpdateView::DocumentsDeletion(deletion@)),
    {
        let update = Update::DocumentsDeletion(deletion);
        self.push_update(&update)
    }

    /// Queues the addition of the synonyms `addition`.
    pub fn push_synonyms_addition(&mut self, addition: Vec<(Vec<u8>, Terms)>) -> (r: Result<
        u64,
        IndexError,
    >)
        requires
            old(self).inv(),
        ensures
            final(self).inv(),
            enqueued(
                *old(self),
                *final(self),
                enc_update(UpdateView::SynonymsAddition(additions_view(addition@))),
                r,
            ),
            dec_update(enc_update(UpdateView::SynonymsAddition(additions_view(addition@)))) == Some(UpdateView::SynonymsAddition(additions_view(addition@))),
    {
        let update = Update::SynonymsAddition(addition);
        self.push_update(&update)
    }

    /// Queues the deletion of the synonyms `deletion`.
    pub fn push_synonyms_deletion(&mut self, deletion: Vec<(Vec<u8>, Option<Terms>)>) -> (r:
        Result<u64, IndexError>)
        requires
            old(self).inv(),
        ensures
            final(self).inv(),
            enqueued(
                *old(self),
                *final(self),
                enc_update(UpdateView::SynonymsDeletion(removals_view(deletion@))),
                r,
            ),
            dec_update(enc_update(UpdateView::SynonymsDeletion(removals_view(deletion@)))) == Some(UpdateView::SynonymsDeletion(removals_view(deletion@))),
    {
        let update = Update::SynonymsDeletion(deletion);
        self.push_update(&update)
    }
}

} // verus!
