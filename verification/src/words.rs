//! The inverted index: for each term the occurrences that hold it, and for
//! each document the terms that occur in it. The two are kept as one, so that
//! a document is among the postings of a term exactly where the term is among
//! the words of the document.

use vstd::prelude::*;
use vstd::slice::slice_to_vec;
use crate::bytes::{byte_strings, is_prefix, strictly_increasing};
use crate::docindex::{
    doc_index_key, doc_index_key_spec, doc_index_keys, doc_index_of_key, doc_index_of_key_spec,
    document_key,
    document_key_spec, lemma_doc_index_key, lemma_doc_index_key_injective,
    lemma_doc_index_of_key, lemma_doc_index_prefix, DocIndex,
};
use crate::keys::lemma_update_key_order;
use crate::set::MultiMap;

verus! {

/// The postings of every term and the words of every document.
pub struct WordsIndex {
    words: MultiMap,
    docs_words: MultiMap,
}

impl WordsIndex {
    /// The index is well formed: every key of a posting is the key of an
    /// occurrence, and postings and words of documents agree.
    pub closed spec fn wf(&self) -> bool {
        &&& self.words.wf()
        &&& self.docs_words.wf()
        &&& forall|t: Seq<u8>, k: Seq<u8>| #[trigger]
            self.words.members(t).contains(k) ==> k.len() == 16 && self.docs_words.members(
                k.subrange(0, 8),
            ).contains(t)
        &&& forall|dk: Seq<u8>, t: Seq<u8>| #[trigger]
            self.docs_words.members(dk).contains(t) ==> dk.len() == 8 && exists|k: Seq<u8>| #[trigger]
                self.words.members(t).contains(k) && k.subrange(0, 8) == dk
    }

    /// The occurrences of `term`.
    pub closed spec fn postings(&self, term: Seq<u8>) -> Set<DocIndex> {
        Set::new(|di: DocIndex| self.words.members(term).contains(doc_index_key_spec(di)))
    }

    /// The terms that occur in document `id`.
    pub closed spec fn doc_words(&self, id: u64) -> Set<Seq<u8>> {
        self.docs_words.members(document_key_spec(id))
    }

    /// The terms that have postings, in increasing order.
    pub closed spec fn terms(&self) -> Seq<Seq<u8>> {
        self.words.keys()
    }

    /// Document `id` is among the postings of `term`.
    pub open spec fn document_in_postings(&self, id: u64, term: Seq<u8>) -> bool {
        exists|di: DocIndex| #[trigger] self.postings(term).contains(di) && di.document_id == id
    }

    /// A document is among the postings of a term exactly where the term is
    /// among the words of the document.
    pub proof fn lemma_duality(&self, id: u64, term: Seq<u8>)
        requires
            self.wf(),
        ensures
            self.document_in_postings(id, term) <==> self.doc_words(id).contains(term),
    {
        let dk = document_key_spec(id);
        if self.document_in_postings(id, term) {
            let di = choose|di: DocIndex| #[trigger]
                self.postings(term).contains(di) && di.document_id == id;
            let k = doc_index_key_spec(di);
            lemma_doc_index_key(di);
            assert(self.words.members(term).contains(k));
        }
        if self.doc_words(id).contains(term) {
            assert(self.docs_words.members(dk).contains(term));
            let k = choose|k: Seq<u8>| #[trigger]
                self.words.members(term).contains(k) && k.subrange(0, 8) == dk;
            let di = doc_index_of_key_spec(k);
            lemma_doc_index_of_key(k);
            lemma_doc_index_key(di);
            lemma_update_key_order(di.document_id, id);
            assert(self.postings(term).contains(di));
        }
    }

    /// The terms in order are exactly the terms that have a posting.
    pub proof fn lemma_terms(&self)
        requires
            self.wf(),
        ensures
            strictly_increasing(self.terms()),
            forall|t: Seq<u8>|
                #![trigger self.postings(t)]
                #![trigger self.terms().contains(t)]
                self.terms().contains(t) <==> exists|di: DocIndex| #[trigger]
                    self.postings(t).contains(di),
    {
        self.words.lemma_keys();
        assert forall|t: Seq<u8>|
            #![trigger self.postings(t)]
            #![trigger self.terms().contains(t)]
            self.terms().contains(t) <==> exists|di: DocIndex| #[trigger]
                self.postings(t).contains(di) by {
            let m = self.words.members(t);
            if self.terms().contains(t) {
                assert(!(m =~= Set::<Seq<u8>>::empty()));
                let k = choose|k: Seq<u8>| m.contains(k);
                assert(self.words.members(t).contains(k));
                lemma_doc_index_of_key(k);
                assert(self.postings(t).contains(doc_index_of_key_spec(k)));
            }
            if exists|di: DocIndex| #[trigger] self.postings(t).contains(di) {
                let di = choose|di: DocIndex| #[trigger] self.postings(t).contains(di);
                assert(m.contains(doc_index_key_spec(di)));
            }
        }
    }

    /// An index without postings.
    pub fn new() -> (w: Self)
        ensures
            w.wf(),
            w.terms().len() == 0,
            forall|t: Seq<u8>| (#[trigger] w.postings(t)) == Set::<DocIndex>::empty(),
            forall|id: u64| (#[trigger] w.doc_words(id)) == Set::<Seq<u8>>::empty(),
    {
        let w = WordsIndex { words: MultiMap::new(), docs_words: MultiMap::new() };
        proof {
            assert forall|t: Seq<u8>| (#[trigger] w.postings(t)) == Set::<DocIndex>::empty() by {
                assert(w.postings(t) =~= Set::<DocIndex>::empty());
            }
        }
        w
    }

    /// The number of terms that have postings.
    pub fn number_of_terms(&self) -> (n: usize)
        requires
            self.wf(),
        ensures
            n == self.terms().len(),
    {
        self.words.len()
    }

    /// The terms that have postings, in increasing order.
    pub fn term_list(&self) -> (l: &Vec<Vec<u8>>)
        requires
            self.wf(),
        ensures
            byte_strings(l@) == self.terms(),
            strictly_increasing(byte_strings(l@)),
    {
        self.words.key_list()
    }

    /// The keys of the documents that have words, in increasing order.
    pub closed spec fn document_keys(&self) -> Seq<Seq<u8>> {
        self.docs_words.keys()
    }

    /// The keys of the documents in order are exactly the keys of the
    /// documents that have a word.
    pub proof fn lemma_document_keys(&self)
        requires
            self.wf(),
        ensures
            strictly_increasing(self.document_keys()),
            forall|id: u64|
                #![trigger self.doc_words(id)]
                self.document_keys().contains(document_key_spec(id)) <==> !(self.doc_words(id)
                    =~= Set::<Seq<u8>>::empty()),
            forall|k: Seq<u8>|
                self.document_keys().contains(k) ==> exists|id: u64|
                    k == #[trigger] document_key_spec(id),
    {
        self.docs_words.lemma_keys();
        assert forall|k: Seq<u8>| self.document_keys().contains(k) implies exists|id: u64|
            k == #[trigger] document_key_spec(id) by {
            let m = self.docs_words.members(k);
            assert(!(m =~= Set::<Seq<u8>>::empty()));
            let t = choose|t: Seq<u8>| m.contains(t);
            assert(self.docs_words.members(k).contains(t));
            crate::keys::lemma_be_bytes_of_value(k);
            crate::keys::lemma_be_value_bound(k);
            crate::keys::lemma_pow256_8();
            assert(k == document_key_spec(crate::keys::be_value(k) as u64));
        }
    }

    /// The keys of the documents that have words, in increasing order.
    pub fn document_key_list(&self) -> (l: &Vec<Vec<u8>>)
        requires
            self.wf(),
        ensures
            byte_strings(l@) == self.document_keys(),
            strictly_increasing(byte_strings(l@)),
    {
        self.docs_words.key_list()
    }

    /// The occurrences of `term`, in increasing order of their keys: `None`
    /// where the term has no posting.
    pub fn doc_indexes(&self, term: &[u8]) -> (r: Option<Vec<DocIndex>>)
        requires
            self.wf(),
        ensures
            r is Some <==> self.terms().contains(term@),
            r is None ==> self.postings(term@) == Set::<DocIndex>::empty(),
            r is Some ==> {
                &&& r->0@.len() > 0
                &&& r->0@.to_set() == self.postings(term@)
                &&& strictly_increasing(doc_index_keys(r->0@))
            },
    {
        match self.words.get(term) {
            None => {
                proof {
                    assert(self.postings(term@) =~= Set::<DocIndex>::empty());
                }
                None
            },
            Some(set) => {
                let keys = set.as_list();
                let ghost ks = byte_strings(keys@);
                let mut out: Vec<DocIndex> = Vec::new();
                let mut i: usize = 0;
                proof {
                    assert forall|j: int| 0 <= j < ks.len() implies (#[trigger] ks[j]).len()
                        == 16 by {
                        assert(ks.to_set().contains(ks[j]));
                        assert(self.words.members(term@).contains(ks[j]));
                    }
                }
                while i < keys.len()
                    invariant
                        i <= keys@.len(),
                        ks == byte_strings(keys@),
                        forall|j: int| 0 <= j < ks.len() ==> (#[trigger] ks[j]).len() == 16,
                        out@.len() == i,
                        forall|j: int|
                            0 <= j < i ==> doc_index_key_spec(#[trigger] out@[j]) == ks[j],
                    decreases keys@.len() - i,
                {
                    assert(ks[i as int].len() == 16);
                    let di = match doc_index_of_key(keys[i].as_slice()) {
                        Some(di) => di,
                        None => vstd::pervasive::unreached(),
                    };
                    out.push(di);
                    i = i + 1;
                }
                proof {
                    let mapped = doc_index_keys(out@);
                    assert(mapped =~= ks);
                    assert forall|di: DocIndex| out@.to_set().contains(di) == self.postings(
                        term@,
                    ).contains(di) by {
                        if out@.to_set().contains(di) {
                            let j = choose|j: int| 0 <= j < out@.len() && out@[j] == di;
                            assert(ks[j] == doc_index_key_spec(di));
                            assert(ks.to_set().contains(ks[j]));
                        }
                        if self.postings(term@).contains(di) {
                            let k = doc_index_key_spec(di);
                            assert(ks.to_set().contains(k));
                            let j = choose|j: int| 0 <= j < ks.len() && ks[j] == k;
                            lemma_doc_index_key_injective(out@[j], di);
                        }
                    }
                    assert(out@.to_set() =~= self.postings(term@));
                }
                Some(out)
            },
        }
    }

    /// The terms that occur in document `id`, in increasing order: `None`
    /// where the document has no word.
    pub fn doc_words_of(&self, id: u64) -> (r: Option<&Vec<Vec<u8>>>)
        requires
            self.wf(),
        ensures
            r is None ==> self.doc_words(id) == Set::<Seq<u8>>::empty(),
            r is Some ==> {
                &&& r->0@.len() > 0
                &&& byte_strings(r->0@).to_set() == self.doc_words(id)
                &&& strictly_increasing(byte_strings(r->0@))
            },
    {
        let dk = document_key(id);
        match self.docs_words.get(dk.as_slice()) {
            None => None,
            Some(set) => Some(set.as_list()),
        }
    }

    /// Records that `term` occurs at `di`.
    pub fn add_occurrence(&mut self, term: &[u8], di: &DocIndex)
        requires
            old(self).wf(),
        ensures
            final(self).wf(),
            forall|t: Seq<u8>| #[trigger]
                final(self).postings(t) == if t == term@ {
                    old(self).postings(t).insert(*di)
                } else {
                    old(self).postings(t)
                },
            forall|id: u64| #[trigger]
                final(self).doc_words(id) == if id == di.document_id {
                    old(self).doc_words(id).insert(term@)
                } else {
                    old(self).doc_words(id)
                },
    {
        let key = doc_index_key(di);
        let dk = document_key(di.document_id);
        let ghost kv = key@;
        let ghost dkv = dk@;
        proof {
            lemma_doc_index_key(*di);
        }
        self.words.insert(term, key);
        self.docs_words.insert(dk.as_slice(), slice_to_vec(term));
        proof {
            assert forall|t: Seq<u8>, k: Seq<u8>| #[trigger]
                self.words.members(t).contains(k) implies k.len() == 16
                && self.docs_words.members(k.subrange(0, 8)).contains(t) by {
                if !(t == term@ && k == kv) {
                    assert(old(self).words.members(t).contains(k));
                }
            }
            assert forall|dk2: Seq<u8>, t: Seq<u8>| #[trigger]
                self.docs_words.members(dk2).contains(t) implies dk2.len() == 8 && exists|
                k: Seq<u8>,
            | #[trigger]
                self.words.members(t).contains(k) && k.subrange(0, 8) == dk2 by {
                if dk2 == dkv && t == term@ {
                    assert(self.words.members(t).contains(kv));
                } else {
                    assert(old(self).docs_words.members(dk2).contains(t));
                    let k = choose|k: Seq<u8>| #[trigger]
                        old(self).words.members(t).contains(k) && k.subrange(0, 8) == dk2;
                    assert(self.words.members(t).contains(k));
                }
            }
            assert forall|t: Seq<u8>| #[trigger]
                self.postings(t) == if t == term@ {
                    old(self).postings(t).insert(*di)
                } else {
                    old(self).postings(t)
                } by {
                if t == term@ {
                    assert forall|x: DocIndex|
                        self.postings(t).contains(x) == old(self).postings(t).insert(
                            *di,
                        ).contains(x) by {
                        if doc_index_key_spec(x) == kv {
                            lemma_doc_index_key_injective(x, *di);
                        }
                    }
                    assert(self.postings(t) =~= old(self).postings(t).insert(*di));
                } else {
                    assert(self.postings(t) =~= old(self).postings(t));
                }
            }
            assert forall|id: u64| #[trigger]
                self.doc_words(id) == if id == di.document_id {
                    old(self).doc_words(id).insert(term@)
                } else {
                    old(self).doc_words(id)
                } by {
                lemma_update_key_order(id, di.document_id);
            }
        }
    }

    /// Takes document `id` out of the postings of every term, and forgets its
    /// words.
    pub fn remove_document(&mut self, id: u64)
        requires
            old(self).wf(),
        ensures
            final(self).wf(),
            forall|t: Seq<u8>| #[trigger]
                final(self).postings(t) == old(self).postings(t).filter(
                    |di: DocIndex| di.document_id != id,
                ),
            forall|other: u64| #[trigger]
                final(self).doc_words(other) == if other == id {
                    Set::<Seq<u8>>::empty()
                } else {
                    old(self).doc_words(other)
                },
    {
        let dk = document_key(id);
        let ghost dkv = dk@;
        let ghost old_words = self.words;
        match self.docs_words.get(dk.as_slice()) {
            None => {},
            Some(set) => {
                let terms = set.as_list();
                let ghost ts = byte_strings(terms@);
                let mut i: usize = 0;
                while i < terms.len()
                    invariant
                        i <= terms@.len(),
                        ts == byte_strings(terms@),
                        dkv == dk@,
                        self.words.wf(),
                        self.docs_words == old(self).docs_words,
                        forall|t: Seq<u8>| #[trigger]
                            self.words.members(t) == if ts.subrange(0, i as int).contains(t) {
                                old_words.members(t).filter(|k: Seq<u8>| !is_prefix(dkv, k))
                            } else {
                                old_words.members(t)
                            },
                    decreases terms@.len() - i,
                {
                    let ghost before = self.words;
                    self.words.remove_items_with_prefix(terms[i].as_slice(), dk.as_slice());
                    proof {
                        let cur = ts[i as int];
                        let done = ts.subrange(0, i as int);
                        let next = ts.subrange(0, i + 1);
                        assert(next =~= done.push(cur));
                        assert forall|t: Seq<u8>| #[trigger]
                            self.words.members(t) == if next.contains(t) {
                                old_words.members(t).filter(|k: Seq<u8>| !is_prefix(dkv, k))
                            } else {
                                old_words.members(t)
                            } by {
                            let f = |k: Seq<u8>| !is_prefix(dkv, k);
                            if t == cur {
                                assert(next[i as int] == cur);
                                assert(next.contains(t));
                                if done.contains(t) {
                                    assert(before.members(t).filter(f) =~= old_words.members(
                                        t,
                                    ).filter(f));
                                }
                            } else {
                                if next.contains(t) {
                                    let j = choose|j: int| 0 <= j < next.len() && next[j] == t;
                                    assert(done[j] == t);
                                    assert(done.contains(t));
                                }
                                if done.contains(t) {
                                    let j = choose|j: int| 0 <= j < done.len() && done[j] == t;
                                    assert(next[j] == t);
                                    assert(next.contains(t));
                                }
                            }
                        }
                    }
                    i = i + 1;
                }
                proof {
                    assert(ts.subrange(0, i as int) =~= ts);
                }
            },
        }
        proof {
            // every term now holds what it held, less the occurrences in the document
            assert forall|t: Seq<u8>| #[trigger]
                self.words.members(t) == old_words.members(t).filter(
                    |k: Seq<u8>| !is_prefix(dkv, k),
                ) by {
                let f = |k: Seq<u8>| !is_prefix(dkv, k);
                if !old(self).docs_words.members(dkv).contains(t) {
                    assert forall|k: Seq<u8>| old_words.members(t).contains(k) implies f(k) by {
                        assert(old(self).words.members(t).contains(k));
                    }
                    assert(old_words.members(t).filter(f) =~= old_words.members(t));
                }
            }
        }
        self.docs_words.remove_key(dk.as_slice());
        proof {
            assert forall|t: Seq<u8>, k: Seq<u8>| #[trigger]
                self.words.members(t).contains(k) implies k.len() == 16
                && self.docs_words.members(k.subrange(0, 8)).contains(t) by {
                assert(old(self).words.members(t).contains(k));
            }
            assert forall|dk2: Seq<u8>, t: Seq<u8>| #[trigger]
                self.docs_words.members(dk2).contains(t) implies dk2.len() == 8 && exists|
                k: Seq<u8>,
            | #[trigger]
                self.words.members(t).contains(k) && k.subrange(0, 8) == dk2 by {
                assert(old(self).docs_words.members(dk2).contains(t));
                let k = choose|k: Seq<u8>| #[trigger]
                    old(self).words.members(t).contains(k) && k.subrange(0, 8) == dk2;
                assert(self.words.members(t).contains(k));
            }
            assert forall|t: Seq<u8>| #[trigger]
                self.postings(t) == old(self).postings(t).filter(
                    |di: DocIndex| di.document_id != id,
                ) by {
                assert forall|x: DocIndex|
                    self.postings(t).contains(x) == old(self).postings(t).filter(
                        |di: DocIndex| di.document_id != id,
                    ).contains(x) by {
                    lemma_doc_index_prefix(x, id);
                }
                assert(self.postings(t) =~= old(self).postings(t).filter(
                    |di: DocIndex| di.document_id != id,
                ));
            }
            assert forall|other: u64| #[trigger]
                self.doc_words(other) == if other == id {
                    Set::<Seq<u8>>::empty()
                } else {
                    old(self).doc_words(other)
                } by {
                lemma_update_key_order(other, id);
            }
        }
    }
}

} // verus!
