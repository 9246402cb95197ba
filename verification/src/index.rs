//! The index: its trees, the snapshot that readers query, and the queue of
//! updates with the worker's part in draining it.
//!
//! An update is enqueued under a fresh id. The worker takes the update with
//! the lowest id, applies it, and records its status under the same id. While
//! an update is being applied it is in neither tree; at every other moment an
//! id is in at most one of them.

use vstd::prelude::*;
use vstd::slice::slice_to_vec;
use crate::apply::{
    added_alternatives, added_postings, added_words, apply_documents_addition,
    apply_documents_deletion, apply_synonyms_addition, apply_synonyms_deletion, documents_added,
    documents_deleted, last_field, last_rank, synonyms_added, synonyms_deleted, Indexed,
    IndexedView,
};
use crate::docindex::{doc_index_keys, DocIndex};
use crate::bytes::{lemma_lex_asymmetric, strictly_increasing};
use crate::codec::{dec_update, decode_update, encode_update};
use crate::custom::CustomSettingsIndex;
use crate::dictionary::{build_dictionary, fst_contains, fst_len, fst_terms};
use crate::documents::DocumentsIndex;
use crate::keys::{lemma_update_key_order, update_id_of_key, update_key, update_key_spec};
use crate::ranked_map::RankedMap;
use crate::schema::{resolve_schema, IndexError, Schema, SchemaView};
use crate::status::{dec_status, decode_status, enc_status, encode_status};
use crate::synonyms::SynonymsIndex;
use crate::tree::Tree;
use crate::update::{
    additions_view, count_sources, named_sources, number_of_sources, removals_view, sources, DetailedDuration, IndexStats, Terms, Update, UpdateStatus, UpdateStatusView, UpdateType,
    UpdateView,
};
use crate::words::WordsIndex;

verus! {

/// What readers query: the dictionary of the terms, that of the synonym
/// sources, the schema and the ranked map.
pub struct Cache {
    words: fst::Set,
    synonyms: fst::Set,
    schema: Schema,
    ranked_map: RankedMap,
}

/// The update that the worker has taken from the queue and applied, and whose
/// status is not recorded yet.
struct InFlight {
    update_id: u64,
    update_type: UpdateType,
    result: Result<(), String>,
}

/// What was stored of an index when it was last open; everything is empty for
/// an index that never was.
pub struct Stored {
    /// The schema, if one was written.
    pub schema: Option<Schema>,
    /// The postings, the fields and the ranked map.
    pub indexed: Indexed,
    /// The alternatives of each source.
    pub synonyms: Vec<(Vec<u8>, Terms)>,
    /// The custom settings.
    pub custom: Vec<(Vec<u8>, Vec<u8>)>,
    /// The queued updates, by id.
    pub updates: Vec<(u64, Vec<u8>)>,
    /// The recorded results, by id.
    pub results: Vec<(u64, Vec<u8>)>,
}

/// The ids and byte strings that a list holds.
pub open spec fn entries_view(l: Seq<(u64, Vec<u8>)>) -> Seq<(u64, Seq<u8>)> {
    Seq::new(l.len(), |i: int| (l[i].0, l[i].1@))
}

/// The keys and values that a list of settings holds.
pub open spec fn settings_view(l: Seq<(Vec<u8>, Vec<u8>)>) -> Seq<(Seq<u8>, Seq<u8>)> {
    Seq::new(l.len(), |i: int| (l[i].0@, l[i].1@))
}

/// The value that `entries` hold last for `key`.
pub open spec fn last_setting(entries: Seq<(Seq<u8>, Seq<u8>)>, key: Seq<u8>) -> Option<Seq<u8>>
    decreases entries.len(),
{
    if entries.len() == 0 {
        None
    } else if entries.last().0 == key {
        Some(entries.last().1)
    } else {
        last_setting(entries.drop_last(), key)
    }
}

/// The value of `k` in `m`, if it has one.
pub open spec fn lookup<V>(m: Map<Seq<u8>, V>, k: Seq<u8>) -> Option<V> {
    if m.contains_key(k) {
        Some(m[k])
    } else {
        None
    }
}

/// The byte string that `entries` hold last for `id`.
pub open spec fn last_entry(entries: Seq<(u64, Seq<u8>)>, id: u64) -> Option<Seq<u8>>
    decreases entries.len(),
{
    if entries.len() == 0 {
        None
    } else if entries.last().0 == id {
        Some(entries.last().1)
    } else {
        last_entry(entries.drop_last(), id)
    }
}

/// `entries` hold something for `id`.
pub open spec fn holds_id(entries: Seq<(u64, Seq<u8>)>, id: u64) -> bool {
    exists|i: int| 0 <= i < entries.len() && (#[trigger] entries[i]).0 == id
}

/// The next id once `id` is known to have been handed out: above `id`, and
/// not below what it was. The one id that no update can have changes nothing.
pub open spec fn later_id(next: u64, id: u64) -> u64 {
    if id < u64::MAX && next <= id {
        (id + 1) as u64
    } else {
        next
    }
}

/// `next` is the least id above every id that the stored results and updates
/// hold: 0 where they hold none. The one id that no update can have does not
/// count.
pub open spec fn least_above(
    next: u64,
    results: Seq<(u64, Seq<u8>)>,
    updates: Seq<(u64, Seq<u8>)>,
) -> bool {
    &&& forall|id: u64|
        #![trigger holds_id(results, id)]
        #![trigger holds_id(updates, id)]
        id < u64::MAX && (holds_id(results, id) || holds_id(updates, id)) ==> id < next
    &&& next == 0 || holds_id(results, (next - 1) as u64) || holds_id(updates, (next - 1) as u64)
}

/// What opening hands back, without the flag that says whether the schema
/// has to be written.
pub open spec fn without_flag(r: Result<(Index, bool), IndexError>) -> Result<Index, IndexError> {
    match r {
        Ok((index, _)) => Ok(index),
        Err(e) => Err(e),
    }
}

proof fn lemma_holds_id(entries: Seq<(u64, Seq<u8>)>, i: int, id: u64)
    requires
        0 <= i < entries.len(),
    ensures
        holds_id(entries.subrange(0, i + 1), id) <==> holds_id(entries.subrange(0, i), id)
            || entries[i].0 == id,
{
    let a = entries.subrange(0, i);
    let b = entries.subrange(0, i + 1);
    if holds_id(b, id) {
        let k = choose|k: int| 0 <= k < b.len() && (#[trigger] b[k]).0 == id;
        if k < i {
            assert(a[k].0 == id);
        }
    }
    if holds_id(a, id) {
        let k = choose|k: int| 0 <= k < a.len() && (#[trigger] a[k]).0 == id;
        assert(b[k].0 == id);
    }
    if entries[i].0 == id {
        assert(b[i].0 == id);
    }
}

/// One index.
pub struct Index {
    cache: Cache,
    words_index: WordsIndex,
    documents_index: DocumentsIndex,
    synonyms_index: SynonymsIndex,
    custom_settings_index: CustomSettingsIndex,
    updates_index: Tree<Vec<u8>>,
    updates_results_index: Tree<Vec<u8>>,
    next_update_id: u64,
    in_flight: Option<InFlight>,
}

impl Index {
    /// The postings of the terms and the words of the documents.
    pub closed spec fn words_index(&self) -> WordsIndex {
        self.words_index
    }

    /// The fields of the documents.
    pub closed spec fn documents_index(&self) -> DocumentsIndex {
        self.documents_index
    }

    /// The synonyms.
    pub closed spec fn synonyms_index(&self) -> SynonymsIndex {
        self.synonyms_index
    }

    /// The custom settings.
    pub closed spec fn custom_settings_index(&self) -> CustomSettingsIndex {
        self.custom_settings_index
    }

    /// The ranked map.
    pub closed spec fn ranked_map(&self) -> RankedMap {
        self.cache.ranked_map
    }

    /// The schema.
    pub closed spec fn schema_view(&self) -> SchemaView {
        self.cache.schema@
    }

    /// The keys of the dictionary of terms that readers query.
    pub closed spec fn cached_words(&self) -> Seq<Seq<u8>> {
        fst_terms(self.cache.words)
    }

    /// The keys of the dictionary of synonym sources that readers query.
    pub closed spec fn cached_synonyms(&self) -> Seq<Seq<u8>> {
        fst_terms(self.cache.synonyms)
    }

    /// The payload that is queued under `id`, if one is.
    pub closed spec fn pending(&self, id: u64) -> Option<Seq<u8>> {
        let k = update_key_spec(id);
        if self.updates_index@.contains_key(k) {
            Some(self.updates_index@[k]@)
        } else {
            None
        }
    }

    /// The bytes of the result that is recorded under `id`, if one is.
    pub closed spec fn recorded(&self, id: u64) -> Option<Seq<u8>> {
        let k = update_key_spec(id);
        if self.updates_results_index@.contains_key(k) {
            Some(self.updates_results_index@[k]@)
        } else {
            None
        }
    }

    /// The id that the next update will get. Every id in the queue or among
    /// the results is below it.
    pub closed spec fn next_id(&self) -> u64 {
        self.next_update_id
    }

    /// The id of the update that is being applied, if one is.
    pub closed spec fn in_transaction(&self) -> Option<u64> {
        match self.in_flight {
            Some(f) => Some(f.update_id),
            None => None,
        }
    }

    /// The kind and the outcome of the update that is being applied.
    pub closed spec fn outcome(&self) -> Option<(UpdateType, Result<(), Seq<char>>)> {
        match self.in_flight {
            Some(f) => Some(
                (
                    f.update_type,
                    match f.result {
                        Ok(_) => Ok(()),
                        Err(message) => Err(message@),
                    },
                ),
            ),
            None => None,
        }
    }

    /// The invariant of an index: its trees are well formed; the dictionaries
    /// that readers query hold exactly the terms that have postings and the
    /// sources that have alternatives; every id in the queue or among the
    /// results was handed out; no id is in both; and the update that is being
    /// applied is in neither.
    pub closed spec fn inv(&self) -> bool {
        &&& self.words_index.wf()
        &&& self.documents_index.wf()
        &&& self.synonyms_index.wf()
        &&& self.custom_settings_index.wf()
        &&& self.cache.ranked_map.wf()
        &&& self.updates_index.wf()
        &&& self.updates_results_index.wf()
        &&& fst_terms(self.cache.words) == self.words_index.terms()
        &&& fst_terms(self.cache.synonyms) == self.synonyms_index.sources()
        &&& forall|k: Seq<u8>| #[trigger]
            self.updates_index@.contains_key(k) ==> self.handed_out(k)
        &&& forall|k: Seq<u8>| #[trigger]
            self.updates_results_index@.contains_key(k) ==> self.handed_out(k)
        &&& forall|k: Seq<u8>|
            !(#[trigger] self.updates_index@.contains_key(k)
                && self.updates_results_index@.contains_key(k))
        &&& match self.in_flight {
            Some(f) => {
                &&& f.update_id < self.next_update_id
                &&& !self.updates_index@.contains_key(update_key_spec(f.update_id))
                &&& !self.updates_results_index@.contains_key(update_key_spec(f.update_id))
            },
            None => true,
        }
    }

    /// `k` is the key of an id that was handed out.
    closed spec fn handed_out(&self, k: Seq<u8>) -> bool {
        exists|id: u64| id < self.next_update_id && k == #[trigger] update_key_spec(id)
    }

    /// The trees, the schema and the ranked map are those of `other`.
    pub open spec fn same_data(&self, other: &Index) -> bool {
        &&& self.words_index() == other.words_index()
        &&& self.documents_index() == other.documents_index()
        &&& self.synonyms_index() == other.synonyms_index()
        &&& self.custom_settings_index() == other.custom_settings_index()
        &&& self.ranked_map() == other.ranked_map()
        &&& self.schema_view() == other.schema_view()
        &&& self.cached_words() == other.cached_words()
        &&& self.cached_synonyms() == other.cached_synonyms()
    }

    /// The dictionaries that readers query hold exactly the terms that have
    /// postings and the sources that have alternatives, in every state of an
    /// index.
    pub proof fn lemma_dictionaries(&self)
        requires
            self.inv(),
        ensures
            self.cached_words() == self.words_index().terms(),
            self.cached_synonyms() == self.synonyms_index().sources(),
            self.words_index().wf(),
            self.synonyms_index().wf(),
            self.documents_index().wf(),
            self.ranked_map().wf(),
            self.custom_settings_index().wf(),
    {
    }

    /// The dictionary of terms holds exactly the terms that have a posting, and
    /// the dictionary of synonym sources exactly the sources that have an
    /// alternative.
    pub proof fn lemma_dictionary_consistency(&self, key: Seq<u8>)
        requires
            self.inv(),
        ensures
            self.cached_words().contains(key) <==> exists|di: DocIndex| #[trigger]
                self.words_index().postings(key).contains(di),
            self.cached_synonyms().contains(key) <==> exists|alt: Seq<u8>| #[trigger]
                self.synonyms_index().alternatives(key).contains(alt),
    {
        let w = self.words_index();
        w.lemma_terms();
        assert(self.cached_words() == w.terms());
        let p = w.postings(key);
        assert(w.terms().contains(key) <==> exists|di: DocIndex| #[trigger]
            w.postings(key).contains(di));
        self.synonyms_index.lemma_sources();
        let a = self.synonyms_index.alternatives(key);
        if !(a =~= Set::<Seq<u8>>::empty()) {
            let alt = choose|alt: Seq<u8>| a.contains(alt);
            assert(self.synonyms_index().alternatives(key).contains(alt));
        }
    }

    /// A document is among the postings of a term exactly where the term is
    /// among the words of the document.
    pub proof fn lemma_posting_duality(&self, id: u64, term: Seq<u8>)
        requires
            self.inv(),
        ensures
            self.words_index().document_in_postings(id, term) <==> self.words_index().doc_words(
                id,
            ).contains(term),
    {
        self.words_index.lemma_duality(id, term);
    }

    /// Outside a transaction no id is both queued and recorded; the id of the
    /// update that is being applied is neither; and every id that is queued or
    /// recorded is below the next one.
    pub proof fn lemma_queue(&self, id: u64)
        requires
            self.inv(),
        ensures
            !(self.pending(id) is Some && self.recorded(id) is Some),
            self.in_transaction() == Some(id) ==> self.pending(id) is None && self.recorded(id)
                is None,
            self.pending(id) is Some || self.recorded(id) is Some || self.in_transaction() == Some(
                id,
            ) ==> id < self.next_id(),
    {
        let k = update_key_spec(id);
        if self.updates_index@.contains_key(k) || self.updates_results_index@.contains_key(k) {
            assert(self.handed_out(k));
            let other = choose|other: u64|
                other < self.next_update_id && k == #[trigger] update_key_spec(other);
            lemma_update_key_order(id, other);
        }
    }

    /// Opens an index on what was stored of it, without expecting a schema.
    pub fn new(stored: Stored) -> (r: Result<Index, IndexError>)
        ensures
            opened(stored, None, r),
    {
        match Index::new_raw(stored, None) {
            Ok((index, _)) => Ok(index),
            Err(e) => Err(e),
        }
    }

    /// Opens an index on what was stored of it, expecting `schema`.
    pub fn with_schema(stored: Stored, schema: Schema) -> (r: Result<Index, IndexError>)
        ensures
            opened(stored, Some(schema), r),
    {
        match Index::new_raw(stored, Some(schema)) {
            Ok((index, _)) => Ok(index),
            Err(e) => Err(e),
        }
    }

    /// Opens an index on what was stored of it, and says whether its schema
    /// has to be written: that is so exactly where none was stored.
    pub fn open(stored: Stored, schema: Option<Schema>) -> (r: Result<(Index, bool), IndexError>)
        ensures
            opened(stored, schema, without_flag(r)),
            r is Ok ==> r->Ok_0.1 == (stored.schema is None),
    {
        Index::new_raw(stored, schema)
    }

    fn new_raw(stored: Stored, schema: Option<Schema>) -> (r: Result<(Index, bool), IndexError>)
        ensures
            opened(stored, schema, without_flag(r)),
            r is Ok ==> r->Ok_0.1 == (stored.schema is None),
    {
        let Stored { schema: current, indexed, synonyms, custom, updates, results } = stored;
        let (schema, write) = match resolve_schema(schema, current) {
            Ok(resolved) => resolved,
            Err(e) => {
                return Err(e);
            },
        };
        let mut words_index = WordsIndex::new();
        let mut documents_index = DocumentsIndex::new();
        let mut ranked_map = RankedMap::new();
        let mut synonyms_index = SynonymsIndex::new();
        apply_documents_addition(&mut words_index, &mut documents_index, &mut ranked_map, indexed);
        apply_synonyms_addition(&mut synonyms_index, &synonyms);
        proof {
            let occ = stored.indexed@.occurrences;
            assert forall|t: Seq<u8>| #[trigger]
                words_index.postings(t) == added_postings(occ, t) by {
                assert(Set::<DocIndex>::empty() + added_postings(occ, t) =~= added_postings(
                    occ,
                    t,
                ));
            }
            assert forall|id: u64| #[trigger]
                words_index.doc_words(id) == added_words(occ, id) by {
                assert(Set::<Seq<u8>>::empty() + added_words(occ, id) =~= added_words(occ, id));
            }
            let sv = additions_view(stored.synonyms@);
            assert forall|s: Seq<u8>| #[trigger]
                synonyms_index.alternatives(s) == added_alternatives(sv, s) by {
                assert(Set::<Seq<u8>>::empty() + added_alternatives(sv, s)
                    =~= added_alternatives(sv, s));
            }
        }
        let mut custom_settings_index = CustomSettingsIndex::new();
        let ghost cv = settings_view(custom@);
        let mut c: usize = 0;
        while c < custom.len()
            invariant
                c <= custom@.len(),
                cv == settings_view(custom@),
                custom_settings_index.wf(),
                forall|k: Seq<u8>|
                    lookup(custom_settings_index@, k) == #[trigger] last_setting(
                        cv.subrange(0, c as int),
                        k,
                    ),
            decreases custom@.len() - c,
        {
            custom_settings_index.set(
                slice_to_vec(custom[c].0.as_slice()),
                slice_to_vec(custom[c].1.as_slice()),
            );
            proof {
                let a = cv.subrange(0, c as int);
                let b = cv.subrange(0, c + 1);
                assert(b.drop_last() =~= a);
                assert(b.last() == cv[c as int]);
                assert forall|k: Seq<u8>|
                    lookup(custom_settings_index@, k) == #[trigger] last_setting(b, k) by {
                    let _ = last_setting(a, k);
                }
            }
            c = c + 1;
        }
        proof {
            assert(cv.subrange(0, c as int) =~= cv);
        }
        let words = build_dictionary(words_index.term_list());
        let synonyms_set = build_dictionary(synonyms_index.source_list());
        let ghost schema_view = schema@;
        let mut index = Index {
            cache: Cache { words, synonyms: synonyms_set, schema, ranked_map },
            words_index,
            documents_index,
            synonyms_index,
            custom_settings_index,
            updates_index: Tree::new(),
            updates_results_index: Tree::new(),
            next_update_id: 0,
            in_flight: None,
        };
        let ghost fresh = index;
        let ghost rv = entries_view(results@);
        let mut i: usize = 0;
        while i < results.len()
            invariant
                i <= results@.len(),
                rv == entries_view(results@),
                index.inv(),
                index.in_transaction() is None,
                index.same_data(&fresh),
                forall|id: u64| (#[trigger] index.pending(id)) is None,
                forall|id: u64| #[trigger]
                    index.recorded(id) == if id < u64::MAX {
                        last_entry(rv.subrange(0, i as int), id)
                    } else {
                        None
                    },
                least_above(index.next_id(), rv.subrange(0, i as int), Seq::empty()),
            decreases results@.len() - i,
        {
            index.restore_result(results[i].0, &results[i].1);
            proof {
                let a = rv.subrange(0, i as int);
                let b = rv.subrange(0, i + 1);
                assert(b.drop_last() =~= a);
                assert(b.last() == rv[i as int]);
                assert forall|id: u64| holds_id(b, id) == (holds_id(a, id) || id == rv[i as int].0) by {
                    lemma_holds_id(rv, i as int, id);
                }
            }
            i = i + 1;
        }
        proof {
            assert(rv.subrange(0, i as int) =~= rv);
        }
        let ghost uv = entries_view(updates@);
        let ghost restored = index;
        let mut j: usize = 0;
        while j < updates.len()
            invariant
                j <= updates@.len(),
                uv == entries_view(updates@),
                index.inv(),
                index.in_transaction() is None,
                index.same_data(&fresh),
                forall|id: u64| #[trigger] index.recorded(id) == restored.recorded(id),
                forall|id: u64| #[trigger]
                    index.pending(id) == if id < u64::MAX && restored.recorded(id) is None {
                        last_entry(uv.subrange(0, j as int), id)
                    } else {
                        None
                    },
                least_above(index.next_id(), rv, uv.subrange(0, j as int)),
            decreases updates@.len() - j,
        {
            index.restore_update(updates[j].0, &updates[j].1);
            proof {
                let a = uv.subrange(0, j as int);
                let b = uv.subrange(0, j + 1);
                assert(b.drop_last() =~= a);
                assert(b.last() == uv[j as int]);
                assert forall|id: u64| holds_id(b, id) == (holds_id(a, id) || id == uv[j as int].0) by {
                    lemma_holds_id(uv, j as int, id);
                }
            }
            j = j + 1;
        }
        proof {
            assert(uv.subrange(0, j as int) =~= uv);
        }
        Ok((index, write))
    }

    /// Makes sure that `id` counts as handed out.
    fn reserve(&mut self, id: u64)
        requires
            old(self).inv(),
            id < u64::MAX,
        ensures
            final(self).inv(),
            final(self).next_id() == later_id(old(self).next_id(), id),
            final(self).same_data(old(self)),
            final(self).in_transaction() == old(self).in_transaction(),
            final(self).updates_index == old(self).updates_index,
            final(self).updates_results_index == old(self).updates_results_index,
    {
        if self.next_update_id <= id {
            self.next_update_id = id + 1;
            proof {
                assert forall|k: Seq<u8>| old(self).handed_out(k) implies self.handed_out(k) by {
                    let w = choose|w: u64|
                        w < old(self).next_update_id && k == #[trigger] update_key_spec(w);
                    assert(w < self.next_update_id && k == update_key_spec(w));
                }
            }
        }
    }

    /// Puts back a result that was recorded under `id`. The id that no
    /// update can have is passed over.
    fn restore_result(&mut self, id: u64, bytes: &Vec<u8>)
        requires
            old(self).inv(),
            old(self).in_transaction() is None,
            forall|i: u64| (#[trigger] old(self).pending(i)) is None,
        ensures
            final(self).inv(),
            final(self).in_transaction() is None,
            final(self).same_data(old(self)),
            forall|i: u64| (#[trigger] final(self).pending(i)) is None,
            forall|i: u64| #[trigger]
                final(self).recorded(i) == if i == id && id < u64::MAX {
                    Some(bytes@)
                } else {
                    old(self).recorded(i)
                },
            final(self).next_id() == later_id(old(self).next_id(), id),
    {
        if id == u64::MAX {
            return ;
        }
        self.reserve(id);
        let ghost mid = *self;
        let key = update_key(id);
        proof {
            mid.lemma_queue(id);
        }
        let _ = self.updates_results_index.insert(key, slice_to_vec(bytes.as_slice()));
        proof {
            assert(old(self).pending(id) is None);
            assert forall|i: u64| (#[trigger] self.pending(i)) is None by {
                assert(old(self).pending(i) is None);
            }
            assert(mid.handed_out(update_key_spec(id)));
            assert forall|k: Seq<u8>| #[trigger]
                self.updates_results_index@.contains_key(k) implies self.handed_out(k) by {
                if k != update_key_spec(id) {
                    assert(mid.updates_results_index@.contains_key(k));
                    assert(mid.handed_out(k));
                }
            }
            assert forall|k: Seq<u8>| #[trigger]
                self.updates_index@.contains_key(k) implies self.handed_out(k) by {
                assert(mid.handed_out(k));
            }
            assert forall|i: u64| #[trigger]
                self.recorded(i) == if i == id {
                    Some(bytes@)
                } else {
                    old(self).recorded(i)
                } by {
                lemma_update_key_order(i, id);
            }
        }
    }

    /// Puts back an update that was queued under `id`. One whose result is
    /// recorded already was applied and is passed over, as is the id that no
    /// update can have.
    fn restore_update(&mut self, id: u64, payload: &Vec<u8>)
        requires
            old(self).inv(),
            old(self).in_transaction() is None,
        ensures
            final(self).inv(),
            final(self).in_transaction() is None,
            final(self).same_data(old(self)),
            forall|i: u64| #[trigger] final(self).recorded(i) == old(self).recorded(i),
            forall|i: u64| #[trigger]
                final(self).pending(i) == if i == id && id < u64::MAX && old(self).recorded(id)
                    is None {
                    Some(payload@)
                } else {
                    old(self).pending(i)
                },
            final(self).next_id() == later_id(old(self).next_id(), id),
    {
        if id == u64::MAX {
            return ;
        }
        let key = update_key(id);
        if self.updates_results_index.contains_key(key.as_slice()) {
            proof {
                self.lemma_queue(id);
            }
            return ;
        }
        self.reserve(id);
        let ghost mid = *self;
        let _ = self.updates_index.insert(key, slice_to_vec(payload.as_slice()));
        proof {
            assert(mid.handed_out(update_key_spec(id)));
            assert forall|k: Seq<u8>| #[trigger]
                self.updates_index@.contains_key(k) implies self.handed_out(k) by {
                if k != update_key_spec(id) {
                    assert(mid.updates_index@.contains_key(k));
                    assert(mid.handed_out(k));
                }
            }
            assert forall|k: Seq<u8>| #[trigger]
                self.updates_results_index@.contains_key(k) implies self.handed_out(k) by {
                assert(mid.handed_out(k));
            }
            assert forall|i: u64| #[trigger]
                self.pending(i) == if i == id {
                    Some(payload@)
                } else {
                    old(self).pending(i)
                } by {
                lemma_update_key_order(i, id);
            }
        }
    }

    /// The sizes of the index: the terms in the dictionary that readers
    /// query, the documents that have a field kept, and the entries of the
    /// ranked map.
    pub fn stats(&self) -> (stats: IndexStats)
        requires
            self.inv(),
        ensures
            stats.number_of_words == self.cached_words().len(),
            stats.number_of_words == self.words_index().terms().len(),
            stats.number_of_documents == self.documents_index().document_keys().len(),
            stats.number_attrs_in_ranked_map == self.ranked_map().count(),
    {
        IndexStats {
            number_of_words: fst_len(&self.cache.words),
            number_of_documents: self.documents_index.len(),
            number_attrs_in_ranked_map: self.cache.ranked_map.len(),
        }
    }

    /// The schema of the index.
    pub fn schema(&self) -> (schema: Schema)
        requires
            self.inv(),
        ensures
            schema@ == self.schema_view(),
    {
        self.cache.schema.clone()
    }

    /// The id that the next update will get; `u64::MAX` where no id is left.
    pub fn next_update_id(&self) -> (id: u64)
        ensures
            id == self.next_id(),
    {
        self.next_update_id
    }

    /// Queues an encoded update under the next id, and hands the id back.
    /// `StorageFailure` where no id is left.
    pub fn raw_push_update(&mut self, raw_update: Vec<u8>) -> (r: Result<u64, IndexError>)
        requires
            old(self).inv(),
        ensures
            final(self).inv(),
            enqueued(*old(self), *final(self), raw_update@, r),
    {
        if self.next_update_id == u64::MAX {
            return Err(IndexError::StorageFailure);
        }
        let id = self.next_update_id;
        let key = update_key(id);
        proof {
            if self.updates_index@.contains_key(key@) || self.updates_results_index@.contains_key(
                key@,
            ) {
                assert(self.handed_out(key@));
                let other = choose|other: u64|
                    other < self.next_update_id && key@ == #[trigger] update_key_spec(other);
                lemma_update_key_order(id, other);
            }
        }
        let _ = self.updates_index.insert(key, raw_update);
        self.next_update_id = id + 1;
        proof {
            assert(self.handed_out(update_key_spec(id)));
            assert forall|k: Seq<u8>| old(self).handed_out(k) implies self.handed_out(k) by {
                let w = choose|w: u64|
                    w < old(self).next_update_id && k == #[trigger] update_key_spec(w);
                assert(w < self.next_update_id && k == update_key_spec(w));
            }
            assert forall|k: Seq<u8>| #[trigger]
                self.updates_index@.contains_key(k) implies self.handed_out(k) by {
                if k != update_key_spec(id) {
                    assert(old(self).updates_index@.contains_key(k));
                }
            }
            assert forall|k: Seq<u8>| #[trigger]
                self.updates_results_index@.contains_key(k) implies self.handed_out(k) by {
                assert(old(self).updates_results_index@.contains_key(k));
            }
            if self.in_transaction() is Some {
                lemma_update_key_order(self.in_transaction()->0, id);
            }
            assert forall|i: u64| #[trigger]
                self.pending(i) == if i == id {
                    Some(raw_update@)
                } else {
                    old(self).pending(i)
                } by {
                lemma_update_key_order(i, id);
            }
        }
        Ok(id)
    }

    /// Queues an update, and hands its id back.
    pub fn push_update(&mut self, update: &Update) -> (r: Result<u64, IndexError>)
        requires
            old(self).inv(),
        ensures
            final(self).inv(),
            enqueued(*old(self), *final(self), crate::codec::enc_update(update@), r),
            dec_update(crate::codec::enc_update(update@)) == Some(update@),
    {
        let raw = encode_update(update);
        self.raw_push_update(raw)
    }

    /// The status of update `update_id`: `None` while no result is recorded
    /// under the id, `EncodingFailure` where what is recorded is no status.
    pub fn update_status(&self, update_id: u64) -> (r: Result<Option<UpdateStatus>, IndexError>)
        requires
            self.inv(),
        ensures
            match self.recorded(update_id) {
                None => r is Ok && r->Ok_0 is None,
                Some(bytes) => match dec_status(bytes) {
                    Some(status) => r is Ok && r->Ok_0 is Some && r->Ok_0->Some_0@ == status,
                    None => r == Err::<Option<UpdateStatus>, IndexError>(
                        IndexError::EncodingFailure,
                    ),
                },
            },
    {
        let key = update_key(update_id);
        match self.updates_results_index.get(key.as_slice()) {
            Some(value) => match decode_status(value.as_slice()) {
                Some(status) => Ok(Some(status)),
                None => Err(IndexError::EncodingFailure),
            },
            None => Ok(None),
        }
    }

    /// `id` is the lowest id that has an update queued.
    pub open spec fn lowest_pending(&self, id: u64) -> bool {
        &&& self.pending(id) is Some
        &&& forall|other: u64| (#[trigger] self.pending(other)) is Some ==> id <= other
    }

    /// The id and the payload of the queued update with the lowest key.
    fn first_pending(&self) -> (r: Option<(u64, &Vec<u8>)>)
        requires
            self.inv(),
        ensures
            match r {
                None => forall|id: u64| (#[trigger] self.pending(id)) is None,
                Some((id, payload)) => self.lowest_pending(id) && self.pending(id) == Some(
                    payload@,
                ),
            },
    {
        match self.updates_index.first() {
            None => {
                proof {
                    assert forall|id: u64| (#[trigger] self.pending(id)) is None by {
                        if self.updates_index@.contains_key(update_key_spec(id)) {
                            self.updates_index.lemma_dom();
                        }
                    }
                }
                None
            },
            Some((key, payload)) => {
                proof {
                    assert(self.handed_out(key@));
                    let w = choose|w: u64|
                        w < self.next_update_id && key@ == #[trigger] update_key_spec(w);
                    lemma_update_key_order(w, w);
                }
                let id = match update_id_of_key(key.as_slice()) {
                    Some(id) => id,
                    None => vstd::pervasive::unreached(),
                };
                proof {
                    assert forall|other: u64| (#[trigger] self.pending(other)) is Some implies id
                        <= other by {
                        lemma_update_key_order(id, other);
                        lemma_update_key_order(other, id);
                        let ko = update_key_spec(other);
                        assert(self.updates_index@.contains_key(ko));
                        if ko != key@ {
                            lemma_lex_asymmetric(key@, ko);
                        }
                    }
                }
                Some((id, payload))
            },
        }
    }

    /// The update that the worker takes next: the one with the lowest id, and
    /// what its payload decodes to, `None` for a payload that is no update.
    /// `None` where the queue is empty.
    pub fn next_update(&self) -> (r: Option<(u64, Option<Update>)>)
        requires
            self.inv(),
        ensures
            match r {
                None => forall|id: u64| (#[trigger] self.pending(id)) is None,
                Some((id, update)) => self.lowest_pending(id) && update_view(update) == dec_update(
                    self.pending(id)->0,
                ),
            },
    {
        match self.first_pending() {
            None => None,
            Some((id, payload)) => Some((id, decode_update(payload.as_slice()))),
        }
    }

    /// Takes the update with the lowest id from the queue and applies it.
    /// `indexed` is what indexing made of the documents of that update, or why
    /// it failed; it counts only where the update is a documents addition.
    /// The status is recorded by `complete`; until then the update is in
    /// transaction. `None`, and nothing changes, where the queue is empty or
    /// an update is in transaction already.
    pub fn apply_next(&mut self, indexed: Result<Indexed, String>) -> (r: Option<u64>)
        requires
            old(self).inv(),
        ensures
            final(self).inv(),
            match r {
                None => {
                    &&& old(self).in_transaction() is Some || forall|id: u64|
                        (#[trigger] old(self).pending(id)) is None
                    &&& unchanged(*old(self), *final(self))
                },
                Some(id) => {
                    &&& old(self).lowest_pending(id)
                    &&& taken(*old(self), *final(self), id)
                    &&& applied(
                        *old(self),
                        *final(self),
                        dec_update(old(self).pending(id)->0),
                        indexed_view(indexed),
                    )
                },
            },
    {
        if self.in_flight.is_some() {
            return None;
        }
        let (id, update) = match self.first_pending() {
            None => {
                return None;
            },
            Some((id, payload)) => (id, decode_update(payload.as_slice())),
        };
        let key = update_key(id);
        proof {
            self.lemma_queue(id);
        }
        let _ = self.updates_index.remove(key.as_slice());
        let (update_type, result): (UpdateType, Result<(), String>) = match update {
            None => (UpdateType::Malformed { number: 0 }, Err("malformed update".to_owned())),
            Some(Update::DocumentsAddition(documents)) => {
                let update_type = UpdateType::DocumentsAddition { number: documents.len() };
                match indexed {
                    Ok(batch) => {
                        apply_documents_addition(
                            &mut self.words_index,
                            &mut self.documents_index,
                            &mut self.cache.ranked_map,
                            batch,
                        );
                        self.cache.words = build_dictionary(self.words_index.term_list());
                        (update_type, Ok(()))
                    },
                    Err(message) => (update_type, Err(message)),
                }
            },
            Some(Update::DocumentsDeletion(ids)) => {
                let update_type = UpdateType::DocumentsDeletion { number: ids.len() };
                apply_documents_deletion(
                    &mut self.words_index,
                    &mut self.documents_index,
                    &mut self.cache.ranked_map,
                    &ids,
                );
                self.cache.words = build_dictionary(self.words_index.term_list());
                (update_type, Ok(()))
            },
            Some(Update::SynonymsAddition(entries)) => {
                proof {
                    assert(sources(additions_view(entries@)) =~= named_sources(entries@));
                }
                let update_type = UpdateType::SynonymsAddition { number: count_sources(&entries) };
                apply_synonyms_addition(&mut self.synonyms_index, &entries);
                self.cache.synonyms = build_dictionary(self.synonyms_index.source_list());
                (update_type, Ok(()))
            },
            Some(Update::SynonymsDeletion(entries)) => {
                proof {
                    assert(sources(removals_view(entries@)) =~= named_sources(entries@));
                }
                let update_type = UpdateType::SynonymsDeletion { number: count_sources(&entries) };
                apply_synonyms_deletion(&mut self.synonyms_index, &entries);
                self.cache.synonyms = build_dictionary(self.synonyms_index.source_list());
                (update_type, Ok(()))
            },
        };
        self.in_flight = Some(InFlight { update_id: id, update_type, result });
        proof {
            assert forall|i: u64| #[trigger]
                self.pending(i) == if i == id {
                    None
                } else {
                    old(self).pending(i)
                } by {
                lemma_update_key_order(i, id);
            }
        }
        Some(id)
    }

    /// Records the status of the update that is in transaction, with the time
    /// the applier took, and ends the transaction. `None`, and nothing
    /// changes, where no update is in transaction.
    pub fn complete(&mut self, duration: DetailedDuration) -> (r: Option<UpdateStatus>)
        requires
            old(self).inv(),
        ensures
            final(self).inv(),
            match r {
                None => old(self).in_transaction() is None && unchanged(*old(self), *final(self)),
                Some(status) => {
                    &&& completed(*old(self), *final(self), status@)
                    &&& status@.detailed_duration == duration
                    &&& dec_status(enc_status(status@)) == Some(status@)
                },
            },
    {
        let flight = match self.in_flight.take() {
            None => {
                return None;
            },
            Some(flight) => flight,
        };
        let status = UpdateStatus {
            update_id: flight.update_id,
            update_type: flight.update_type,
            result: flight.result,
            detailed_duration: duration,
        };
        let key = update_key(status.update_id);
        let value = encode_status(&status);
        let _ = self.updates_results_index.insert(key, value);
        proof {
            let id = status.update_id;
            assert(self.handed_out(update_key_spec(id)));
            assert forall|k: Seq<u8>| #[trigger]
                self.updates_results_index@.contains_key(k) implies self.handed_out(k) by {
                if k != update_key_spec(id) {
                    assert(old(self).updates_results_index@.contains_key(k));
                }
            }
            assert forall|i: u64| #[trigger]
                self.recorded(i) == if i == id {
                    Some(enc_status(status@))
                } else {
                    old(self).recorded(i)
                } by {
                lemma_update_key_order(i, id);
            }
        }
        Some(status)
    }

    /// The raw fields of document `id`, by attribute, in the order of the
    /// attributes asked for. Where `fields` names attributes, those that the
    /// schema has are asked for, each once and in the order of the names; a
    /// name that the schema lacks is passed over. Without `fields` every
    /// attribute of the schema is asked for. An attribute without a kept
    /// field is passed over.
    pub fn document(&self, fields: Option<&Vec<String>>, id: u64) -> (r: Vec<(u16, Vec<u8>)>)
        requires
            self.inv(),
        ensures
            raw_fields_view(r@) == collect_fields(
                self.documents_index(),
                id,
                selected_attributes(self.schema_view(), names_view(fields)),
            ),
    {
        let candidates = match fields {
            Some(names) => resolve_fields(&self.cache.schema, names),
            None => all_attributes(&self.cache.schema),
        };
        let ghost cs = candidates@;
        let mut out: Vec<(u16, Vec<u8>)> = Vec::new();
        let mut i: usize = 0;
        proof {
            assert(raw_fields_view(out@) =~= Seq::<(u16, Seq<u8>)>::empty());
        }
        while i < candidates.len()
            invariant
                i <= candidates@.len(),
                cs == candidates@,
                self.documents_index.wf(),
                raw_fields_view(out@) == collect_fields(
                    self.documents_index,
                    id,
                    cs.subrange(0, i as int),
                ),
            decreases candidates@.len() - i,
        {
            let attr = candidates[i];
            let ghost before = raw_fields_view(out@);
            match self.documents_index.get_field(id, attr) {
                Some(bytes) => {
                    out.push((attr, slice_to_vec(bytes.as_slice())));
                    proof {
                        assert(raw_fields_view(out@) =~= before.push((attr, bytes@)));
                    }
                },
                None => {},
            }
            proof {
                let a = cs.subrange(0, i as int);
                let b = cs.subrange(0, i + 1);
                assert(b.drop_last() =~= a);
                assert(b.last() == attr);
            }
            i = i + 1;
        }
        proof {
            assert(cs.subrange(0, i as int) =~= cs);
        }
        out
    }

    /// The custom settings of the index.
    pub fn custom_settings(&self) -> (c: &CustomSettingsIndex)
        requires
            self.inv(),
        ensures
            *c == self.custom_settings_index(),
            c.wf(),
    {
        &self.custom_settings_index
    }

    /// Keeps `value` under `key` among the custom settings.
    pub fn set_custom_setting(&mut self, key: Vec<u8>, value: Vec<u8>)
        requires
            old(self).inv(),
        ensures
            final(self).inv(),
            final(self).custom_settings_index()@ == old(self).custom_settings_index()@.insert(
                key@,
                value@,
            ),
            same_queue(*old(self), *final(self)),
            final(self).words_index() == old(self).words_index(),
            final(self).documents_index() == old(self).documents_index(),
            final(self).synonyms_index() == old(self).synonyms_index(),
            final(self).ranked_map() == old(self).ranked_map(),
            final(self).schema_view() == old(self).schema_view(),
    {
        self.custom_settings_index.set(key, value);
    }

    /// Forgets what is kept under `key` among the custom settings.
    pub fn del_custom_setting(&mut self, key: &[u8])
        requires
            old(self).inv(),
        ensures
            final(self).inv(),
            final(self).custom_settings_index()@ == old(self).custom_settings_index()@.remove(
                key@,
            ),
            same_queue(*old(self), *final(self)),
            final(self).words_index() == old(self).words_index(),
            final(self).documents_index() == old(self).documents_index(),
            final(self).synonyms_index() == old(self).synonyms_index(),
            final(self).ranked_map() == old(self).ranked_map(),
            final(self).schema_view() == old(self).schema_view(),
    {
        self.custom_settings_index.del(key);
    }

    /// A view of the index for a reader.
    pub fn as_ref(&self) -> (r: RefIndex<'_>)
        requires
            self.inv(),
        ensures
            *r.index() == *self,
    {
        RefIndex { index: self }
    }
}

/// What a reader sees of an index: the dictionaries of the snapshot, and the
/// postings and alternatives behind them.
pub struct RefIndex<'a> {
    index: &'a Index,
}

impl<'a> RefIndex<'a> {
    /// The index that is read.
    pub closed spec fn index(&self) -> &Index {
        self.index
    }

    /// The dictionary of the terms that have postings.
    pub fn words(&self) -> (set: &fst::Set)
        requires
            self.index().inv(),
        ensures
            fst_terms(*set) == self.index().cached_words(),
            fst_terms(*set) == self.index().words_index().terms(),
    {
        &self.index.cache.words
    }

    /// Whether `word` has postings, by the dictionary.
    pub fn has_word(&self, word: &[u8]) -> (b: bool)
        requires
            self.index().inv(),
        ensures
            b == self.index().cached_words().contains(word@),
            b == self.index().words_index().terms().contains(word@),
    {
        fst_contains(&self.index.cache.words, word)
    }

    /// The occurrences of `word`, in increasing order: `None` where it has no
    /// posting.
    pub fn word_indexes(&self, word: &[u8]) -> (r: Option<Vec<DocIndex>>)
        requires
            self.index().inv(),
        ensures
            r is Some <==> self.index().cached_words().contains(word@),
            r is None ==> self.index().words_index().postings(word@) == Set::<DocIndex>::empty(),
            r is Some ==> {
                &&& r->0@.len() > 0
                &&& r->0@.to_set() == self.index().words_index().postings(word@)
                &&& strictly_increasing(doc_index_keys(r->0@))
            },
    {
        self.index.words_index.doc_indexes(word)
    }

    /// The dictionary of the sources that have alternatives.
    pub fn synonyms(&self) -> (set: &fst::Set)
        requires
            self.index().inv(),
        ensures
            fst_terms(*set) == self.index().cached_synonyms(),
            fst_terms(*set) == self.index().synonyms_index().sources(),
    {
        &self.index.cache.synonyms
    }

    /// The postings of the terms and the words of the documents.
    pub fn words_index(&self) -> (w: &WordsIndex)
        requires
            self.index().inv(),
        ensures
            *w == self.index().words_index(),
            w.wf(),
    {
        &self.index.words_index
    }

    /// The fields of the documents.
    pub fn documents_index(&self) -> (d: &DocumentsIndex)
        requires
            self.index().inv(),
        ensures
            *d == self.index().documents_index(),
            d.wf(),
    {
        &self.index.documents_index
    }

    /// The synonyms.
    pub fn synonyms_index(&self) -> (s: &SynonymsIndex)
        requires
            self.index().inv(),
        ensures
            *s == self.index().synonyms_index(),
            s.wf(),
    {
        &self.index.synonyms_index
    }

    /// The custom settings.
    pub fn custom_settings_index(&self) -> (c: &CustomSettingsIndex)
        requires
            self.index().inv(),
        ensures
            *c == self.index().custom_settings_index(),
            c.wf(),
    {
        &self.index.custom_settings_index
    }

    /// The ranked map.
    pub fn ranked_map(&self) -> (m: &RankedMap)
        requires
            self.index().inv(),
        ensures
            *m == self.index().ranked_map(),
            m.wf(),
    {
        &self.index.cache.ranked_map
    }

    /// The dictionary of the alternatives of `word`: `None` where it has none.
    pub fn alternatives_to(&self, word: &[u8]) -> (r: Option<fst::Set>)
        requires
            self.index().inv(),
        ensures
            r is Some <==> self.index().cached_synonyms().contains(word@),
            r is None ==> self.index().synonyms_index().alternatives(word@) == Set::<
                Seq<u8>,
            >::empty(),
            r is Some ==> {
                &&& fst_terms(r->0).len() > 0
                &&& strictly_increasing(fst_terms(r->0))
                &&& fst_terms(r->0).to_set() == self.index().synonyms_index().alternatives(word@)
            },
    {
        match self.index.synonyms_index.alternatives_to(word) {
            None => None,
            Some(list) => Some(build_dictionary(list)),
        }
    }
}

/// What an update holds, if it is one.
pub open spec fn update_view(update: Option<Update>) -> Option<UpdateView> {
    match update {
        Some(u) => Some(u@),
        None => None,
    }
}

/// What indexing handed over: the batch, or the message of its failure.
pub open spec fn indexed_view(indexed: Result<Indexed, String>) -> Result<IndexedView, Seq<char>> {
    match indexed {
        Ok(batch) => Ok(batch@),
        Err(message) => Err(message@),
    }
}

/// The names that a caller asks for.
pub open spec fn names_view(names: Option<&Vec<String>>) -> Option<Seq<Seq<char>>> {
    match names {
        Some(l) => Some(Seq::new(l@.len(), |i: int| l@[i]@)),
        None => None,
    }
}

/// The attributes and bytes that a list of raw fields holds.
pub open spec fn raw_fields_view(l: Seq<(u16, Vec<u8>)>) -> Seq<(u16, Seq<u8>)> {
    Seq::new(l.len(), |i: int| (l[i].0, l[i].1@))
}

/// The attributes of the names that the schema has, each once, in the order
/// in which the names first ask for them.
pub open spec fn named_attributes(schema: SchemaView, names: Seq<Seq<char>>) -> Seq<u16>
    decreases names.len(),
{
    if names.len() == 0 {
        Seq::empty()
    } else {
        let init = named_attributes(schema, names.drop_last());
        match schema.attribute(names.last()) {
            Some(attr) => if init.contains(attr) {
                init
            } else {
                init.push(attr)
            },
            None => init,
        }
    }
}

/// The attributes of the names are the attributes that the schema has for
/// one of the names, and no other; and each comes once.
pub proof fn lemma_named_attributes(schema: SchemaView, names: Seq<Seq<char>>)
    ensures
        named_attributes(schema, names).no_duplicates(),
        forall|attr: u16|
            #![trigger named_attributes(schema, names).contains(attr)]
            named_attributes(schema, names).contains(attr) <==> exists|i: int|
                0 <= i < names.len() && schema.attribute(#[trigger] names[i]) == Some(attr),
    decreases names.len(),
{
    let all = named_attributes(schema, names);
    if names.len() == 0 {
        assert forall|attr: u16|
            #![trigger all.contains(attr)]
            all.contains(attr) <==> exists|i: int|
                0 <= i < names.len() && schema.attribute(#[trigger] names[i]) == Some(attr) by {}
    } else {
        let front = names.drop_last();
        let init = named_attributes(schema, front);
        lemma_named_attributes(schema, front);
        assert forall|attr: u16|
            #![trigger all.contains(attr)]
            all.contains(attr) <==> exists|i: int|
                0 <= i < names.len() && schema.attribute(#[trigger] names[i]) == Some(attr) by {
            if init.contains(attr) {
                let i = choose|i: int|
                    0 <= i < front.len() && schema.attribute(#[trigger] front[i]) == Some(attr);
                assert(names[i] == front[i]);
                let k = choose|k: int| 0 <= k < init.len() && init[k] == attr;
                assert(all[k] == attr);
            }
            if all.contains(attr) && !init.contains(attr) {
                let k = choose|k: int| 0 <= k < all.len() && all[k] == attr;
                if k < init.len() {
                    assert(init[k] == attr);
                }
                assert(schema.attribute(names[names.len() - 1]) == Some(attr));
            }
            if exists|i: int|
                0 <= i < names.len() && schema.attribute(#[trigger] names[i]) == Some(attr) {
                let i = choose|i: int|
                    0 <= i < names.len() && schema.attribute(#[trigger] names[i]) == Some(attr);
                if i < front.len() {
                    assert(front[i] == names[i]);
                    assert(init.contains(attr));
                } else {
                    if !init.contains(attr) {
                        assert(all[all.len() - 1] == attr);
                    }
                }
            }
        }
    }
}

/// The attributes that a reader asks for: those of the names, where names
/// are given; else every attribute of the schema.
pub open spec fn selected_attributes(schema: SchemaView, names: Option<Seq<Seq<char>>>) -> Seq<
    u16,
> {
    match names {
        Some(l) => named_attributes(schema, l),
        None => Seq::new(schema.limit() as nat, |i: int| i as u16),
    }
}

/// The fields of document `id` that are kept, among `attrs` and in their
/// order.
pub open spec fn collect_fields(documents: DocumentsIndex, id: u64, attrs: Seq<u16>) -> Seq<
    (u16, Seq<u8>),
>
    decreases attrs.len(),
{
    if attrs.len() == 0 {
        Seq::empty()
    } else {
        let init = collect_fields(documents, id, attrs.drop_last());
        match documents.field(id, attrs.last()) {
            Some(bytes) => init.push((attrs.last(), bytes)),
            None => init,
        }
    }
}

/// The ids of the attributes called `names`, each once and in the order in
/// which the names first ask for them; a name that the schema lacks is
/// passed over.
pub fn resolve_fields(schema: &Schema, names: &Vec<String>) -> (r: Vec<u16>)
    ensures
        r@ == named_attributes(schema@, names_view(Some(names))->0),
{
    let ghost nv = names_view(Some(names))->0;
    let mut out: Vec<u16> = Vec::new();
    let mut i: usize = 0;
    while i < names.len()
        invariant
            i <= names@.len(),
            nv == names_view(Some(names))->0,
            out@ == named_attributes(schema@, nv.subrange(0, i as int)),
        decreases names@.len() - i,
    {
        proof {
            let a = nv.subrange(0, i as int);
            let b = nv.subrange(0, i + 1);
            assert(b.drop_last() =~= a);
            assert(b.last() == names@[i as int]@);
        }
        match schema.attribute(&names[i]) {
            Some(attr) => {
                if !has_attribute(&out, attr) {
                    out.push(attr);
                }
            },
            None => {},
        }
        i = i + 1;
    }
    proof {
        assert(nv.subrange(0, i as int) =~= nv);
    }
    out
}

/// Whether `attr` is among `attrs`.
fn has_attribute(attrs: &Vec<u16>, attr: u16) -> (b: bool)
    ensures
        b == attrs@.contains(attr),
{
    let mut i: usize = 0;
    while i < attrs.len()
        invariant
            i <= attrs@.len(),
            forall|j: int| 0 <= j < i ==> attrs@[j] != attr,
        decreases attrs@.len() - i,
    {
        if attrs[i] == attr {
            return true;
        }
        i = i + 1;
    }
    false
}

/// Every attribute of the schema, in the order of the ids.
pub fn all_attributes(schema: &Schema) -> (r: Vec<u16>)
    ensures
        r@ == Seq::new(schema@.limit() as nat, |i: int| i as u16),
{
    let n = schema.len();
    let mut out: Vec<u16> = Vec::new();
    let mut i: usize = 0;
    while i < n && i < 0x1_0000
        invariant
            n == schema@.attributes.len(),
            i <= schema@.limit(),
            out@.len() == i,
            forall|j: int| 0 <= j < i ==> (#[trigger] out@[j]) == j as u16,
        decreases schema@.limit() - i,
    {
        out.push(i as u16);
        i = i + 1;
    }
    proof {
        assert(out@ =~= Seq::new(schema@.limit() as nat, |i: int| i as u16));
    }
    out
}

/// The queue, the results and the next id of `post` are those of `pre`.
pub open spec fn same_queue(pre: Index, post: Index) -> bool {
    &&& post.next_id() == pre.next_id()
    &&& post.in_transaction() == pre.in_transaction()
    &&& post.outcome() == pre.outcome()
    &&& forall|i: u64| #[trigger] post.pending(i) == pre.pending(i)
    &&& forall|i: u64| #[trigger] post.recorded(i) == pre.recorded(i)
}

/// Nothing of `pre` has changed in `post`.
pub open spec fn unchanged(pre: Index, post: Index) -> bool {
    post.same_data(&pre) && same_queue(pre, post)
}

/// What taking update `id` from the queue makes of it: the update is queued
/// no more and is in transaction; every other update stays; the results, the
/// next id, the schema and the custom settings stay.
pub open spec fn taken(pre: Index, post: Index, id: u64) -> bool {
    &&& pre.in_transaction() is None
    &&& post.in_transaction() == Some(id)
    &&& post.next_id() == pre.next_id()
    &&& forall|i: u64| #[trigger]
        post.pending(i) == if i == id {
            None
        } else {
            pre.pending(i)
        }
    &&& forall|i: u64| #[trigger] post.recorded(i) == pre.recorded(i)
    &&& post.schema_view() == pre.schema_view()
    &&& post.custom_settings_index() == pre.custom_settings_index()
}

/// The message of the status of a payload that is no update.
pub open spec fn malformed_message() -> Seq<char> {
    "malformed update"@
}

/// What applying `update` makes of the trees, and the outcome it leaves for
/// the status. A payload that is no update fails and changes nothing; so does
/// a documents addition whose indexing failed, with the message of that
/// failure. Every other update succeeds and does what its applier does.
pub open spec fn applied(
    pre: Index,
    post: Index,
    update: Option<UpdateView>,
    indexed: Result<IndexedView, Seq<char>>,
) -> bool {
    let same_words = post.words_index() == pre.words_index() && post.documents_index()
        == pre.documents_index() && post.ranked_map() == pre.ranked_map() && post.cached_words()
        == pre.cached_words();
    let same_synonyms = post.synonyms_index() == pre.synonyms_index() && post.cached_synonyms()
        == pre.cached_synonyms();
    match update {
        None => {
            &&& post.outcome() == Some(
                (UpdateType::Malformed { number: 0 }, Err::<(), Seq<char>>(malformed_message())),
            )
            &&& same_words
            &&& same_synonyms
        },
        Some(UpdateView::DocumentsAddition(documents)) => {
            &&& same_synonyms
            &&& match indexed {
                Ok(batch) => {
                    &&& post.outcome() == Some(
                        (
                            UpdateType::DocumentsAddition { number: documents.len() as usize },
                            Ok::<(), Seq<char>>(()),
                        ),
                    )
                    &&& documents_added(
                        pre.words_index(),
                        pre.documents_index(),
                        pre.ranked_map(),
                        post.words_index(),
                        post.documents_index(),
                        post.ranked_map(),
                        batch,
                    )
                },
                Err(message) => {
                    &&& post.outcome() == Some(
                        (
                            UpdateType::DocumentsAddition { number: documents.len() as usize },
                            Err::<(), Seq<char>>(message),
                        ),
                    )
                    &&& same_words
                },
            }
        },
        Some(UpdateView::DocumentsDeletion(ids)) => {
            &&& same_synonyms
            &&& post.outcome() == Some(
                (
                    UpdateType::DocumentsDeletion { number: ids.len() as usize },
                    Ok::<(), Seq<char>>(()),
                ),
            )
            &&& documents_deleted(
                pre.words_index(),
                pre.documents_index(),
                pre.ranked_map(),
                post.words_index(),
                post.documents_index(),
                post.ranked_map(),
                ids,
            )
        },
        Some(UpdateView::SynonymsAddition(entries)) => {
            &&& same_words
            &&& post.outcome() == Some(
                (
                    UpdateType::SynonymsAddition { number: number_of_sources(entries) as usize },
                    Ok::<(), Seq<char>>(()),
                ),
            )
            &&& synonyms_added(pre.synonyms_index(), post.synonyms_index(), entries)
        },
        Some(UpdateView::SynonymsDeletion(entries)) => {
            &&& same_words
            &&& post.outcome() == Some(
                (
                    UpdateType::SynonymsDeletion { number: number_of_sources(entries) as usize },
                    Ok::<(), Seq<char>>(()),
                ),
            )
            &&& synonyms_deleted(pre.synonyms_index(), post.synonyms_index(), entries)
        },
    }
}

/// What recording `status` makes of an index: the status is that of the
/// update in transaction, with its kind and outcome; its encoding is recorded
/// under the id; the transaction is over; nothing else changes.
pub open spec fn completed(pre: Index, post: Index, status: UpdateStatusView) -> bool {
    &&& pre.in_transaction() == Some(status.update_id)
    &&& pre.outcome() == Some((status.update_type, status.result))
    &&& post.in_transaction() is None
    &&& post.next_id() == pre.next_id()
    &&& post.same_data(&pre)
    &&& forall|i: u64| #[trigger] post.pending(i) == pre.pending(i)
    &&& forall|i: u64| #[trigger]
        post.recorded(i) == if i == status.update_id {
            Some(enc_status(status))
        } else {
            pre.recorded(i)
        }
}

/// Applying an update moves its id from the queue to the results, and moves
/// no other: once the status is recorded the id is queued no more and has a
/// result, which decodes to the status; every other id is where it was; and
/// no id is both queued and recorded.
pub proof fn lemma_apply_moves(pre: Index, mid: Index, post: Index, id: u64, status: UpdateStatusView)
    requires
        pre.inv(),
        post.inv(),
        taken(pre, mid, id),
        completed(mid, post, status),
        crate::status::status_encodable(status),
    ensures
        status.update_id == id,
        post.pending(id) is None,
        post.recorded(id) is Some,
        dec_status(post.recorded(id)->0) == Some(status),
        forall|other: u64|
            other != id ==> #[trigger] post.pending(other) == pre.pending(other)
                && #[trigger] post.recorded(other) == pre.recorded(other),
        forall|any: u64| !(#[trigger] post.pending(any) is Some && post.recorded(any) is Some),
{
    crate::status::lemma_status_round_trip(status);
    assert forall|any: u64| !(#[trigger] post.pending(any) is Some && post.recorded(any) is Some) by {
        post.lemma_queue(any);
    }
}

/// What enqueueing `payload` makes of an index: the update is queued under
/// the id that was next, the next id is one more, and nothing else changes.
/// Where no id is left nothing changes at all.
pub open spec fn enqueued(pre: Index, post: Index, payload: Seq<u8>, r: Result<u64, IndexError>) -> bool {
    &&& post.same_data(&pre)
    &&& post.in_transaction() == pre.in_transaction()
    &&& post.outcome() == pre.outcome()
    &&& forall|i: u64| #[trigger] post.recorded(i) == pre.recorded(i)
    &&& match r {
        Ok(id) => {
            &&& id == pre.next_id()
            &&& post.next_id() == id + 1
            &&& forall|i: u64| #[trigger]
                post.pending(i) == if i == id {
                    Some(payload)
                } else {
                    pre.pending(i)
                }
        },
        Err(e) => {
            &&& e == IndexError::StorageFailure
            &&& pre.next_id() == u64::MAX
            &&& post.next_id() == pre.next_id()
            &&& forall|i: u64| #[trigger] post.pending(i) == pre.pending(i)
        },
    }
}

/// Two updates that are enqueued one after the other get strictly increasing
/// ids.
pub proof fn lemma_successive_ids(
    a: Index,
    b: Index,
    c: Index,
    first: Seq<u8>,
    second: Seq<u8>,
    id1: u64,
    id2: u64,
)
    requires
        enqueued(a, b, first, Ok(id1)),
        enqueued(b, c, second, Ok(id2)),
    ensures
        id1 < id2,
{
}

/// An update gets an id above that of every update that was enqueued before
/// it, whatever was done to the index in between: no operation takes the
/// next id back.
pub proof fn lemma_later_ids(
    a: Index,
    b: Index,
    c: Index,
    d: Index,
    first: Seq<u8>,
    second: Seq<u8>,
    id1: u64,
    id2: u64,
)
    requires
        enqueued(a, b, first, Ok(id1)),
        b.next_id() <= c.next_id(),
        enqueued(c, d, second, Ok(id2)),
    ensures
        id1 < id2,
{
}

/// What opening makes of what was stored: the schema is settled as
/// `resolve_schema` says, and the index holds what was stored. Of two entries
/// for one key the later counts; an update whose result is recorded is not
/// queued again; and the next id is the least above every stored id.
pub open spec fn opened(stored: Stored, expected: Option<Schema>, r: Result<Index, IndexError>) -> bool {
    match r {
        Ok(index) => {
            &&& index.inv()
            &&& index.in_transaction() is None
            &&& match (expected, stored.schema) {
                (Some(e), Some(c)) => e@ == c@ && index.schema_view() == e@,
                (Some(e), None) => index.schema_view() == e@,
                (None, Some(c)) => index.schema_view() == c@,
                (None, None) => false,
            }
            &&& forall|t: Seq<u8>| #[trigger]
                index.words_index().postings(t) == added_postings(stored.indexed@.occurrences, t)
            &&& forall|id: u64| #[trigger]
                index.words_index().doc_words(id) == added_words(stored.indexed@.occurrences, id)
            &&& forall|id: u64, attr: u16| #[trigger]
                index.documents_index().field(id, attr) == last_field(
                    stored.indexed@.fields,
                    id,
                    attr,
                )
            &&& forall|id: u64, attr: u16| #[trigger]
                index.ranked_map().rank(id, attr) == last_rank(stored.indexed@.ranked, id, attr)
            &&& forall|s: Seq<u8>| #[trigger]
                index.synonyms_index().alternatives(s) == added_alternatives(
                    additions_view(stored.synonyms@),
                    s,
                )
            &&& forall|k: Seq<u8>|
                lookup(index.custom_settings_index()@, k) == #[trigger] last_setting(
                    settings_view(stored.custom@),
                    k,
                )
            &&& forall|id: u64| #[trigger]
                index.recorded(id) == if id < u64::MAX {
                    last_entry(entries_view(stored.results@), id)
                } else {
                    None
                }
            &&& forall|id: u64| #[trigger]
                index.pending(id) == if id < u64::MAX && index.recorded(id) is None {
                    last_entry(entries_view(stored.updates@), id)
                } else {
                    None
                }
            &&& least_above(
                index.next_id(),
                entries_view(stored.results@),
                entries_view(stored.updates@),
            )
        },
        Err(e) => match (expected, stored.schema) {
            (Some(e2), Some(c)) => e2@ != c@ && e == IndexError::SchemaDiffer,
            (None, None) => e == IndexError::SchemaMissing,
            _ => false,
        },
    }
}

/// Once an update is applied, the dictionaries that a reader gets hold what
/// the update added and lack what it removed: after a documents addition
/// every term of the batch is in the dictionary of terms, with every term
/// that was there; after a documents deletion a term is in it exactly where
/// an occurrence outside the deleted documents is left; after a synonyms
/// addition or deletion a source is in the dictionary of sources exactly
/// where it has an alternative left.
pub proof fn lemma_snapshot_fresh(
    pre: Index,
    post: Index,
    update: UpdateView,
    batch: IndexedView,
    key: Seq<u8>,
)
    requires
        pre.inv(),
        post.inv(),
        applied(pre, post, Some(update), Ok(batch)),
    ensures
        match update {
            UpdateView::DocumentsAddition(_) => {
                &&& pre.cached_words().contains(key) ==> post.cached_words().contains(key)
                &&& (exists|di: DocIndex| batch.occurrences.contains((key, di)))
                    ==> post.cached_words().contains(key)
                &&& post.cached_words().contains(key) ==> pre.cached_words().contains(key) || (
                exists|di: DocIndex| batch.occurrences.contains((key, di)))
            },
            UpdateView::DocumentsDeletion(ids) => post.cached_words().contains(key) <==> exists|
                di: DocIndex,
            | #[trigger]
                pre.words_index().postings(key).contains(di) && !ids.contains(di.document_id),
            UpdateView::SynonymsAddition(entries) => post.cached_synonyms().contains(key) <==> (
            pre.cached_synonyms().contains(key) || exists|alt: Seq<u8>| #[trigger]
                added_alternatives(entries, key).contains(alt)),
            UpdateView::SynonymsDeletion(entries) => post.cached_synonyms().contains(key) <==> exists|
                alt: Seq<u8>,
            | #[trigger]
                pre.synonyms_index().alternatives(key).contains(alt) && !crate::apply::removes_alternative(
                    entries,
                    key,
                    alt,
                ),
        },
{
    pre.lemma_dictionary_consistency(key);
    post.lemma_dictionary_consistency(key);
    let pw = pre.words_index().postings(key);
    let qw = post.words_index().postings(key);
    let ps = pre.synonyms_index().alternatives(key);
    let qs = post.synonyms_index().alternatives(key);
    match update {
        UpdateView::DocumentsAddition(_) => {
            let added = added_postings(batch.occurrences, key);
            assert(qw == pw + added);
            if exists|di: DocIndex| #[trigger] pw.contains(di) {
                let di = choose|di: DocIndex| #[trigger] pw.contains(di);
                assert(qw.contains(di));
            }
            if exists|di: DocIndex| batch.occurrences.contains((key, di)) {
                let di = choose|di: DocIndex| batch.occurrences.contains((key, di));
                assert(added.contains(di));
                assert(qw.contains(di));
            }
            if exists|di: DocIndex| #[trigger] qw.contains(di) {
                let di = choose|di: DocIndex| #[trigger] qw.contains(di);
                if !pw.contains(di) {
                    assert(added.contains(di));
                }
            }
        },
        UpdateView::DocumentsDeletion(ids) => {
            if exists|di: DocIndex| #[trigger] qw.contains(di) {
                let di = choose|di: DocIndex| #[trigger] qw.contains(di);
                assert(pw.contains(di) && !ids.contains(di.document_id));
            }
            if exists|di: DocIndex| #[trigger] pw.contains(di) && !ids.contains(di.document_id) {
                let di = choose|di: DocIndex| #[trigger]
                    pw.contains(di) && !ids.contains(di.document_id);
                assert(qw.contains(di));
            }
        },
        UpdateView::SynonymsAddition(entries) => {
            let added = added_alternatives(entries, key);
            assert(qs == ps + added);
            if exists|alt: Seq<u8>| #[trigger] ps.contains(alt) {
                let alt = choose|alt: Seq<u8>| #[trigger] ps.contains(alt);
                assert(qs.contains(alt));
            }
            if exists|alt: Seq<u8>| #[trigger] added.contains(alt) {
                let alt = choose|alt: Seq<u8>| #[trigger] added.contains(alt);
                assert(qs.contains(alt));
            }
            if exists|alt: Seq<u8>| #[trigger] qs.contains(alt) {
                let alt = choose|alt: Seq<u8>| #[trigger] qs.contains(alt);
                if !ps.contains(alt) {
                    assert(added.contains(alt));
                }
            }
        },
        UpdateView::SynonymsDeletion(entries) => {
            if exists|alt: Seq<u8>| #[trigger] qs.contains(alt) {
                let alt = choose|alt: Seq<u8>| #[trigger] qs.contains(alt);
                assert(ps.contains(alt) && !crate::apply::removes_alternative(entries, key, alt));
            }
            if exists|alt: Seq<u8>| #[trigger]
                ps.contains(alt) && !crate::apply::removes_alternative(entries, key, alt) {
                let alt = choose|alt: Seq<u8>| #[trigger]
                    ps.contains(alt) && !crate::apply::removes_alternative(entries, key, alt);
                assert(qs.contains(alt));
            }
        },
    }
}

} // verus!
