//! The appliers: what each kind of update does to the trees of an index.

use vstd::prelude::*;
use vstd::slice::slice_to_vec;
use crate::bytes::byte_strings;
use crate::docindex::DocIndex;
use crate::documents::DocumentsIndex;
use crate::ranked_map::RankedMap;
use crate::synonyms::SynonymsIndex;
use crate::update::{additions_view, removals_view, removed_view, Terms};
use crate::words::WordsIndex;

verus! {

/// What indexing made of a batch of documents: each occurrence of a term,
/// each field to keep, and each number of a ranked attribute, in the order
/// in which the documents came.
pub struct Indexed {
    pub occurrences: Vec<(Vec<u8>, DocIndex)>,
    pub fields: Vec<(u64, u16, Vec<u8>)>,
    pub ranked: Vec<(u64, u16, u64)>,
}

/// What an `Indexed` holds, as mathematical values.
pub struct IndexedView {
    pub occurrences: Seq<(Seq<u8>, DocIndex)>,
    pub fields: Seq<(u64, u16, Seq<u8>)>,
    pub ranked: Seq<(u64, u16, u64)>,
}

/// The terms and occurrences that a list holds.
pub open spec fn occurrences_view(l: Seq<(Vec<u8>, DocIndex)>) -> Seq<(Seq<u8>, DocIndex)> {
    Seq::new(l.len(), |i: int| (l[i].0@, l[i].1))
}

/// The fields that a list holds.
pub open spec fn fields_view(l: Seq<(u64, u16, Vec<u8>)>) -> Seq<(u64, u16, Seq<u8>)> {
    Seq::new(l.len(), |i: int| (l[i].0, l[i].1, l[i].2@))
}

impl View for Indexed {
    type V = IndexedView;

    open spec fn view(&self) -> IndexedView {
        IndexedView {
            occurrences: occurrences_view(self.occurrences@),
            fields: fields_view(self.fields@),
            ranked: self.ranked@,
        }
    }
}

/// The occurrences of `term` among `occurrences`.
pub open spec fn added_postings(occurrences: Seq<(Seq<u8>, DocIndex)>, term: Seq<u8>) -> Set<
    DocIndex,
> {
    Set::new(|di: DocIndex| occurrences.contains((term, di)))
}

/// The terms that occur in document `id` among `occurrences`.
pub open spec fn added_words(occurrences: Seq<(Seq<u8>, DocIndex)>, id: u64) -> Set<Seq<u8>> {
    Set::new(
        |t: Seq<u8>|
            exists|j: int|
                0 <= j < occurrences.len() && (#[trigger] occurrences[j]).0 == t
                    && occurrences[j].1.document_id == id,
    )
}

/// The bytes that `fields` keeps last for attribute `attr` of document `id`.
pub open spec fn last_field(fields: Seq<(u64, u16, Seq<u8>)>, id: u64, attr: u16) -> Option<
    Seq<u8>,
>
    decreases fields.len(),
{
    if fields.len() == 0 {
        None
    } else if fields.last().0 == id && fields.last().1 == attr {
        Some(fields.last().2)
    } else {
        last_field(fields.drop_last(), id, attr)
    }
}

/// The number that `ranked` sets last for attribute `attr` of document `id`.
pub open spec fn last_rank(ranked: Seq<(u64, u16, u64)>, id: u64, attr: u16) -> Option<u64>
    decreases ranked.len(),
{
    if ranked.len() == 0 {
        None
    } else if ranked.last().0 == id && ranked.last().1 == attr {
        Some(ranked.last().2)
    } else {
        last_rank(ranked.drop_last(), id, attr)
    }
}

/// `first` where it is a value, else `second`.
pub open spec fn or_else<T>(first: Option<T>, second: Option<T>) -> Option<T> {
    match first {
        Some(_) => first,
        None => second,
    }
}

/// The replacements that `entries` add to `source`.
pub open spec fn added_alternatives(
    entries: Seq<(Seq<u8>, Seq<Seq<u8>>)>,
    source: Seq<u8>,
) -> Set<Seq<u8>> {
    Set::new(
        |alt: Seq<u8>|
            exists|i: int|
                0 <= i < entries.len() && (#[trigger] entries[i]).0 == source
                    && entries[i].1.contains(alt),
    )
}

/// `entries` take `alt` from the alternatives of `source`: one of them names
/// the source with that replacement, or with none at all.
pub open spec fn removes_alternative(
    entries: Seq<(Seq<u8>, Option<Seq<Seq<u8>>>)>,
    source: Seq<u8>,
    alt: Seq<u8>,
) -> bool {
    exists|i: int|
        0 <= i < entries.len() && (#[trigger] entries[i]).0 == source && match entries[i].1 {
            None => true,
            Some(terms) => terms.contains(alt),
        }
}

/// What a documents addition with the batch `batch` makes of the postings,
/// the fields and the ranked map.
pub open spec fn documents_added(
    words: WordsIndex,
    documents: DocumentsIndex,
    ranked_map: RankedMap,
    new_words: WordsIndex,
    new_documents: DocumentsIndex,
    new_ranked_map: RankedMap,
    batch: IndexedView,
) -> bool {
    &&& forall|t: Seq<u8>| #[trigger]
        new_words.postings(t) == words.postings(t) + added_postings(batch.occurrences, t)
    &&& forall|id: u64| #[trigger]
        new_words.doc_words(id) == words.doc_words(id) + added_words(batch.occurrences, id)
    &&& forall|id: u64, attr: u16| #[trigger]
        new_documents.field(id, attr) == or_else(
            last_field(batch.fields, id, attr),
            documents.field(id, attr),
        )
    &&& forall|id: u64, attr: u16| #[trigger]
        new_ranked_map.rank(id, attr) == or_else(
            last_rank(batch.ranked, id, attr),
            ranked_map.rank(id, attr),
        )
}

/// What a documents deletion of `ids` makes of the postings, the fields and
/// the ranked map.
pub open spec fn documents_deleted(
    words: WordsIndex,
    documents: DocumentsIndex,
    ranked_map: RankedMap,
    new_words: WordsIndex,
    new_documents: DocumentsIndex,
    new_ranked_map: RankedMap,
    ids: Seq<u64>,
) -> bool {
    &&& forall|t: Seq<u8>| #[trigger]
        new_words.postings(t) == words.postings(t).filter(
            |di: DocIndex| !ids.contains(di.document_id),
        )
    &&& forall|id: u64| #[trigger]
        new_words.doc_words(id) == if ids.contains(id) {
            Set::<Seq<u8>>::empty()
        } else {
            words.doc_words(id)
        }
    &&& forall|id: u64, attr: u16| #[trigger]
        new_documents.field(id, attr) == if ids.contains(id) {
            None
        } else {
            documents.field(id, attr)
        }
    &&& forall|id: u64|
        #![trigger new_documents.has_document(id)]
        new_documents.has_document(id) <==> !ids.contains(id) && documents.has_document(id)
    &&& forall|id: u64, attr: u16| #[trigger]
        new_ranked_map.rank(id, attr) == if ids.contains(id) {
            None
        } else {
            ranked_map.rank(id, attr)
        }
}

/// What a synonyms addition of `entries` makes of the synonyms.
pub open spec fn synonyms_added(
    synonyms: SynonymsIndex,
    new_synonyms: SynonymsIndex,
    entries: Seq<(Seq<u8>, Seq<Seq<u8>>)>,
) -> bool {
    forall|s: Seq<u8>| #[trigger]
        new_synonyms.alternatives(s) == synonyms.alternatives(s) + added_alternatives(entries, s)
}

/// What a synonyms deletion of `entries` makes of the synonyms.
pub open spec fn synonyms_deleted(
    synonyms: SynonymsIndex,
    new_synonyms: SynonymsIndex,
    entries: Seq<(Seq<u8>, Option<Seq<Seq<u8>>>)>,
) -> bool {
    forall|s: Seq<u8>| #[trigger]
        new_synonyms.alternatives(s) == synonyms.alternatives(s).filter(
            |alt: Seq<u8>| !removes_alternative(entries, s, alt),
        )
}

proof fn lemma_prefix_contains<T>(s: Seq<T>, i: int, x: T)
    requires
        0 <= i < s.len(),
    ensures
        s.subrange(0, i + 1).contains(x) <==> s.subrange(0, i).contains(x) || s[i] == x,
{
    let a = s.subrange(0, i);
    let b = s.subrange(0, i + 1);
    if b.contains(x) {
        let j = choose|j: int| 0 <= j < b.len() && b[j] == x;
        if j < i {
            assert(a[j] == x);
        }
    }
    if a.contains(x) {
        let j = choose|j: int| 0 <= j < a.len() && a[j] == x;
        assert(b[j] == x);
    }
    if s[i] == x {
        assert(b[i] == x);
    }
}

/// Adds a batch of indexed documents: every occurrence joins the postings of
/// its term and the words of its document, every field is kept, every number
/// of a ranked attribute is set.
pub fn apply_documents_addition(
    words: &mut WordsIndex,
    documents: &mut DocumentsIndex,
    ranked_map: &mut RankedMap,
    batch: Indexed,
)
    requires
        old(words).wf(),
        old(documents).wf(),
        old(ranked_map).wf(),
    ensures
        final(words).wf(),
        final(documents).wf(),
        final(ranked_map).wf(),
        documents_added(
            *old(words),
            *old(documents),
            *old(ranked_map),
            *final(words),
            *final(documents),
            *final(ranked_map),
            batch@,
        ),
{
    let Indexed { occurrences, fields, ranked } = batch;
    let ghost occ = occurrences_view(occurrences@);
    let ghost fv = fields_view(fields@);
    let mut i: usize = 0;
    proof {
        assert forall|t: Seq<u8>| #[trigger]
            words.postings(t) == old(words).postings(t) + added_postings(occ.subrange(0, 0), t) by {
            assert(old(words).postings(t) + added_postings(occ.subrange(0, 0), t) =~= old(
                words,
            ).postings(t));
        }
        assert forall|id: u64| #[trigger]
            words.doc_words(id) == old(words).doc_words(id) + added_words(
                occ.subrange(0, 0),
                id,
            ) by {
            assert(old(words).doc_words(id) + added_words(occ.subrange(0, 0), id) =~= old(
                words,
            ).doc_words(id));
        }
    }
    while i < occurrences.len()
        invariant
            i <= occurrences@.len(),
            occ == occurrences_view(occurrences@),
            words.wf(),
            forall|t: Seq<u8>| #[trigger]
                words.postings(t) == old(words).postings(t) + added_postings(
                    occ.subrange(0, i as int),
                    t,
                ),
            forall|id: u64| #[trigger]
                words.doc_words(id) == old(words).doc_words(id) + added_words(
                    occ.subrange(0, i as int),
                    id,
                ),
        decreases occurrences@.len() - i,
    {
        let ghost before = *words;
        words.add_occurrence(occurrences[i].0.as_slice(), &occurrences[i].1);
        proof {
            let cur = occ[i as int];
            let done = occ.subrange(0, i as int);
            let next = occ.subrange(0, i + 1);
            assert forall|t: Seq<u8>| #[trigger]
                words.postings(t) == old(words).postings(t) + added_postings(next, t) by {
                assert forall|di: DocIndex|
                    added_postings(next, t).contains(di) == (added_postings(done, t).contains(di)
                        || (t == cur.0 && di == cur.1)) by {
                    lemma_prefix_contains(occ, i as int, (t, di));
                }
                assert(words.postings(t) =~= old(words).postings(t) + added_postings(next, t));
            }
            assert forall|id: u64| #[trigger]
                words.doc_words(id) == old(words).doc_words(id) + added_words(next, id) by {
                assert forall|t: Seq<u8>|
                    added_words(next, id).contains(t) == (added_words(done, id).contains(t) || (
                    t == cur.0 && id == cur.1.document_id)) by {
                    if added_words(next, id).contains(t) {
                        let j = choose|j: int|
                            0 <= j < next.len() && (#[trigger] next[j]).0 == t
                                && next[j].1.document_id == id;
                        if j < i {
                            assert(done[j] == next[j]);
                        }
                    }
                    if added_words(done, id).contains(t) {
                        let j = choose|j: int|
                            0 <= j < done.len() && (#[trigger] done[j]).0 == t
                                && done[j].1.document_id == id;
                        assert(next[j] == done[j]);
                    }
                    if t == cur.0 && id == cur.1.document_id {
                        assert(next[i as int] == cur);
                    }
                }
                assert(words.doc_words(id) =~= old(words).doc_words(id) + added_words(next, id));
            }
        }
        i = i + 1;
    }
    proof {
        assert(occ.subrange(0, i as int) =~= occ);
    }
    let mut f: usize = 0;
    while f < fields.len()
        invariant
            f <= fields@.len(),
            fv == fields_view(fields@),
            documents.wf(),
            forall|id: u64, attr: u16| #[trigger]
                documents.field(id, attr) == or_else(
                    last_field(fv.subrange(0, f as int), id, attr),
                    old(documents).field(id, attr),
                ),
        decreases fields@.len() - f,
    {
        documents.set_field(fields[f].0, fields[f].1, slice_to_vec(fields[f].2.as_slice()));
        proof {
            let a = fv.subrange(0, f as int);
            let b = fv.subrange(0, f + 1);
            assert(b.drop_last() =~= a);
            assert(b.last() == fv[f as int]);
        }
        f = f + 1;
    }
    proof {
        assert(fv.subrange(0, f as int) =~= fv);
    }
    let mut r: usize = 0;
    while r < ranked.len()
        invariant
            r <= ranked@.len(),
            ranked_map.wf(),
            forall|id: u64, attr: u16| #[trigger]
                ranked_map.rank(id, attr) == or_else(
                    last_rank(ranked@.subrange(0, r as int), id, attr),
                    old(ranked_map).rank(id, attr),
                ),
        decreases ranked@.len() - r,
    {
        ranked_map.insert(ranked[r].0, ranked[r].1, ranked[r].2);
        proof {
            let a = ranked@.subrange(0, r as int);
            let b = ranked@.subrange(0, r + 1);
            assert(b.drop_last() =~= a);
            assert(b.last() == ranked@[r as int]);
        }
        r = r + 1;
    }
    proof {
        assert(ranked@.subrange(0, r as int) =~= ranked@);
    }
}

/// Removes documents: each leaves the postings of every term, and its words,
/// its fields and the numbers of its ranked attributes are dropped.
pub fn apply_documents_deletion(
    words: &mut WordsIndex,
    documents: &mut DocumentsIndex,
    ranked_map: &mut RankedMap,
    ids: &Vec<u64>,
)
    requires
        old(words).wf(),
        old(documents).wf(),
        old(ranked_map).wf(),
    ensures
        final(words).wf(),
        final(documents).wf(),
        final(ranked_map).wf(),
        documents_deleted(
            *old(words),
            *old(documents),
            *old(ranked_map),
            *final(words),
            *final(documents),
            *final(ranked_map),
            ids@,
        ),
{
    let mut i: usize = 0;
    proof {
        let none = ids@.subrange(0, 0);
        assert forall|t: Seq<u8>| #[trigger]
            words.postings(t) == old(words).postings(t).filter(
                |di: DocIndex| !none.contains(di.document_id),
            ) by {
            assert(old(words).postings(t).filter(|di: DocIndex| !none.contains(di.document_id))
                =~= old(words).postings(t));
        }
    }
    while i < ids.len()
        invariant
            i <= ids@.len(),
            words.wf(),
            documents.wf(),
            ranked_map.wf(),
            forall|t: Seq<u8>| #[trigger]
                words.postings(t) == old(words).postings(t).filter(
                    |di: DocIndex| !ids@.subrange(0, i as int).contains(di.document_id),
                ),
            forall|id: u64| #[trigger]
                words.doc_words(id) == if ids@.subrange(0, i as int).contains(id) {
                    Set::<Seq<u8>>::empty()
                } else {
                    old(words).doc_words(id)
                },
            forall|id: u64, attr: u16| #[trigger]
                documents.field(id, attr) == if ids@.subrange(0, i as int).contains(id) {
                    None
                } else {
                    old(documents).field(id, attr)
                },
            forall|id: u64|
                #![trigger documents.has_document(id)]
                documents.has_document(id) <==> !ids@.subrange(0, i as int).contains(id) && old(
                    documents,
                ).has_document(id),
            forall|id: u64, attr: u16| #[trigger]
                ranked_map.rank(id, attr) == if ids@.subrange(0, i as int).contains(id) {
                    None
                } else {
                    old(ranked_map).rank(id, attr)
                },
        decreases ids@.len() - i,
    {
        let id = ids[i];
        let ghost w0 = *words;
        let ghost d0 = *documents;
        words.remove_document(id);
        documents.del_document(id);
        ranked_map.remove_document(id);
        proof {
            let done = ids@.subrange(0, i as int);
            let next = ids@.subrange(0, i + 1);
            assert forall|x: u64| next.contains(x) == (done.contains(x) || x == id) by {
                lemma_prefix_contains(ids@, i as int, x);
            }
            assert forall|t: Seq<u8>| #[trigger]
                words.postings(t) == old(words).postings(t).filter(
                    |di: DocIndex| !next.contains(di.document_id),
                ) by {
                assert(words.postings(t) =~= old(words).postings(t).filter(
                    |di: DocIndex| !next.contains(di.document_id),
                ));
            }
            assert forall|x: u64|
                #![trigger documents.has_document(x)]
                documents.has_document(x) <==> !next.contains(x) && old(documents).has_document(
                    x,
                ) by {
                assert(d0.has_document(x) <==> !done.contains(x) && old(documents).has_document(
                    x,
                ));
            }
        }
        i = i + 1;
    }
    proof {
        assert(ids@.subrange(0, i as int) =~= ids@);
    }
}

/// Adds synonyms: the replacements of each entry join the alternatives of its
/// source.
pub fn apply_synonyms_addition(synonyms: &mut SynonymsIndex, entries: &Vec<(Vec<u8>, Terms)>)
    requires
        old(synonyms).wf(),
    ensures
        final(synonyms).wf(),
        synonyms_added(*old(synonyms), *final(synonyms), additions_view(entries@)),
{
    let ghost ev = additions_view(entries@);
    let mut i: usize = 0;
    proof {
        assert forall|s: Seq<u8>| #[trigger]
            synonyms.alternatives(s) == old(synonyms).alternatives(s) + added_alternatives(
                ev.subrange(0, 0),
                s,
            ) by {
            assert(old(synonyms).alternatives(s) + added_alternatives(ev.subrange(0, 0), s)
                =~= old(synonyms).alternatives(s));
        }
    }
    while i < entries.len()
        invariant
            i <= entries@.len(),
            ev == additions_view(entries@),
            synonyms.wf(),
            forall|s: Seq<u8>| #[trigger]
                synonyms.alternatives(s) == old(synonyms).alternatives(s) + added_alternatives(
                    ev.subrange(0, i as int),
                    s,
                ),
        decreases entries@.len() - i,
    {
        let source = &entries[i].0;
        let alts = &entries[i].1;
        let ghost av = byte_strings(alts@);
        let ghost start = *synonyms;
        let mut j: usize = 0;
        proof {
            assert forall|s: Seq<u8>| #[trigger]
                synonyms.alternatives(s) == if s == source@ {
                    start.alternatives(s) + av.subrange(0, 0).to_set()
                } else {
                    start.alternatives(s)
                } by {
                assert(start.alternatives(s) + av.subrange(0, 0).to_set() =~= start.alternatives(
                    s,
                ));
            }
        }
        while j < alts.len()
            invariant
                j <= alts@.len(),
                av == byte_strings(alts@),
                synonyms.wf(),
                forall|s: Seq<u8>| #[trigger]
                    synonyms.alternatives(s) == if s == source@ {
                        start.alternatives(s) + av.subrange(0, j as int).to_set()
                    } else {
                        start.alternatives(s)
                    },
            decreases alts@.len() - j,
        {
            let ghost pre = *synonyms;
            synonyms.add_alternative(source.as_slice(), slice_to_vec(alts[j].as_slice()));
            proof {
                assert(alts@[j as int]@ == av[j as int]);
                assert(pre.alternatives(source@) == start.alternatives(source@) + av.subrange(
                    0,
                    j as int,
                ).to_set());
                assert(synonyms.alternatives(source@) == pre.alternatives(source@).insert(
                    av[j as int],
                ));
                assert forall|x: Seq<u8>|
                    av.subrange(0, j + 1).to_set().contains(x) == (av.subrange(
                        0,
                        j as int,
                    ).to_set().contains(x) || x == av[j as int]) by {
                    lemma_prefix_contains(av, j as int, x);
                }
                assert forall|s: Seq<u8>| #[trigger]
                    synonyms.alternatives(s) == if s == source@ {
                        start.alternatives(s) + av.subrange(0, j + 1).to_set()
                    } else {
                        start.alternatives(s)
                    } by {
                    if s == source@ {
                        let target = start.alternatives(s) + av.subrange(0, j + 1).to_set();
                        assert forall|x: Seq<u8>|
                            synonyms.alternatives(s).contains(x) == target.contains(x) by {
                            lemma_prefix_contains(av, j as int, x);
                        }
                        assert(synonyms.alternatives(s) =~= target);
                    }
                }
            }
            j = j + 1;
        }
        proof {
            assert(av.subrange(0, j as int) =~= av);
            let done = ev.subrange(0, i as int);
            let next = ev.subrange(0, i + 1);
            let cur = ev[i as int];
            assert(cur == (source@, av));
            assert forall|s: Seq<u8>| #[trigger]
                synonyms.alternatives(s) == old(synonyms).alternatives(s) + added_alternatives(
                    next,
                    s,
                ) by {
                assert forall|x: Seq<u8>|
                    added_alternatives(next, s).contains(x) == (added_alternatives(
                        done,
                        s,
                    ).contains(x) || (s == cur.0 && cur.1.contains(x))) by {
                    if added_alternatives(next, s).contains(x) {
                        let k = choose|k: int|
                            0 <= k < next.len() && (#[trigger] next[k]).0 == s
                                && next[k].1.contains(x);
                        if k < i {
                            assert(done[k] == next[k]);
                        }
                    }
                    if added_alternatives(done, s).contains(x) {
                        let k = choose|k: int|
                            0 <= k < done.len() && (#[trigger] done[k]).0 == s
                                && done[k].1.contains(x);
                        assert(next[k] == done[k]);
                    }
                    if s == cur.0 && cur.1.contains(x) {
                        assert(next[i as int] == cur);
                    }
                }
                let target = old(synonyms).alternatives(s) + added_alternatives(next, s);
                assert(start.alternatives(s) == old(synonyms).alternatives(s)
                    + added_alternatives(done, s));
                assert forall|x: Seq<u8>|
                    synonyms.alternatives(s).contains(x) == target.contains(x) by {
                    assert(av.to_set().contains(x) == av.contains(x));
                    assert(added_alternatives(next, s).contains(x) == (added_alternatives(
                        done,
                        s,
                    ).contains(x) || (s == cur.0 && cur.1.contains(x))));
                }
                assert(synonyms.alternatives(s) =~= target);
            }
        }
        i = i + 1;
    }
    proof {
        assert(ev.subrange(0, i as int) =~= ev);
    }
}

/// Removes synonyms: an entry without replacements takes its source out; one
/// with replacements takes those from the alternatives of its source.
pub fn apply_synonyms_deletion(
    synonyms: &mut SynonymsIndex,
    entries: &Vec<(Vec<u8>, Option<Terms>)>,
)
    requires
        old(synonyms).wf(),
    ensures
        final(synonyms).wf(),
        synonyms_deleted(*old(synonyms), *final(synonyms), removals_view(entries@)),
{
    let ghost ev = removals_view(entries@);
    let mut i: usize = 0;
    proof {
        assert forall|s: Seq<u8>| #[trigger]
            synonyms.alternatives(s) == old(synonyms).alternatives(s).filter(
                |alt: Seq<u8>| !removes_alternative(ev.subrange(0, 0), s, alt),
            ) by {
            assert(old(synonyms).alternatives(s).filter(
                |alt: Seq<u8>| !removes_alternative(ev.subrange(0, 0), s, alt),
            ) =~= old(synonyms).alternatives(s));
        }
    }
    while i < entries.len()
        invariant
            i <= entries@.len(),
            ev == removals_view(entries@),
            synonyms.wf(),
            forall|s: Seq<u8>| #[trigger]
                synonyms.alternatives(s) == old(synonyms).alternatives(s).filter(
                    |alt: Seq<u8>| !removes_alternative(ev.subrange(0, i as int), s, alt),
                ),
        decreases entries@.len() - i,
    {
        let source = &entries[i].0;
        let ghost start = *synonyms;
        let ghost cur = ev[i as int];
        match &entries[i].1 {
            None => {
                synonyms.del(source.as_slice());
            },
            Some(alts) => {
                let ghost av = byte_strings(alts@);
                let mut j: usize = 0;
                proof {
                    assert forall|s: Seq<u8>| #[trigger]
                        synonyms.alternatives(s) == if s == source@ {
                            start.alternatives(s).filter(
                                |alt: Seq<u8>| !av.subrange(0, 0).contains(alt),
                            )
                        } else {
                            start.alternatives(s)
                        } by {
                        assert(start.alternatives(s).filter(
                            |alt: Seq<u8>| !av.subrange(0, 0).contains(alt),
                        ) =~= start.alternatives(s));
                    }
                }
                while j < alts.len()
                    invariant
                        j <= alts@.len(),
                        av == byte_strings(alts@),
                        synonyms.wf(),
                        forall|s: Seq<u8>| #[trigger]
                            synonyms.alternatives(s) == if s == source@ {
                                start.alternatives(s).filter(
                                    |alt: Seq<u8>| !av.subrange(0, j as int).contains(alt),
                                )
                            } else {
                                start.alternatives(s)
                            },
                    decreases alts@.len() - j,
                {
                    synonyms.remove_alternative(source.as_slice(), alts[j].as_slice());
                    proof {
                        assert(alts@[j as int]@ == av[j as int]);
                        assert forall|x: Seq<u8>|
                            av.subrange(0, j + 1).contains(x) == (av.subrange(
                                0,
                                j as int,
                            ).contains(x) || x == av[j as int]) by {
                            lemma_prefix_contains(av, j as int, x);
                        }
                        assert forall|s: Seq<u8>| #[trigger]
                            synonyms.alternatives(s) == if s == source@ {
                                start.alternatives(s).filter(
                                    |alt: Seq<u8>| !av.subrange(0, j + 1).contains(alt),
                                )
                            } else {
                                start.alternatives(s)
                            } by {
                            if s == source@ {
                                assert(synonyms.alternatives(s) =~= start.alternatives(s).filter(
                                    |alt: Seq<u8>| !av.subrange(0, j + 1).contains(alt),
                                ));
                            }
                        }
                    }
                    j = j + 1;
                }
                proof {
                    assert(av.subrange(0, j as int) =~= av);
                    assert(cur.1 == Some(av));
                }
            },
        }
        proof {
            let done = ev.subrange(0, i as int);
            let next = ev.subrange(0, i + 1);
            assert(cur.0 == source@);
            assert(cur.1 == removed_view(entries@[i as int].1));
            assert forall|s: Seq<u8>| #[trigger]
                synonyms.alternatives(s) == old(synonyms).alternatives(s).filter(
                    |alt: Seq<u8>| !removes_alternative(next, s, alt),
                ) by {
                assert forall|x: Seq<u8>|
                    removes_alternative(next, s, x) == (removes_alternative(done, s, x) || (s
                        == cur.0 && match cur.1 {
                        None => true,
                        Some(terms) => terms.contains(x),
                    })) by {
                    if removes_alternative(next, s, x) {
                        let k = choose|k: int|
                            0 <= k < next.len() && (#[trigger] next[k]).0 == s && match next[k].1 {
                                None => true,
                                Some(terms) => terms.contains(x),
                            };
                        if k < i {
                            assert(done[k] == next[k]);
                        }
                    }
                    if removes_alternative(done, s, x) {
                        let k = choose|k: int|
                            0 <= k < done.len() && (#[trigger] done[k]).0 == s && match done[k].1 {
                                None => true,
                                Some(terms) => terms.contains(x),
                            };
                        assert(next[k] == done[k]);
                    }
                    if s == cur.0 && match cur.1 {
                        None => true,
                        Some(terms) => terms.contains(x),
                    } {
                        assert(next[i as int] == cur);
                    }
                }
                assert(synonyms.alternatives(s) =~= old(synonyms).alternatives(s).filter(
                    |alt: Seq<u8>| !removes_alternative(next, s, alt),
                ));
            }
        }
        i = i + 1;
    }
    proof {
        assert(ev.subrange(0, i as int) =~= ev);
    }
}

} // verus!
