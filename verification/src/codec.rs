//! The encoding of a queued update: the name of its variant, then its batch.
//! What is written is read back unchanged, and nothing else is read as an
//! update.

use vstd::prelude::*;
use crate::bytes::{byte_strings, compare, Order};
use crate::update::{additions_view, removals_view, removed_view, Terms, Update, UpdateView};
use crate::wire::{
    all_ok, dec_bytes, dec_items, dec_list, dec_u64, enc_bytes, enc_items, enc_list, enc_u64,
    inverts, lemma_bytes_round_trip, lemma_dec_items_none, lemma_enc_u64_len,
    lemma_list_round_trip, lemma_u64_round_trip, put_bytes, put_u64, take_bytes, take_u64, Reader,
    Writer,
};

verus! {

/// The name `DocumentsAddition`, in ASCII.
pub open spec fn name_documents_addition() -> Seq<u8> {
    seq![
        0x44u8, 0x6f, 0x63, 0x75, 0x6d, 0x65, 0x6e, 0x74, 0x73, 0x41, 0x64, 0x64, 0x69, 0x74, 0x69,
        0x6f, 0x6e,
    ]
}

/// The name `DocumentsDeletion`, in ASCII.
pub open spec fn name_documents_deletion() -> Seq<u8> {
    seq![
        0x44u8, 0x6f, 0x63, 0x75, 0x6d, 0x65, 0x6e, 0x74, 0x73, 0x44, 0x65, 0x6c, 0x65, 0x74, 0x69,
        0x6f, 0x6e,
    ]
}

/// The name `SynonymsAddition`, in ASCII.
pub open spec fn name_synonyms_addition() -> Seq<u8> {
    seq![
        0x53u8, 0x79, 0x6e, 0x6f, 0x6e, 0x79, 0x6d, 0x73, 0x41, 0x64, 0x64, 0x69, 0x74, 0x69, 0x6f,
        0x6e,
    ]
}

/// The name `SynonymsDeletion`, in ASCII.
pub open spec fn name_synonyms_deletion() -> Seq<u8> {
    seq![
        0x53u8, 0x79, 0x6e, 0x6f, 0x6e, 0x79, 0x6d, 0x73, 0x44, 0x65, 0x6c, 0x65, 0x74, 0x69, 0x6f,
        0x6e,
    ]
}

/// The name that tags the encoding of `v`.
pub open spec fn variant_name(v: UpdateView) -> Seq<u8> {
    match v {
        UpdateView::DocumentsAddition(_) => name_documents_addition(),
        UpdateView::DocumentsDeletion(_) => name_documents_deletion(),
        UpdateView::SynonymsAddition(_) => name_synonyms_addition(),
        UpdateView::SynonymsDeletion(_) => name_synonyms_deletion(),
    }
}

/// The writer of a byte string.
pub open spec fn w_bytes() -> Writer<Seq<u8>> {
    |b: Seq<u8>| enc_bytes(b)
}

/// The reader of a byte string.
pub open spec fn r_bytes() -> Reader<Seq<u8>> {
    |s: Seq<u8>, pos: int| dec_bytes(s, pos)
}

/// A byte string that can be written: its length fits in 64 bits.
pub open spec fn ok_bytes() -> spec_fn(Seq<u8>) -> bool {
    |b: Seq<u8>| b.len() <= u64::MAX
}

/// The writer of an id.
pub open spec fn w_id() -> Writer<u64> {
    |x: u64| enc_u64(x)
}

/// The reader of an id.
pub open spec fn r_id() -> Reader<u64> {
    |s: Seq<u8>, pos: int| dec_u64(s, pos)
}

/// Every id can be written.
pub open spec fn ok_id() -> spec_fn(u64) -> bool {
    |x: u64| true
}

/// A list of byte strings that can be written: no length is beyond 64 bits.
pub open spec fn ok_terms(l: Seq<Seq<u8>>) -> bool {
    l.len() <= u64::MAX && all_ok(l, ok_bytes())
}

/// The bytes of one addition: the source, then the list of replacements.
pub open spec fn enc_addition(e: (Seq<u8>, Seq<Seq<u8>>)) -> Seq<u8> {
    enc_bytes(e.0) + enc_list(e.1, w_bytes())
}

/// The addition that stands at `pos`.
pub open spec fn dec_addition(s: Seq<u8>, pos: int) -> Option<((Seq<u8>, Seq<Seq<u8>>), int)> {
    match dec_bytes(s, pos) {
        Some((source, q)) => match dec_list(s, q, r_bytes()) {
            Some((terms, r)) => Some(((source, terms), r)),
            None => None,
        },
        None => None,
    }
}

/// The writer of an addition.
pub open spec fn w_addition() -> Writer<(Seq<u8>, Seq<Seq<u8>>)> {
    |e: (Seq<u8>, Seq<Seq<u8>>)| enc_addition(e)
}

/// The reader of an addition.
pub open spec fn r_addition() -> Reader<(Seq<u8>, Seq<Seq<u8>>)> {
    |s: Seq<u8>, pos: int| dec_addition(s, pos)
}

/// An addition that can be written.
pub open spec fn ok_addition() -> spec_fn((Seq<u8>, Seq<Seq<u8>>)) -> bool {
    |e: (Seq<u8>, Seq<Seq<u8>>)| e.0.len() <= u64::MAX && ok_terms(e.1)
}

/// The bytes of one removal: the source, then 0 where all alternatives go,
/// or 1 and the list of replacements to take away.
pub open spec fn enc_removal(e: (Seq<u8>, Option<Seq<Seq<u8>>>)) -> Seq<u8> {
    enc_bytes(e.0) + match e.1 {
        None => seq![0u8],
        Some(terms) => seq![1u8] + enc_list(terms, w_bytes()),
    }
}

/// The removal that stands at `pos`.
pub open spec fn dec_removal(s: Seq<u8>, pos: int) -> Option<
    ((Seq<u8>, Option<Seq<Seq<u8>>>), int),
> {
    match dec_bytes(s, pos) {
        Some((source, q)) => if q < s.len() && s[q] == 0 {
            Some(((source, None), q + 1))
        } else if q < s.len() && s[q] == 1 {
            match dec_list(s, q + 1, r_bytes()) {
                Some((terms, r)) => Some(((source, Some(terms)), r)),
                None => None,
            }
        } else {
            None
        },
        None => None,
    }
}

/// The writer of a removal.
pub open spec fn w_removal() -> Writer<(Seq<u8>, Option<Seq<Seq<u8>>>)> {
    |e: (Seq<u8>, Option<Seq<Seq<u8>>>)| enc_removal(e)
}

/// The reader of a removal.
pub open spec fn r_removal() -> Reader<(Seq<u8>, Option<Seq<Seq<u8>>>)> {
    |s: Seq<u8>, pos: int| dec_removal(s, pos)
}

/// A removal that can be written.
pub open spec fn ok_removal() -> spec_fn((Seq<u8>, Option<Seq<Seq<u8>>>)) -> bool {
    |e: (Seq<u8>, Option<Seq<Seq<u8>>>)|
        e.0.len() <= u64::MAX && match e.1 {
            None => true,
            Some(terms) => ok_terms(terms),
        }
}

/// The bytes of the batch of `v`.
pub open spec fn enc_batch(v: UpdateView) -> Seq<u8> {
    match v {
        UpdateView::DocumentsAddition(docs) => enc_list(docs, w_bytes()),
        UpdateView::DocumentsDeletion(ids) => enc_list(ids, w_id()),
        UpdateView::SynonymsAddition(entries) => enc_list(entries, w_addition()),
        UpdateView::SynonymsDeletion(entries) => enc_list(entries, w_removal()),
    }
}

/// The bytes of an update: the name of its variant, then its batch.
pub open spec fn enc_update(v: UpdateView) -> Seq<u8> {
    enc_bytes(variant_name(v)) + enc_batch(v)
}

/// The batch of the variant called `name` that stands at `pos` and ends with
/// the input.
pub open spec fn dec_batch(s: Seq<u8>, pos: int, name: Seq<u8>) -> Option<UpdateView> {
    if name == name_documents_addition() {
        match dec_list(s, pos, r_bytes()) {
            Some((docs, q)) => if q == s.len() {
                Some(UpdateView::DocumentsAddition(docs))
            } else {
                None
            },
            None => None,
        }
    } else if name == name_documents_deletion() {
        match dec_list(s, pos, r_id()) {
            Some((ids, q)) => if q == s.len() {
                Some(UpdateView::DocumentsDeletion(ids))
            } else {
                None
            },
            None => None,
        }
    } else if name == name_synonyms_addition() {
        match dec_list(s, pos, r_addition()) {
            Some((entries, q)) => if q == s.len() {
                Some(UpdateView::SynonymsAddition(entries))
            } else {
                None
            },
            None => None,
        }
    } else if name == name_synonyms_deletion() {
        match dec_list(s, pos, r_removal()) {
            Some((entries, q)) => if q == s.len() {
                Some(UpdateView::SynonymsDeletion(entries))
            } else {
                None
            },
            None => None,
        }
    } else {
        None
    }
}

/// The update that the bytes `s` are the encoding of, if they are one.
pub open spec fn dec_update(s: Seq<u8>) -> Option<UpdateView> {
    match dec_bytes(s, 0) {
        Some((name, pos)) => dec_batch(s, pos, name),
        None => None,
    }
}

/// An update that can be written: no length in it is beyond 64 bits. Every
/// `Update` in memory is one.
pub open spec fn encodable(v: UpdateView) -> bool {
    match v {
        UpdateView::DocumentsAddition(docs) => ok_terms(docs),
        UpdateView::DocumentsDeletion(ids) => ids.len() <= u64::MAX,
        UpdateView::SynonymsAddition(entries) => entries.len() <= u64::MAX && all_ok(
            entries,
            ok_addition(),
        ),
        UpdateView::SynonymsDeletion(entries) => entries.len() <= u64::MAX && all_ok(
            entries,
            ok_removal(),
        ),
    }
}

/// A byte string is read back as written, wherever it stands.
pub proof fn lemma_bytes_inverts()
    ensures
        inverts(r_bytes(), w_bytes(), ok_bytes()),
{
    assert forall|s: Seq<u8>, pos: int, v: Seq<u8>|
        ok_bytes()(v) && 0 <= pos && pos + w_bytes()(v).len() <= s.len() && s.subrange(
            pos,
            pos + w_bytes()(v).len(),
        ) == #[trigger] w_bytes()(v) implies #[trigger] r_bytes()(s, pos) == Some(
        (v, pos + w_bytes()(v).len()),
    ) by {
        lemma_bytes_round_trip(s, pos, v);
    }
}

/// An id is read back as written, wherever it stands.
pub proof fn lemma_id_inverts()
    ensures
        inverts(r_id(), w_id(), ok_id()),
{
    assert forall|s: Seq<u8>, pos: int, v: u64|
        ok_id()(v) && 0 <= pos && pos + w_id()(v).len() <= s.len() && s.subrange(
            pos,
            pos + w_id()(v).len(),
        ) == #[trigger] w_id()(v) implies #[trigger] r_id()(s, pos) == Some(
        (v, pos + w_id()(v).len()),
    ) by {
        lemma_enc_u64_len(v);
        lemma_u64_round_trip(s, pos, v);
    }
}

/// A list of byte strings that stands at `pos` is read back as it was written.
pub proof fn lemma_terms_round_trip(s: Seq<u8>, pos: int, l: Seq<Seq<u8>>)
    requires
        ok_terms(l),
        0 <= pos,
        pos + enc_list(l, w_bytes()).len() <= s.len(),
        s.subrange(pos, pos + enc_list(l, w_bytes()).len()) == enc_list(l, w_bytes()),
    ensures
        dec_list(s, pos, r_bytes()) == Some((l, pos + enc_list(l, w_bytes()).len())),
{
    lemma_bytes_inverts();
    lemma_list_round_trip(s, pos, l, w_bytes(), r_bytes(), ok_bytes());
}

/// An addition is read back as written, wherever it stands.
pub proof fn lemma_addition_inverts()
    ensures
        inverts(r_addition(), w_addition(), ok_addition()),
{
    assert forall|s: Seq<u8>, pos: int, v: (Seq<u8>, Seq<Seq<u8>>)|
        ok_addition()(v) && 0 <= pos && pos + w_addition()(v).len() <= s.len() && s.subrange(
            pos,
            pos + w_addition()(v).len(),
        ) == #[trigger] w_addition()(v) implies #[trigger] r_addition()(s, pos) == Some(
        (v, pos + w_addition()(v).len()),
    ) by {
        let e = enc_addition(v);
        let e0 = enc_bytes(v.0);
        let e1 = enc_list(v.1, w_bytes());
        assert(s.subrange(pos, pos + e0.len()) =~= e.subrange(0, e0.len() as int));
        assert(e.subrange(0, e0.len() as int) =~= e0);
        lemma_bytes_round_trip(s, pos, v.0);
        let q = pos + e0.len();
        assert(s.subrange(q, q + e1.len()) =~= e.subrange(e0.len() as int, e.len() as int));
        assert(e.subrange(e0.len() as int, e.len() as int) =~= e1);
        lemma_terms_round_trip(s, q, v.1);
    }
}

/// A removal is read back as written, wherever it stands.
pub proof fn lemma_removal_inverts()
    ensures
        inverts(r_removal(), w_removal(), ok_removal()),
{
    assert forall|s: Seq<u8>, pos: int, v: (Seq<u8>, Option<Seq<Seq<u8>>>)|
        ok_removal()(v) && 0 <= pos && pos + w_removal()(v).len() <= s.len() && s.subrange(
            pos,
            pos + w_removal()(v).len(),
        ) == #[trigger] w_removal()(v) implies #[trigger] r_removal()(s, pos) == Some(
        (v, pos + w_removal()(v).len()),
    ) by {
        let e = enc_removal(v);
        let e0 = enc_bytes(v.0);
        assert(s.subrange(pos, pos + e0.len()) =~= e.subrange(0, e0.len() as int));
        assert(e.subrange(0, e0.len() as int) =~= e0);
        lemma_bytes_round_trip(s, pos, v.0);
        let q = pos + e0.len();
        assert(s[q] == s.subrange(pos, pos + e.len())[q - pos]);
        match v.1 {
            None => {
                assert(e[e0.len() as int] == 0u8);
            },
            Some(terms) => {
                let e1 = enc_list(terms, w_bytes());
                assert(e[e0.len() as int] == 1u8);
                assert(s.subrange(q + 1, q + 1 + e1.len()) =~= e.subrange(
                    e0.len() as int + 1,
                    e.len() as int,
                ));
                assert(e.subrange(e0.len() as int + 1, e.len() as int) =~= e1);
                lemma_terms_round_trip(s, q + 1, terms);
            },
        }
    }
}

/// Decoding the encoding of an update gives the update back.
pub proof fn lemma_update_round_trip(v: UpdateView)
    requires
        encodable(v),
    ensures
        dec_update(enc_update(v)) == Some(v),
{
    let s = enc_update(v);
    let name = variant_name(v);
    let e0 = enc_bytes(name);
    let e1 = enc_batch(v);
    assert(s.subrange(0, e0.len() as int) =~= e0);
    lemma_bytes_round_trip(s, 0, name);
    let q = e0.len() as int;
    assert(s.subrange(q, q + e1.len()) =~= e1);
    lemma_names_differ();
    match v {
        UpdateView::DocumentsAddition(docs) => {
            lemma_terms_round_trip(s, q, docs);
        },
        UpdateView::DocumentsDeletion(ids) => {
            lemma_id_inverts();
            assert(all_ok(ids, ok_id()));
            lemma_list_round_trip(s, q, ids, w_id(), r_id(), ok_id());
        },
        UpdateView::SynonymsAddition(entries) => {
            lemma_addition_inverts();
            lemma_list_round_trip(s, q, entries, w_addition(), r_addition(), ok_addition());
        },
        UpdateView::SynonymsDeletion(entries) => {
            lemma_removal_inverts();
            lemma_list_round_trip(s, q, entries, w_removal(), r_removal(), ok_removal());
        },
    }
}

/// The four names are four different byte strings.
pub proof fn lemma_names_differ()
    ensures
        name_documents_addition() != name_documents_deletion(),
        name_documents_addition() != name_synonyms_addition(),
        name_documents_addition() != name_synonyms_deletion(),
        name_documents_deletion() != name_synonyms_addition(),
        name_documents_deletion() != name_synonyms_deletion(),
        name_synonyms_addition() != name_synonyms_deletion(),
        name_documents_addition().len() == 17,
        name_documents_deletion().len() == 17,
        name_synonyms_addition().len() == 16,
        name_synonyms_deletion().len() == 16,
{
    assert(name_documents_addition()[9] != name_documents_deletion()[9]);
    assert(name_synonyms_addition()[8] != name_synonyms_deletion()[8]);
}

/// Every update in memory can be written.
pub proof fn lemma_update_encodable(u: &Update)
    ensures
        encodable(u@),
{
    match u {
        Update::DocumentsAddition(docs) => {
            lemma_terms_ok(docs);
        },
        Update::DocumentsDeletion(ids) => {
            assert(ids@.len() == ids.len());
        },
        Update::SynonymsAddition(entries) => {
            assert(entries@.len() == entries.len());
            let l = additions_view(entries@);
            assert forall|i: int| 0 <= i < l.len() implies ok_addition()(#[trigger] l[i]) by {
                assert(entries@[i].0@.len() == entries@[i].0.len());
                lemma_terms_ok(&entries@[i].1);
            }
        },
        Update::SynonymsDeletion(entries) => {
            assert(entries@.len() == entries.len());
            let l = removals_view(entries@);
            assert forall|i: int| 0 <= i < l.len() implies ok_removal()(#[trigger] l[i]) by {
                assert(entries@[i].0@.len() == entries@[i].0.len());
                match entries@[i].1 {
                    Some(terms) => {
                        lemma_terms_ok(&terms);
                    },
                    None => {},
                }
            }
        },
    }
}

proof fn lemma_terms_ok(l: &Terms)
    ensures
        ok_terms(byte_strings(l@)),
{
    assert(l@.len() == l.len());
    let v = byte_strings(l@);
    assert forall|i: int| 0 <= i < v.len() implies ok_bytes()(#[trigger] v[i]) by {
        assert(l@[i]@.len() == l@[i].len());
    }
}

/// Encoding an update and decoding the bytes gives the update back: for every
/// update, whatever it holds.
pub proof fn update_round_trip(u: Update)
    ensures
        dec_update(enc_update(u@)) == Some(u@),
{
    lemma_update_encodable(&u);
    lemma_update_round_trip(u@);
}

fn put_terms(out: &mut Vec<u8>, l: &Terms)
    ensures
        final(out)@ == old(out)@ + enc_list(byte_strings(l@), w_bytes()),
{
    let ghost v = byte_strings(l@);
    put_u64(out, l.len() as u64);
    let ghost head = out@;
    let mut i: usize = 0;
    while i < l.len()
        invariant
            i <= l@.len(),
            v == byte_strings(l@),
            out@ == head + enc_items(v.subrange(0, i as int), w_bytes()),
        decreases l@.len() - i,
    {
        let ghost before = out@;
        put_bytes(out, l[i].as_slice());
        proof {
            let a = v.subrange(0, i as int);
            let b = v.subrange(0, i + 1);
            assert(b.drop_last() =~= a);
            assert(b.last() == l@[i as int]@);
            assert(out@ =~= head + enc_items(b, w_bytes()));
        }
        i = i + 1;
    }
    proof {
        assert(v.subrange(0, i as int) =~= v);
        assert(out@ =~= old(out)@ + enc_list(v, w_bytes()));
    }
}

fn put_ids(out: &mut Vec<u8>, l: &Vec<u64>)
    ensures
        final(out)@ == old(out)@ + enc_list(l@, w_id()),
{
    put_u64(out, l.len() as u64);
    let ghost head = out@;
    let mut i: usize = 0;
    while i < l.len()
        invariant
            i <= l@.len(),
            out@ == head + enc_items(l@.subrange(0, i as int), w_id()),
        decreases l@.len() - i,
    {
        put_u64(out, l[i]);
        proof {
            let a = l@.subrange(0, i as int);
            let b = l@.subrange(0, i + 1);
            assert(b.drop_last() =~= a);
            assert(b.last() == l@[i as int]);
            assert(out@ =~= head + enc_items(b, w_id()));
        }
        i = i + 1;
    }
    proof {
        assert(l@.subrange(0, i as int) =~= l@);
        assert(out@ =~= old(out)@ + enc_list(l@, w_id()));
    }
}

fn put_additions(out: &mut Vec<u8>, l: &Vec<(Vec<u8>, Terms)>)
    ensures
        final(out)@ == old(out)@ + enc_list(additions_view(l@), w_addition()),
{
    let ghost v = additions_view(l@);
    put_u64(out, l.len() as u64);
    let ghost head = out@;
    let mut i: usize = 0;
    while i < l.len()
        invariant
            i <= l@.len(),
            v == additions_view(l@),
            out@ == head + enc_items(v.subrange(0, i as int), w_addition()),
        decreases l@.len() - i,
    {
        let ghost before = out@;
        put_bytes(out, l[i].0.as_slice());
        put_terms(out, &l[i].1);
        proof {
            let a = v.subrange(0, i as int);
            let b = v.subrange(0, i + 1);
            assert(b.drop_last() =~= a);
            assert(b.last() == v[i as int]);
            assert(out@ =~= before + enc_addition(v[i as int]));
            assert(out@ =~= head + enc_items(b, w_addition()));
        }
        i = i + 1;
    }
    proof {
        assert(v.subrange(0, i as int) =~= v);
        assert(out@ =~= old(out)@ + enc_list(v, w_addition()));
    }
}

fn put_removals(out: &mut Vec<u8>, l: &Vec<(Vec<u8>, Option<Terms>)>)
    ensures
        final(out)@ == old(out)@ + enc_list(removals_view(l@), w_removal()),
{
    let ghost v = removals_view(l@);
    put_u64(out, l.len() as u64);
    let ghost head = out@;
    let mut i: usize = 0;
    while i < l.len()
        invariant
            i <= l@.len(),
            v == removals_view(l@),
            out@ == head + enc_items(v.subrange(0, i as int), w_removal()),
        decreases l@.len() - i,
    {
        let ghost before = out@;
        put_bytes(out, l[i].0.as_slice());
        match &l[i].1 {
            None => {
                out.push(0u8);
                proof {
                    assert(out@ =~= before + enc_removal(v[i as int]));
                }
            },
            Some(terms) => {
                out.push(1u8);
                put_terms(out, terms);
                proof {
                    assert(out@ =~= before + enc_removal(v[i as int]));
                }
            },
        }
        proof {
            let a = v.subrange(0, i as int);
            let b = v.subrange(0, i + 1);
            assert(b.drop_last() =~= a);
            assert(b.last() == v[i as int]);
            assert(out@ =~= head + enc_items(b, w_removal()));
        }
        i = i + 1;
    }
    proof {
        assert(v.subrange(0, i as int) =~= v);
        assert(out@ =~= old(out)@ + enc_list(v, w_removal()));
    }
}

fn take_terms(s: &[u8], pos: usize) -> (r: Option<(Terms, usize)>)
    ensures
        match r {
            Some((l, q)) => dec_list(s@, pos as int, r_bytes()) == Some(
                (byte_strings(l@), q as int),
            ),
            None => dec_list(s@, pos as int, r_bytes()) is None,
        },
{
    let (n, start) = match take_u64(s, pos) {
        Some(x) => x,
        None => {
            return None;
        },
    };
    let mut acc: Terms = Vec::new();
    let mut p: usize = start;
    let mut i: u64 = 0;
    proof {
        assert(byte_strings(acc@) =~= Seq::<Seq<u8>>::empty());
    }
    while i < n
        invariant
            i <= n,
            dec_u64(s@, pos as int) == Some((n, start as int)),
            dec_items(s@, start as int, i as nat, r_bytes()) == Some(
                (byte_strings(acc@), p as int),
            ),
        decreases n - i,
    {
        match take_bytes(s, p) {
            None => {
                proof {
                    lemma_dec_items_none(s@, start as int, (i + 1) as nat, n as nat, r_bytes());
                }
                return None;
            },
            Some((b, q)) => {
                let ghost before = byte_strings(acc@);
                acc.push(b);
                proof {
                    assert(byte_strings(acc@) =~= before.push(b@));
                }
                p = q;
            },
        }
        i = i + 1;
    }
    Some((acc, p))
}

fn take_ids(s: &[u8], pos: usize) -> (r: Option<(Vec<u64>, usize)>)
    ensures
        match r {
            Some((l, q)) => dec_list(s@, pos as int, r_id()) == Some((l@, q as int)),
            None => dec_list(s@, pos as int, r_id()) is None,
        },
{
    let (n, start) = match take_u64(s, pos) {
        Some(x) => x,
        None => {
            return None;
        },
    };
    let mut acc: Vec<u64> = Vec::new();
    let mut p: usize = start;
    let mut i: u64 = 0;
    while i < n
        invariant
            i <= n,
            dec_u64(s@, pos as int) == Some((n, start as int)),
            dec_items(s@, start as int, i as nat, r_id()) == Some((acc@, p as int)),
        decreases n - i,
    {
        match take_u64(s, p) {
            None => {
                proof {
                    lemma_dec_items_none(s@, start as int, (i + 1) as nat, n as nat, r_id());
                }
                return None;
            },
            Some((x, q)) => {
                acc.push(x);
                p = q;
            },
        }
        i = i + 1;
    }
    Some((acc, p))
}

fn take_additions(s: &[u8], pos: usize) -> (r: Option<(Vec<(Vec<u8>, Terms)>, usize)>)
    ensures
        match r {
            Some((l, q)) => dec_list(s@, pos as int, r_addition()) == Some(
                (additions_view(l@), q as int),
            ),
            None => dec_list(s@, pos as int, r_addition()) is None,
        },
{
    let (n, start) = match take_u64(s, pos) {
        Some(x) => x,
        None => {
            return None;
        },
    };
    let mut acc: Vec<(Vec<u8>, Terms)> = Vec::new();
    let mut p: usize = start;
    let mut i: u64 = 0;
    proof {
        assert(additions_view(acc@) =~= Seq::<(Seq<u8>, Seq<Seq<u8>>)>::empty());
    }
    while i < n
        invariant
            i <= n,
            dec_u64(s@, pos as int) == Some((n, start as int)),
            dec_items(s@, start as int, i as nat, r_addition()) == Some(
                (additions_view(acc@), p as int),
            ),
        decreases n - i,
    {
        let item = match take_bytes(s, p) {
            None => None,
            Some((source, q)) => match take_terms(s, q) {
                None => None,
                Some((terms, r)) => Some(((source, terms), r)),
            },
        };
        match item {
            None => {
                proof {
                    assert(dec_addition(s@, p as int) is None);
                    lemma_dec_items_none(
                        s@,
                        start as int,
                        (i + 1) as nat,
                        n as nat,
                        r_addition(),
                    );
                }
                return None;
            },
            Some((entry, r)) => {
                let ghost before = additions_view(acc@);
                let ghost ev = (entry.0@, byte_strings(entry.1@));
                proof {
                    assert(dec_addition(s@, p as int) == Some((ev, r as int)));
                }
                acc.push(entry);
                proof {
                    assert(additions_view(acc@) =~= before.push(ev));
                }
                p = r;
            },
        }
        i = i + 1;
    }
    Some((acc, p))
}

fn take_removals(s: &[u8], pos: usize) -> (r: Option<(Vec<(Vec<u8>, Option<Terms>)>, usize)>)
    ensures
        match r {
            Some((l, q)) => dec_list(s@, pos as int, r_removal()) == Some(
                (removals_view(l@), q as int),
            ),
            None => dec_list(s@, pos as int, r_removal()) is None,
        },
{
    let (n, start) = match take_u64(s, pos) {
        Some(x) => x,
        None => {
            return None;
        },
    };
    let mut acc: Vec<(Vec<u8>, Option<Terms>)> = Vec::new();
    let mut p: usize = start;
    let mut i: u64 = 0;
    proof {
        assert(removals_view(acc@) =~= Seq::<(Seq<u8>, Option<Seq<Seq<u8>>>)>::empty());
    }
    while i < n
        invariant
            i <= n,
            dec_u64(s@, pos as int) == Some((n, start as int)),
            dec_items(s@, start as int, i as nat, r_removal()) == Some(
                (removals_view(acc@), p as int),
            ),
        decreases n - i,
    {
        let item = match take_bytes(s, p) {
            None => None,
            Some((source, q)) => {
                if q < s.len() && s[q] == 0 {
                    Some(((source, None), q + 1))
                } else if q < s.len() && s[q] == 1 {
                    match take_terms(s, q + 1) {
                        None => None,
                        Some((terms, r)) => Some(((source, Some(terms)), r)),
                    }
                } else {
                    None
                }
            },
        };
        match item {
            None => {
                proof {
                    assert(dec_removal(s@, p as int) is None);
                    lemma_dec_items_none(s@, start as int, (i + 1) as nat, n as nat, r_removal());
                }
                return None;
            },
            Some((entry, r)) => {
                let ghost before = removals_view(acc@);
                let ghost ev = (entry.0@, removed_view(entry.1));
                proof {
                    assert(dec_removal(s@, p as int) == Some((ev, r as int)));
                }
                acc.push(entry);
                proof {
                    assert(removals_view(acc@) =~= before.push(ev));
                }
                p = r;
            },
        }
        i = i + 1;
    }
    Some((acc, p))
}

/// The list of byte strings that the bytes `s` are the encoding of, if they
/// are one.
pub open spec fn dec_terms(s: Seq<u8>) -> Option<Seq<Seq<u8>>> {
    match dec_list(s, 0, r_bytes()) {
        Some((l, end)) => if end == s.len() {
            Some(l)
        } else {
            None
        },
        None => None,
    }
}

/// Encodes a list of byte strings, as the words of a document and the
/// alternatives of a synonym are stored: the number of the strings, then each
/// behind its length.
pub fn encode_terms(terms: &Terms) -> (bytes: Vec<u8>)
    ensures
        bytes@ == enc_list(byte_strings(terms@), w_bytes()),
        dec_terms(bytes@) == Some(byte_strings(terms@)),
{
    let mut out: Vec<u8> = Vec::new();
    put_terms(&mut out, terms);
    proof {
        let l = byte_strings(terms@);
        assert(out@ =~= enc_list(l, w_bytes()));
        assert(out@.subrange(0, out@.len() as int) =~= out@);
        lemma_terms_ok(terms);
        lemma_terms_round_trip(out@, 0, l);
    }
    out
}

/// Decodes a stored list of byte strings: `Some` list exactly where the bytes
/// are the encoding of one, and then that list.
pub fn decode_terms(bytes: &[u8]) -> (r: Option<Terms>)
    ensures
        match r {
            Some(terms) => dec_terms(bytes@) == Some(byte_strings(terms@)),
            None => dec_terms(bytes@) is None,
        },
{
    match take_terms(bytes, 0) {
        Some((terms, end)) => if end == bytes.len() {
            Some(terms)
        } else {
            None
        },
        None => None,
    }
}

/// The name of the variant of `update`, in ASCII.
fn name_of(update: &Update) -> (name: Vec<u8>)
    ensures
        name@ == variant_name(update@),
{
    let name = match update {
        Update::DocumentsAddition(_) => vec![
            0x44u8, 0x6f, 0x63, 0x75, 0x6d, 0x65, 0x6e, 0x74, 0x73, 0x41, 0x64, 0x64, 0x69, 0x74,
            0x69, 0x6f, 0x6e,
        ],
        Update::DocumentsDeletion(_) => vec![
            0x44u8, 0x6f, 0x63, 0x75, 0x6d, 0x65, 0x6e, 0x74, 0x73, 0x44, 0x65, 0x6c, 0x65, 0x74,
            0x69, 0x6f, 0x6e,
        ],
        Update::SynonymsAddition(_) => vec![
            0x53u8, 0x79, 0x6e, 0x6f, 0x6e, 0x79, 0x6d, 0x73, 0x41, 0x64, 0x64, 0x69, 0x74, 0x69,
            0x6f, 0x6e,
        ],
        Update::SynonymsDeletion(_) => vec![
            0x53u8, 0x79, 0x6e, 0x6f, 0x6e, 0x79, 0x6d, 0x73, 0x44, 0x65, 0x6c, 0x65, 0x74, 0x69,
            0x6f, 0x6e,
        ],
    };
    proof {
        assert(name@ =~= variant_name(update@));
    }
    name
}

/// Encodes an update for the queue.
pub fn encode_update(update: &Update) -> (bytes: Vec<u8>)
    ensures
        bytes@ == enc_update(update@),
        dec_update(bytes@) == Some(update@),
{
    let mut out: Vec<u8> = Vec::new();
    let name = name_of(update);
    put_bytes(&mut out, name.as_slice());
    match update {
        Update::DocumentsAddition(docs) => put_terms(&mut out, docs),
        Update::DocumentsDeletion(ids) => put_ids(&mut out, ids),
        Update::SynonymsAddition(entries) => put_additions(&mut out, entries),
        Update::SynonymsDeletion(entries) => put_removals(&mut out, entries),
    }
    proof {
        assert(out@ =~= enc_update(update@));
        lemma_update_encodable(update);
        lemma_update_round_trip(update@);
    }
    out
}

/// Whether `name` is the byte string `other`.
fn is_name(name: &Vec<u8>, other: &Update) -> (b: bool)
    ensures
        b == (name@ == variant_name(other@)),
{
    let expected = name_of(other);
    match compare(name.as_slice(), expected.as_slice()) {
        Order::Same => true,
        _ => false,
    }
}

/// Decodes a queued payload: `Some` update exactly where the bytes are the
/// encoding of one, and then that update.
pub fn decode_update(bytes: &[u8]) -> (r: Option<Update>)
    ensures
        match r {
            Some(update) => dec_update(bytes@) == Some(update@),
            None => dec_update(bytes@) is None,
        },
{
    let (name, pos) = match take_bytes(bytes, 0) {
        Some(x) => x,
        None => {
            return None;
        },
    };
    proof {
        lemma_names_differ();
        assert(byte_strings(Seq::<Vec<u8>>::empty()) =~= Seq::<Seq<u8>>::empty());
    }
    if is_name(&name, &Update::DocumentsAddition(Vec::new())) {
        match take_terms(bytes, pos) {
            Some((docs, q)) => if q == bytes.len() {
                Some(Update::DocumentsAddition(docs))
            } else {
                None
            },
            None => None,
        }
    } else if is_name(&name, &Update::DocumentsDeletion(Vec::new())) {
        match take_ids(bytes, pos) {
            Some((ids, q)) => if q == bytes.len() {
                Some(Update::DocumentsDeletion(ids))
            } else {
                None
            },
            None => None,
        }
    } else if is_name(&name, &Update::SynonymsAddition(Vec::new())) {
        match take_additions(bytes, pos) {
            Some((entries, q)) => if q == bytes.len() {
                Some(Update::SynonymsAddition(entries))
            } else {
                None
            },
            None => None,
        }
    } else if is_name(&name, &Update::SynonymsDeletion(Vec::new())) {
        match take_removals(bytes, pos) {
            Some((entries, q)) => if q == bytes.len() {
                Some(Update::SynonymsDeletion(entries))
            } else {
                None
            },
            None => None,
        }
    } else {
        None
    }
}

} // verus!
