//! One occurrence of a term in a document, and the key that stands for it in
//! the postings of the term: sixteen bytes that sort as the occurrences do.

use vstd::prelude::*;
use vstd::slice::slice_subrange;
use crate::bytes::is_prefix;
use crate::keys::{
    be_bytes, be_value, decode_be, encode_be, lemma_be_bytes_len, lemma_be_bytes_of_value,
    lemma_be_value_bound, lemma_be_value_of_bytes, lemma_pow256_8, lemma_update_key_order,
    update_key_spec,
};

verus! {

/// One occurrence of a term: the document, the attribute, the place of the
/// word in the attribute, the place of its first character and its length.
#[derive(Clone, Copy, Debug, PartialEq, Eq, PartialOrd, Ord, Hash, Structural)]
pub struct DocIndex {
    pub document_id: u64,
    pub attribute: u16,
    pub word_index: u16,
    pub char_index: u16,
    pub char_length: u16,
}

/// The key of a document: its id in eight bytes.
pub open spec fn document_key_spec(id: u64) -> Seq<u8> {
    update_key_spec(id)
}

/// The key of an attribute: its id in two bytes.
pub open spec fn attr_key_spec(attr: u16) -> Seq<u8> {
    be_bytes(attr as nat, 2)
}

/// The key of a field: the key of the document, then that of the attribute.
pub open spec fn field_key_spec(id: u64, attr: u16) -> Seq<u8> {
    document_key_spec(id) + attr_key_spec(attr)
}

/// The key of an occurrence: its five numbers, each most significant byte
/// first, the document first.
pub open spec fn doc_index_key_spec(di: DocIndex) -> Seq<u8> {
    document_key_spec(di.document_id) + attr_key_spec(di.attribute) + attr_key_spec(di.word_index)
        + attr_key_spec(di.char_index) + attr_key_spec(di.char_length)
}

/// The keys of a list of occurrences, each at the place of its occurrence.
pub open spec fn doc_index_keys(l: Seq<DocIndex>) -> Seq<Seq<u8>> {
    Seq::new(l.len(), |i: int| doc_index_key_spec(l[i]))
}

/// The postings of a term as they are stored: the keys of the occurrences,
/// one after the other.
pub open spec fn packed_postings(l: Seq<DocIndex>) -> Seq<u8>
    decreases l.len(),
{
    if l.len() == 0 {
        Seq::empty()
    } else {
        packed_postings(l.drop_last()) + doc_index_key_spec(l.last())
    }
}

/// The occurrence that a key of sixteen bytes stands for.
pub open spec fn doc_index_of_key_spec(k: Seq<u8>) -> DocIndex {
    DocIndex {
        document_id: be_value(k.subrange(0, 8)) as u64,
        attribute: be_value(k.subrange(8, 10)) as u16,
        word_index: be_value(k.subrange(10, 12)) as u16,
        char_index: be_value(k.subrange(12, 14)) as u16,
        char_length: be_value(k.subrange(14, 16)) as u16,
    }
}

/// The key of an attribute is two bytes that spell its id, and two such
/// bytes are the key of the attribute they spell.
pub proof fn lemma_attr_key(attr: u16)
    ensures
        attr_key_spec(attr).len() == 2,
        be_value(attr_key_spec(attr)) == attr,
{
    lemma_pow256_8();
    lemma_be_bytes_len(attr as nat, 2);
    lemma_be_value_of_bytes(attr as nat, 2);
}

/// Two bytes are the key of the attribute they spell.
pub proof fn lemma_two_bytes(s: Seq<u8>)
    requires
        s.len() == 2,
    ensures
        be_value(s) <= u16::MAX,
        attr_key_spec(be_value(s) as u16) == s,
{
    lemma_pow256_8();
    lemma_be_value_bound(s);
    lemma_be_bytes_of_value(s);
}

/// Eight bytes are the key of the document they spell.
pub proof fn lemma_eight_bytes(s: Seq<u8>)
    requires
        s.len() == 8,
    ensures
        be_value(s) <= u64::MAX,
        document_key_spec(be_value(s) as u64) == s,
{
    lemma_pow256_8();
    lemma_be_value_bound(s);
    lemma_be_bytes_of_value(s);
}

/// A key is sixteen bytes, it begins with the key of its document, and it
/// stands for the occurrence it was made of.
pub proof fn lemma_doc_index_key(di: DocIndex)
    ensures
        doc_index_key_spec(di).len() == 16,
        doc_index_key_spec(di).subrange(0, 8) == document_key_spec(di.document_id),
        doc_index_of_key_spec(doc_index_key_spec(di)) == di,
{
    let k = doc_index_key_spec(di);
    lemma_update_key_order(di.document_id, di.document_id);
    lemma_attr_key(di.attribute);
    lemma_attr_key(di.word_index);
    lemma_attr_key(di.char_index);
    lemma_attr_key(di.char_length);
    assert(k.subrange(0, 8) =~= document_key_spec(di.document_id));
    assert(k.subrange(8, 10) =~= attr_key_spec(di.attribute));
    assert(k.subrange(10, 12) =~= attr_key_spec(di.word_index));
    assert(k.subrange(12, 14) =~= attr_key_spec(di.char_index));
    assert(k.subrange(14, 16) =~= attr_key_spec(di.char_length));
}

/// Sixteen bytes are the key of the occurrence they stand for.
pub proof fn lemma_doc_index_of_key(k: Seq<u8>)
    requires
        k.len() == 16,
    ensures
        doc_index_key_spec(doc_index_of_key_spec(k)) == k,
{
    lemma_eight_bytes(k.subrange(0, 8));
    lemma_two_bytes(k.subrange(8, 10));
    lemma_two_bytes(k.subrange(10, 12));
    lemma_two_bytes(k.subrange(12, 14));
    lemma_two_bytes(k.subrange(14, 16));
    assert(doc_index_key_spec(doc_index_of_key_spec(k)) =~= k);
}

/// The key of an occurrence begins with the key of a document exactly where
/// the occurrence is in that document.
pub proof fn lemma_doc_index_prefix(di: DocIndex, id: u64)
    ensures
        is_prefix(document_key_spec(id), doc_index_key_spec(di)) <==> di.document_id == id,
{
    lemma_doc_index_key(di);
    lemma_update_key_order(di.document_id, id);
    lemma_update_key_order(id, id);
}

/// Two occurrences with one key are one occurrence.
pub proof fn lemma_doc_index_key_injective(a: DocIndex, b: DocIndex)
    requires
        doc_index_key_spec(a) == doc_index_key_spec(b),
    ensures
        a == b,
{
    lemma_doc_index_key(a);
    lemma_doc_index_key(b);
}

/// The key of a field begins with the key of its document and of no other,
/// and two fields with one key are one field.
pub proof fn lemma_field_key(id: u64, attr: u16, other: u64, other_attr: u16)
    ensures
        field_key_spec(id, attr).len() == 10,
        is_prefix(document_key_spec(other), field_key_spec(id, attr)) <==> id == other,
        field_key_spec(id, attr) == field_key_spec(other, other_attr) <==> id == other && attr
            == other_attr,
{
    lemma_update_key_order(id, other);
    lemma_update_key_order(other, other);
    lemma_attr_key(attr);
    lemma_attr_key(other_attr);
    let k = field_key_spec(id, attr);
    let o = field_key_spec(other, other_attr);
    assert(k.subrange(0, 8) =~= document_key_spec(id));
    assert(k.subrange(8, 10) =~= attr_key_spec(attr));
    assert(o.subrange(0, 8) =~= document_key_spec(other));
    assert(o.subrange(8, 10) =~= attr_key_spec(other_attr));
}

/// Packed postings take sixteen bytes for each occurrence.
pub proof fn lemma_packed_postings_len(l: Seq<DocIndex>)
    ensures
        packed_postings(l).len() == 16 * l.len(),
    decreases l.len(),
{
    if l.len() > 0 {
        lemma_packed_postings_len(l.drop_last());
        lemma_doc_index_key(l.last());
    }
}

/// Two lists of occurrences that are packed to the same bytes are one list.
pub proof fn lemma_packed_postings_injective(a: Seq<DocIndex>, b: Seq<DocIndex>)
    requires
        packed_postings(a) == packed_postings(b),
    ensures
        a == b,
    decreases a.len(),
{
    lemma_packed_postings_len(a);
    lemma_packed_postings_len(b);
    if a.len() == 0 {
        assert(a =~= b);
    } else {
        let pa = packed_postings(a.drop_last());
        let pb = packed_postings(b.drop_last());
        let ka = doc_index_key_spec(a.last());
        let kb = doc_index_key_spec(b.last());
        lemma_packed_postings_len(a.drop_last());
        lemma_packed_postings_len(b.drop_last());
        lemma_doc_index_key(a.last());
        lemma_doc_index_key(b.last());
        let whole = packed_postings(a);
        assert(whole.subrange(0, pa.len() as int) =~= pa);
        assert(whole.subrange(0, pb.len() as int) =~= pb);
        assert(whole.subrange(pa.len() as int, whole.len() as int) =~= ka);
        assert(whole.subrange(pb.len() as int, whole.len() as int) =~= kb);
        lemma_doc_index_key_injective(a.last(), b.last());
        lemma_packed_postings_injective(a.drop_last(), b.drop_last());
        assert(a =~= a.drop_last().push(a.last()));
        assert(b =~= b.drop_last().push(b.last()));
    }
}

/// The key of a document.
pub fn document_key(id: u64) -> (key: Vec<u8>)
    ensures
        key@ == document_key_spec(id),
        key@.len() == 8,
{
    proof {
        lemma_be_bytes_len(id as nat, 8);
    }
    encode_be(id, 8)
}

/// The key of an attribute.
pub fn attr_key(attr: u16) -> (key: Vec<u8>)
    ensures
        key@ == attr_key_spec(attr),
        key@.len() == 2,
{
    proof {
        lemma_be_bytes_len(attr as nat, 2);
    }
    encode_be(attr as u64, 2)
}

/// The key of a field of a document.
pub fn field_key(id: u64, attr: u16) -> (key: Vec<u8>)
    ensures
        key@ == field_key_spec(id, attr),
        key@.len() == 10,
{
    let mut key = document_key(id);
    let mut tail = attr_key(attr);
    key.append(&mut tail);
    key
}

/// The key of an occurrence.
pub fn doc_index_key(di: &DocIndex) -> (key: Vec<u8>)
    ensures
        key@ == doc_index_key_spec(*di),
        key@.len() == 16,
{
    let mut key = document_key(di.document_id);
    let mut a = attr_key(di.attribute);
    let mut b = attr_key(di.word_index);
    let mut c = attr_key(di.char_index);
    let mut d = attr_key(di.char_length);
    key.append(&mut a);
    key.append(&mut b);
    key.append(&mut c);
    key.append(&mut d);
    key
}

fn two_bytes_at(key: &[u8], at: usize) -> (x: u16)
    requires
        at <= 14,
        at + 2 <= key@.len(),
    ensures
        x == be_value(key@.subrange(at as int, at + 2)),
{
    let part = slice_subrange(key, at, at + 2);
    proof {
        lemma_two_bytes(part@);
    }
    decode_be(part) as u16
}

/// The occurrence that a key stands for: `None` for a byte string that is
/// not sixteen bytes long, and so is no such key.
pub fn doc_index_of_key(key: &[u8]) -> (r: Option<DocIndex>)
    ensures
        key@.len() != 16 ==> r is None,
        key@.len() == 16 ==> r == Some(doc_index_of_key_spec(key@)) && doc_index_key_spec(
            r.unwrap(),
        ) == key@,
{
    if key.len() != 16 {
        return None;
    }
    let document_id = decode_be(slice_subrange(key, 0, 8));
    let attribute = two_bytes_at(key, 8);
    let word_index = two_bytes_at(key, 10);
    let char_index = two_bytes_at(key, 12);
    let char_length = two_bytes_at(key, 14);
    proof {
        lemma_doc_index_of_key(key@);
    }
    Some(DocIndex { document_id, attribute, word_index, char_index, char_length })
}

/// The attribute that a key stands for: `None` for a byte string that is not
/// two bytes long, and so is no such key.
pub fn attr_of_key(key: &[u8]) -> (r: Option<u16>)
    ensures
        match r {
            Some(attr) => attr_key_spec(attr) == key@,
            None => key@.len() != 2,
        },
        forall|attr: u16| key@ == #[trigger] attr_key_spec(attr) ==> r == Some(attr),
{
    proof {
        assert forall|attr: u16| key@ == #[trigger] attr_key_spec(attr) implies key@.len() == 2
            && be_value(key@) == attr by {
            lemma_attr_key(attr);
        }
    }
    if key.len() != 2 {
        return None;
    }
    proof {
        lemma_two_bytes(key@);
    }
    Some(decode_be(key) as u16)
}

/// The document and the attribute that the key of a field stands for: `None`
/// for a byte string that is not ten bytes long, and so is no such key.
pub fn field_of_key(key: &[u8]) -> (r: Option<(u64, u16)>)
    ensures
        match r {
            Some((id, attr)) => key@.len() == 10 && field_key_spec(id, attr) == key@,
            None => key@.len() != 10,
        },
        forall|id: u64, attr: u16| key@ == #[trigger] field_key_spec(id, attr) ==> r == Some(
            (id, attr),
        ),
{
    proof {
        assert forall|id: u64, attr: u16| key@ == #[trigger] field_key_spec(id, attr) implies key@.len()
            == 10 by {
            lemma_field_key(id, attr, id, attr);
        }
    }
    if key.len() != 10 {
        return None;
    }
    let id = decode_be(slice_subrange(key, 0, 8));
    let attr = two_bytes_at(key, 8);
    proof {
        let a = key@.subrange(0, 8);
        let b = key@.subrange(8, 10);
        lemma_eight_bytes(a);
        lemma_two_bytes(b);
        assert(key@ =~= a + b);
        assert(field_key_spec(id, attr) == key@);
        assert forall|i: u64, t: u16| key@ == #[trigger] field_key_spec(i, t) implies i == id && t
            == attr by {
            lemma_field_key(i, t, id, attr);
        }
    }
    Some((id, attr))
}

/// Packs the postings of a term for the store: the key of each occurrence,
/// one after the other.
pub fn pack_postings(list: &Vec<DocIndex>) -> (bytes: Vec<u8>)
    ensures
        bytes@ == packed_postings(list@),
{
    let mut out: Vec<u8> = Vec::new();
    let mut i: usize = 0;
    while i < list.len()
        invariant
            i <= list@.len(),
            out@ == packed_postings(list@.subrange(0, i as int)),
        decreases list@.len() - i,
    {
        let mut key = doc_index_key(&list[i]);
        out.append(&mut key);
        proof {
            let a = list@.subrange(0, i as int);
            let b = list@.subrange(0, i + 1);
            assert(b.drop_last() =~= a);
            assert(b.last() == list@[i as int]);
        }
        i = i + 1;
    }
    proof {
        assert(list@.subrange(0, i as int) =~= list@);
    }
    out
}

/// Unpacks stored postings: the occurrences whose keys the bytes are, in
/// their order. `None` exactly where the bytes are no whole number of keys.
pub fn unpack_postings(bytes: &[u8]) -> (r: Option<Vec<DocIndex>>)
    ensures
        r is Some <==> bytes@.len() % 16 == 0,
        r is Some ==> packed_postings(r->0@) == bytes@,
        forall|l: Seq<DocIndex>| bytes@ == #[trigger] packed_postings(l) ==> r is Some && r->0@
            == l,
{
    proof {
        assert forall|l: Seq<DocIndex>| bytes@ == #[trigger] packed_postings(l) implies bytes@.len()
            % 16 == 0 by {
            lemma_packed_postings_len(l);
        }
    }
    if bytes.len() % 16 != 0 {
        return None;
    }
    let mut out: Vec<DocIndex> = Vec::new();
    let mut i: usize = 0;
    while i < bytes.len()
        invariant
            i <= bytes@.len(),
            bytes@.len() % 16 == 0,
            i % 16 == 0,
            packed_postings(out@) == bytes@.subrange(0, i as int),
        decreases bytes@.len() - i,
    {
        let key = slice_subrange(bytes, i, i + 16);
        let di = match doc_index_of_key(key) {
            Some(di) => di,
            None => vstd::pervasive::unreached(),
        };
        let ghost before = out@;
        out.push(di);
        proof {
            assert(out@.drop_last() =~= before);
            assert(out@.last() == di);
            assert(bytes@.subrange(0, i + 16) =~= bytes@.subrange(0, i as int) + key@);
        }
        i = i + 16;
    }
    proof {
        assert(bytes@.subrange(0, i as int) =~= bytes@);
        assert forall|l: Seq<DocIndex>| bytes@ == #[trigger] packed_postings(l) implies out@
            == l by {
            lemma_packed_postings_injective(out@, l);
        }
    }
    Some(out)
}

} // verus!
