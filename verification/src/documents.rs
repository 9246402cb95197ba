//! The stored fields of the documents: the raw bytes of each attribute, kept
//! under the document they belong to.

use vstd::prelude::*;
use crate::bytes::{byte_strings, strictly_increasing};
use crate::docindex::{
    attr_key, attr_key_spec, document_key, document_key_spec, lemma_attr_key, lemma_eight_bytes,
    lemma_two_bytes,
};
use crate::keys::{be_value, lemma_update_key_order};
use crate::tree::Tree;

verus! {

/// The fields of every document, by document and attribute.
pub struct DocumentsIndex {
    tree: Tree<Tree<Vec<u8>>>,
}

impl DocumentsIndex {
    /// The index is well formed: every document that is kept has a field, and
    /// every key is the key of a document or of an attribute.
    pub closed spec fn wf(&self) -> bool {
        &&& self.tree.wf()
        &&& forall|dk: Seq<u8>| #[trigger]
            self.tree@.contains_key(dk) ==> self.tree@[dk].wf() && self.tree@[dk].keys().len() > 0
                && dk.len() == 8
        &&& forall|dk: Seq<u8>, ak: Seq<u8>|
            self.tree@.contains_key(dk) && #[trigger] self.tree@[dk]@.contains_key(ak) ==> ak.len()
                == 2
    }

    /// The bytes of attribute `attr` of document `id`, if that field is kept.
    pub closed spec fn field(&self, id: u64, attr: u16) -> Option<Seq<u8>> {
        let dk = document_key_spec(id);
        let ak = attr_key_spec(attr);
        if self.tree@.contains_key(dk) && self.tree@[dk]@.contains_key(ak) {
            Some(self.tree@[dk]@[ak]@)
        } else {
            None
        }
    }

    /// The keys of the documents that have a field kept, in increasing order.
    pub closed spec fn document_keys(&self) -> Seq<Seq<u8>> {
        self.tree.keys()
    }

    /// Document `id` has a field kept.
    pub closed spec fn has_document(&self, id: u64) -> bool {
        self.document_keys().contains(document_key_spec(id))
    }

    /// The keys of the documents come each once; each is the key of a
    /// document; and a document is among them exactly where it has a field.
    pub proof fn lemma_documents(&self)
        requires
            self.wf(),
        ensures
            strictly_increasing(self.document_keys()),
            forall|k: Seq<u8>|
                self.document_keys().contains(k) ==> exists|id: u64|
                    k == #[trigger] document_key_spec(id),
            forall|id: u64| #[trigger]
                self.has_document(id) <==> self.document_keys().contains(document_key_spec(id)),
            forall|id: u64| #[trigger]
                self.has_document(id) <==> exists|attr: u16| #[trigger]
                    self.field(id, attr) is Some,
    {
        assert forall|k: Seq<u8>| self.document_keys().contains(k) implies exists|id: u64|
            k == #[trigger] document_key_spec(id) by {
            assert(self.tree@.contains_key(k));
            lemma_eight_bytes(k);
            assert(k == document_key_spec(be_value(k) as u64));
        }
        assert forall|id: u64| #[trigger]
            self.has_document(id) <==> exists|attr: u16| #[trigger]
                self.field(id, attr) is Some by {
            let dk = document_key_spec(id);
            if self.has_document(id) {
                assert(self.tree@.contains_key(dk));
                let inner = self.tree@[dk];
                inner.lemma_entry(0);
                let ak = inner.keys()[0];
                assert(inner@.contains_key(ak));
                lemma_two_bytes(ak);
                let attr = be_value(ak) as u16;
                assert(self.field(id, attr) is Some);
            }
        }
    }

    /// An index without documents.
    pub fn new() -> (d: Self)
        ensures
            d.wf(),
            d.document_keys().len() == 0,
            forall|id: u64| !(#[trigger] d.has_document(id)),
            forall|id: u64, attr: u16| (#[trigger] d.field(id, attr)) is None,
    {
        DocumentsIndex { tree: Tree::new() }
    }

    /// The number of documents that have a field kept.
    pub fn len(&self) -> (n: usize)
        requires
            self.wf(),
        ensures
            n == self.document_keys().len(),
    {
        self.tree.len()
    }

    /// The keys of the documents that have a field kept, in increasing order.
    pub fn document_key_list(&self) -> (l: &Vec<Vec<u8>>)
        requires
            self.wf(),
        ensures
            byte_strings(l@) == self.document_keys(),
            strictly_increasing(byte_strings(l@)),
    {
        self.tree.key_list()
    }

    /// The bytes of attribute `attr` of document `id`.
    pub fn get_field(&self, id: u64, attr: u16) -> (r: Option<&Vec<u8>>)
        requires
            self.wf(),
        ensures
            match r {
                Some(bytes) => self.field(id, attr) == Some(bytes@),
                None => self.field(id, attr) is None,
            },
    {
        let dk = document_key(id);
        match self.tree.get(dk.as_slice()) {
            None => None,
            Some(fields) => {
                let ak = attr_key(attr);
                fields.get(ak.as_slice())
            },
        }
    }

    /// The fields of document `id`, by the key of their attribute: `None`
    /// where the document has no field kept.
    pub fn fields(&self, id: u64) -> (r: Option<&Tree<Vec<u8>>>)
        requires
            self.wf(),
        ensures
            r is Some <==> self.has_document(id),
            r is Some ==> r->0.wf() && forall|attr: u16| #[trigger]
                self.field(id, attr) == if r->0@.contains_key(attr_key_spec(attr)) {
                    Some(r->0@[attr_key_spec(attr)]@)
                } else {
                    None
                },
    {
        let dk = document_key(id);
        self.tree.get(dk.as_slice())
    }

    /// Keeps `value` as attribute `attr` of document `id`.
    pub fn set_field(&mut self, id: u64, attr: u16, value: Vec<u8>)
        requires
            old(self).wf(),
        ensures
            final(self).wf(),
            forall|i: u64, a: u16| #[trigger]
                final(self).field(i, a) == if i == id && a == attr {
                    Some(value@)
                } else {
                    old(self).field(i, a)
                },
            forall|i: u64|
                #![trigger final(self).has_document(i)]
                #![trigger old(self).has_document(i)]
                final(self).has_document(i) <==> i == id || old(self).has_document(i),
    {
        let dk = document_key(id);
        let ak = attr_key(attr);
        let ghost dkv = dk@;
        let mut fields = match self.tree.remove(dk.as_slice()) {
            Some(fields) => fields,
            None => Tree::new(),
        };
        let _ = fields.insert(ak, value);
        proof {
            assert(fields@.contains_key(attr_key_spec(attr)));
            if fields.keys().len() == 0 {
                fields.lemma_dom();
            }
        }
        let _ = self.tree.insert(dk, fields);
        proof {
            assert forall|i: u64, a: u16| #[trigger]
                self.field(i, a) == if i == id && a == attr {
                    Some(value@)
                } else {
                    old(self).field(i, a)
                } by {
                lemma_update_key_order(i, id);
                lemma_attr_key(a);
                lemma_attr_key(attr);
            }
            assert forall|i: u64|
                #![trigger self.has_document(i)]
                #![trigger old(self).has_document(i)]
                self.has_document(i) <==> i == id || old(self).has_document(i) by {
                lemma_update_key_order(i, id);
                let k = document_key_spec(i);
                assert(self.tree@.contains_key(k) == self.tree.keys().contains(k));
                assert(old(self).tree@.contains_key(k) == old(self).tree.keys().contains(k));
            }
        }
    }

    /// Forgets every field of document `id`.
    pub fn del_document(&mut self, id: u64)
        requires
            old(self).wf(),
        ensures
            final(self).wf(),
            forall|i: u64, a: u16| #[trigger]
                final(self).field(i, a) == if i == id {
                    None
                } else {
                    old(self).field(i, a)
                },
            forall|i: u64|
                #![trigger final(self).has_document(i)]
                #![trigger old(self).has_document(i)]
                final(self).has_document(i) <==> i != id && old(self).has_document(i),
    {
        let dk = document_key(id);
        let _ = self.tree.remove(dk.as_slice());
        proof {
            assert forall|i: u64, a: u16| #[trigger]
                self.field(i, a) == if i == id {
                    None
                } else {
                    old(self).field(i, a)
                } by {
                lemma_update_key_order(i, id);
            }
            assert forall|i: u64|
                #![trigger self.has_document(i)]
                #![trigger old(self).has_document(i)]
                self.has_document(i) <==> i != id && old(self).has_document(i) by {
                lemma_update_key_order(i, id);
                let k = document_key_spec(i);
                assert(self.tree@.contains_key(k) == self.tree.keys().contains(k));
                assert(old(self).tree@.contains_key(k) == old(self).tree.keys().contains(k));
            }
        }
    }
}

} // verus!
