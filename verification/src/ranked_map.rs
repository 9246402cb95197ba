//! The ranked map: the number by which a ranked attribute of a document
//! counts when results are sorted.

use vstd::prelude::*;
use crate::bytes::{byte_strings, strictly_increasing};
use crate::docindex::{
    document_key, field_key, field_key_spec, lemma_eight_bytes, lemma_field_key, lemma_two_bytes,
};
use crate::keys::be_value;
use crate::tree::Tree;

verus! {

/// The numbers of the ranked attributes, by document and attribute.
pub struct RankedMap {
    tree: Tree<u64>,
}

impl RankedMap {
    /// The map is well formed: every key is the key of a field.
    pub closed spec fn wf(&self) -> bool {
        &&& self.tree.wf()
        &&& forall|k: Seq<u8>| #[trigger] self.tree@.contains_key(k) ==> k.len() == 10
    }

    /// The number of attribute `attr` of document `id`, if it has one.
    pub closed spec fn rank(&self, id: u64, attr: u16) -> Option<u64> {
        let k = field_key_spec(id, attr);
        if self.tree@.contains_key(k) {
            Some(self.tree@[k])
        } else {
            None
        }
    }

    /// The number of entries.
    pub closed spec fn count(&self) -> nat {
        self.tree.keys().len()
    }

    /// A map without entries.
    pub fn new() -> (m: Self)
        ensures
            m.wf(),
            m.count() == 0,
            forall|id: u64, attr: u16| (#[trigger] m.rank(id, attr)) is None,
    {
        RankedMap { tree: Tree::new() }
    }

    /// The number of entries.
    pub fn len(&self) -> (n: usize)
        requires
            self.wf(),
        ensures
            n == self.count(),
    {
        self.tree.len()
    }

    /// The keys of the entries, in increasing order: each the key of a field.
    pub closed spec fn keys(&self) -> Seq<Seq<u8>> {
        self.tree.keys()
    }

    /// The entries are the attributes that have a number, each once.
    pub proof fn lemma_entries(&self)
        requires
            self.wf(),
        ensures
            strictly_increasing(self.keys()),
            self.keys().len() == self.count(),
            forall|id: u64, attr: u16|
                self.keys().contains(field_key_spec(id, attr)) <==> (#[trigger] self.rank(
                    id,
                    attr,
                )) is Some,
            forall|k: Seq<u8>|
                self.keys().contains(k) ==> exists|id: u64, attr: u16|
                    k == #[trigger] field_key_spec(id, attr),
    {
        assert forall|k: Seq<u8>| self.keys().contains(k) implies exists|id: u64, attr: u16|
            k == #[trigger] field_key_spec(id, attr) by {
            assert(self.tree@.contains_key(k));
            let a = k.subrange(0, 8);
            let b = k.subrange(8, 10);
            lemma_eight_bytes(a);
            lemma_two_bytes(b);
            assert(k =~= a + b);
            assert(k == field_key_spec(be_value(a) as u64, be_value(b) as u16));
        }
    }

    /// The keys of the entries, in increasing order, and the number of each.
    pub fn entries(&self) -> (r: (&Vec<Vec<u8>>, Vec<u64>))
        requires
            self.wf(),
        ensures
            byte_strings(r.0@) == self.keys(),
            strictly_increasing(byte_strings(r.0@)),
            r.1@.len() == self.count(),
            forall|id: u64, attr: u16, i: int|
                #![trigger self.rank(id, attr), r.1@[i]]
                0 <= i < self.keys().len() && self.keys()[i] == field_key_spec(id, attr)
                    ==> self.rank(id, attr) == Some(r.1@[i]),
    {
        let keys = self.tree.key_list();
        let mut numbers: Vec<u64> = Vec::new();
        let mut i: usize = 0;
        while i < self.tree.len()
            invariant
                self.tree.wf(),
                i <= self.tree.keys().len(),
                numbers@.len() == i,
                forall|j: int| 0 <= j < i ==> (#[trigger] numbers@[j]) == self.tree.vals()[j],
            decreases self.tree.keys().len() - i,
        {
            numbers.push(*self.tree.value_at(i));
            i = i + 1;
        }
        proof {
            assert forall|id: u64, attr: u16, i: int|
                #![trigger self.rank(id, attr), numbers@[i]]
                0 <= i < self.keys().len() && self.keys()[i] == field_key_spec(id, attr)
                    implies self.rank(id, attr) == Some(numbers@[i]) by {
                self.tree.lemma_entry(i);
            }
        }
        (keys, numbers)
    }

    /// The number of attribute `attr` of document `id`.
    pub fn get(&self, id: u64, attr: u16) -> (r: Option<u64>)
        requires
            self.wf(),
        ensures
            r == self.rank(id, attr),
    {
        let k = field_key(id, attr);
        match self.tree.get(k.as_slice()) {
            Some(n) => Some(*n),
            None => None,
        }
    }

    /// Sets the number of attribute `attr` of document `id`.
    pub fn insert(&mut self, id: u64, attr: u16, number: u64)
        requires
            old(self).wf(),
        ensures
            final(self).wf(),
            forall|i: u64, a: u16| #[trigger]
                final(self).rank(i, a) == if i == id && a == attr {
                    Some(number)
                } else {
                    old(self).rank(i, a)
                },
    {
        let k = field_key(id, attr);
        let _ = self.tree.insert(k, number);
        proof {
            assert forall|i: u64, a: u16| #[trigger]
                self.rank(i, a) == if i == id && a == attr {
                    Some(number)
                } else {
                    old(self).rank(i, a)
                } by {
                lemma_field_key(i, a, id, attr);
            }
        }
    }

    /// Drops the numbers of every attribute of document `id`.
    pub fn remove_document(&mut self, id: u64)
        requires
            old(self).wf(),
        ensures
            final(self).wf(),
            forall|i: u64, a: u16| #[trigger]
                final(self).rank(i, a) == if i == id {
                    None
                } else {
                    old(self).rank(i, a)
                },
    {
        let dk = document_key(id);
        self.tree.remove_prefix(dk.as_slice());
        proof {
            assert forall|i: u64, a: u16| #[trigger]
                self.rank(i, a) == if i == id {
                    None
                } else {
                    old(self).rank(i, a)
                } by {
                lemma_field_key(i, a, id, a);
            }
        }
    }
}

} // verus!
