//! Ordered sets of byte strings, and maps from a key to such a set: the shape
//! of the postings of a term, of the words of a document and of the
//! alternatives of a synonym.

use vstd::prelude::*;
use vstd::slice::slice_to_vec;
use crate::bytes::{byte_strings, is_prefix, strictly_increasing};
use crate::tree::Tree;

verus! {

/// A set of byte strings, kept in lexicographic order.
pub struct ByteSet {
    tree: Tree<()>,
}

impl ByteSet {
    /// The set is well formed.
    pub closed spec fn wf(&self) -> bool {
        self.tree.wf()
    }

    /// The members of the set.
    pub closed spec fn view(&self) -> Set<Seq<u8>> {
        self.tree@.dom()
    }

    /// The members in increasing order.
    pub closed spec fn items(&self) -> Seq<Seq<u8>> {
        self.tree.keys()
    }

    /// The members in order are the members of the set, each once.
    pub proof fn lemma_items(&self)
        requires
            self.wf(),
        ensures
            strictly_increasing(self.items()),
            self@ =~= self.items().to_set(),
            self@.finite(),
            self@.len() == self.items().len(),
            self.items().len() == 0 <==> self@ =~= Set::<Seq<u8>>::empty(),
    {
        self.tree.lemma_dom();
        if self.items().len() > 0 {
            self.tree.lemma_entry(0);
        }
    }

    /// The empty set.
    pub fn new() -> (s: Self)
        ensures
            s.wf(),
            s@ == Set::<Seq<u8>>::empty(),
            s.items().len() == 0,
    {
        let s = ByteSet { tree: Tree::new() };
        proof {
            assert(s@ =~= Set::<Seq<u8>>::empty());
        }
        s
    }

    /// The number of members.
    pub fn len(&self) -> (n: usize)
        requires
            self.wf(),
        ensures
            n == self.items().len(),
            n == self@.len(),
    {
        self.tree.len()
    }

    /// Whether the set has no member.
    pub fn is_empty(&self) -> (b: bool)
        requires
            self.wf(),
        ensures
            b == (self.items().len() == 0),
            b == (self@ =~= Set::<Seq<u8>>::empty()),
    {
        proof {
            self.lemma_items();
        }
        self.tree.is_empty()
    }

    /// Whether `item` is a member.
    pub fn contains(&self, item: &[u8]) -> (b: bool)
        requires
            self.wf(),
        ensures
            b == self@.contains(item@),
    {
        self.tree.contains_key(item)
    }

    /// Adds `item`; `true` where it was no member before.
    pub fn insert(&mut self, item: Vec<u8>) -> (added: bool)
        requires
            old(self).wf(),
        ensures
            final(self).wf(),
            final(self)@ == old(self)@.insert(item@),
            added == !old(self)@.contains(item@),
            final(self).items().len() > 0,
    {
        let prev = self.tree.insert(item, ());
        proof {
            assert(self@ =~= old(self)@.insert(item@));
            self.lemma_items();
            assert(self@.contains(item@));
        }
        prev.is_none()
    }

    /// Takes `item` out; `true` where it was a member.
    pub fn remove(&mut self, item: &[u8]) -> (removed: bool)
        requires
            old(self).wf(),
        ensures
            final(self).wf(),
            final(self)@ == old(self)@.remove(item@),
            removed == old(self)@.contains(item@),
    {
        let prev = self.tree.remove(item);
        proof {
            assert(self@ =~= old(self)@.remove(item@));
        }
        prev.is_some()
    }

    /// Takes out every member that begins with `prefix`.
    pub fn remove_prefix(&mut self, prefix: &[u8])
        requires
            old(self).wf(),
        ensures
            final(self).wf(),
            final(self)@ == old(self)@.filter(|k: Seq<u8>| !is_prefix(prefix@, k)),
    {
        self.tree.remove_prefix(prefix);
        proof {
            assert(self@ =~= old(self)@.filter(|k: Seq<u8>| !is_prefix(prefix@, k)));
        }
    }

    /// The members in increasing order.
    pub fn as_list(&self) -> (l: &Vec<Vec<u8>>)
        requires
            self.wf(),
        ensures
            byte_strings(l@) == self.items(),
            strictly_increasing(byte_strings(l@)),
            byte_strings(l@).to_set() =~= self@,
    {
        proof {
            self.lemma_items();
        }
        self.tree.key_list()
    }
}

/// A map from a key to a set of byte strings that is not empty: a key
/// without members has no entry.
pub struct MultiMap {
    tree: Tree<ByteSet>,
}

impl MultiMap {
    /// The map is well formed: keys in order, each with a well-formed set that
    /// has a member.
    pub closed spec fn wf(&self) -> bool {
        &&& self.tree.wf()
        &&& forall|k: Seq<u8>| #[trigger]
            self.tree@.contains_key(k) ==> self.tree@[k].wf() && self.tree@[k].items().len() > 0
    }

    /// The keys that have members, in increasing order.
    pub closed spec fn keys(&self) -> Seq<Seq<u8>> {
        self.tree.keys()
    }

    /// The members of `k`: the empty set where `k` has no entry.
    pub closed spec fn members(&self, k: Seq<u8>) -> Set<Seq<u8>> {
        if self.tree@.contains_key(k) {
            self.tree@[k]@
        } else {
            Set::empty()
        }
    }

    /// The keys are those that have a member, each once and in order.
    pub proof fn lemma_keys(&self)
        requires
            self.wf(),
        ensures
            strictly_increasing(self.keys()),
            forall|k: Seq<u8>|
                self.keys().contains(k) <==> !(#[trigger] self.members(k) =~= Set::<
                    Seq<u8>,
                >::empty()),
            forall|k: Seq<u8>| (#[trigger] self.members(k)).finite(),
    {
        assert forall|k: Seq<u8>|
            self.keys().contains(k) <==> !(#[trigger] self.members(k) =~= Set::<
                Seq<u8>,
            >::empty()) by {
            if self.tree@.contains_key(k) {
                self.tree@[k].lemma_items();
            }
        }
        assert forall|k: Seq<u8>| (#[trigger] self.members(k)).finite() by {
            if self.tree@.contains_key(k) {
                self.tree@[k].lemma_items();
            }
        }
    }

    /// The empty map.
    pub fn new() -> (m: Self)
        ensures
            m.wf(),
            m.keys().len() == 0,
            forall|k: Seq<u8>| (#[trigger] m.members(k)) == Set::<Seq<u8>>::empty(),
    {
        MultiMap { tree: Tree::new() }
    }

    /// The number of keys that have members.
    pub fn len(&self) -> (n: usize)
        requires
            self.wf(),
        ensures
            n == self.keys().len(),
    {
        self.tree.len()
    }

    /// The set of `key`, if it has members.
    pub fn get(&self, key: &[u8]) -> (r: Option<&ByteSet>)
        requires
            self.wf(),
        ensures
            r is Some <==> self.keys().contains(key@),
            r is Some ==> r->0.wf() && r->0@ == self.members(key@) && r->0.items().len() > 0,
            r is None ==> self.members(key@) == Set::<Seq<u8>>::empty(),
    {
        self.tree.get(key)
    }

    /// The keys that have members, in increasing order.
    pub fn key_list(&self) -> (l: &Vec<Vec<u8>>)
        requires
            self.wf(),
        ensures
            byte_strings(l@) == self.keys(),
            strictly_increasing(byte_strings(l@)),
    {
        self.tree.key_list()
    }

    /// Adds `item` to the members of `key`.
    pub fn insert(&mut self, key: &[u8], item: Vec<u8>)
        requires
            old(self).wf(),
        ensures
            final(self).wf(),
            forall|k: Seq<u8>| #[trigger]
                final(self).members(k) == if k == key@ {
                    old(self).members(k).insert(item@)
                } else {
                    old(self).members(k)
                },
    {
        let mut set = match self.tree.remove(key) {
            Some(set) => set,
            None => ByteSet::new(),
        };
        let _ = set.insert(item);
        let _ = self.tree.insert(slice_to_vec(key), set);
    }

    /// Takes `item` from the members of `key`.
    pub fn remove_item(&mut self, key: &[u8], item: &[u8])
        requires
            old(self).wf(),
        ensures
            final(self).wf(),
            forall|k: Seq<u8>| #[trigger]
                final(self).members(k) == if k == key@ {
                    old(self).members(k).remove(item@)
                } else {
                    old(self).members(k)
                },
    {
        match self.tree.remove(key) {
            Some(set) => {
                let mut set = set;
                let _ = set.remove(item);
                if !set.is_empty() {
                    let _ = self.tree.insert(slice_to_vec(key), set);
                }
            },
            None => {
                proof {
                    assert(old(self).members(key@).remove(item@) =~= old(self).members(key@));
                }
            },
        }
    }

    /// Takes from the members of `key` every one that begins with `prefix`.
    pub fn remove_items_with_prefix(&mut self, key: &[u8], prefix: &[u8])
        requires
            old(self).wf(),
        ensures
            final(self).wf(),
            forall|k: Seq<u8>| #[trigger]
                final(self).members(k) == if k == key@ {
                    old(self).members(k).filter(|m: Seq<u8>| !is_prefix(prefix@, m))
                } else {
                    old(self).members(k)
                },
    {
        match self.tree.remove(key) {
            Some(set) => {
                let mut set = set;
                set.remove_prefix(prefix);
                if !set.is_empty() {
                    let _ = self.tree.insert(slice_to_vec(key), set);
                }
            },
            None => {
                proof {
                    assert(old(self).members(key@).filter(|m: Seq<u8>| !is_prefix(prefix@, m))
                        =~= old(self).members(key@));
                }
            },
        }
    }

    /// Takes out `key` with all its members.
    pub fn remove_key(&mut self, key: &[u8])
        requires
            old(self).wf(),
        ensures
            final(self).wf(),
            forall|k: Seq<u8>| #[trigger]
                final(self).members(k) == if k == key@ {
                    Set::<Seq<u8>>::empty()
                } else {
                    old(self).members(k)
                },
    {
        let _ = self.tree.remove(key);
    }
}

} // verus!
