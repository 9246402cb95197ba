//! The custom settings of an index: bytes that the caller keeps under keys of
//! its own choice.

use vstd::prelude::*;
use crate::bytes::{byte_strings, strictly_increasing};
use crate::tree::Tree;

verus! {

/// The free-form store of an index.
pub struct CustomSettingsIndex {
    tree: Tree<Vec<u8>>,
}

impl CustomSettingsIndex {
    /// The store is well formed.
    pub closed spec fn wf(&self) -> bool {
        self.tree.wf()
    }

    /// The settings as a map.
    pub closed spec fn view(&self) -> Map<Seq<u8>, Seq<u8>> {
        self.tree@.map_values(|v: Vec<u8>| v@)
    }

    /// A store without settings.
    pub fn new() -> (c: Self)
        ensures
            c.wf(),
            c@ == Map::<Seq<u8>, Seq<u8>>::empty(),
    {
        let c = CustomSettingsIndex { tree: Tree::new() };
        proof {
            assert(c@ =~= Map::<Seq<u8>, Seq<u8>>::empty());
        }
        c
    }

    /// The keys that have bytes kept, in increasing order.
    pub fn key_list(&self) -> (l: &Vec<Vec<u8>>)
        requires
            self.wf(),
        ensures
            strictly_increasing(byte_strings(l@)),
            byte_strings(l@).to_set() =~= self@.dom(),
    {
        proof {
            self.tree.lemma_dom();
            assert(self@.dom() =~= self.tree@.dom());
        }
        self.tree.key_list()
    }

    /// The bytes kept under `key`.
    pub fn get(&self, key: &[u8]) -> (r: Option<&Vec<u8>>)
        requires
            self.wf(),
        ensures
            match r {
                Some(value) => self@.contains_key(key@) && self@[key@] == value@,
                None => !self@.contains_key(key@),
            },
    {
        self.tree.get(key)
    }

    /// Keeps `value` under `key`.
    pub fn set(&mut self, key: Vec<u8>, value: Vec<u8>)
        requires
            old(self).wf(),
        ensures
            final(self).wf(),
            final(self)@ == old(self)@.insert(key@, value@),
    {
        let _ = self.tree.insert(key, value);
        proof {
            assert(self@ =~= old(self)@.insert(key@, value@));
        }
    }

    /// Forgets what is kept under `key`.
    pub fn del(&mut self, key: &[u8])
        requires
            old(self).wf(),
        ensures
            final(self).wf(),
            final(self)@ == old(self)@.remove(key@),
    {
        let _ = self.tree.remove(key);
        proof {
            assert(self@ =~= old(self)@.remove(key@));
        }
    }
}

} // verus!
