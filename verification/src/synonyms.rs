//! The synonyms: for each source token the replacements that may stand for it.

use vstd::prelude::*;
use crate::bytes::{byte_strings, strictly_increasing};
use crate::set::MultiMap;

verus! {

/// The alternatives of every source that has any.
pub struct SynonymsIndex {
    map: MultiMap,
}

impl SynonymsIndex {
    /// The index is well formed.
    pub closed spec fn wf(&self) -> bool {
        self.map.wf()
    }

    /// The alternatives of `source`: the empty set where it has none.
    pub closed spec fn alternatives(&self, source: Seq<u8>) -> Set<Seq<u8>> {
        self.map.members(source)
    }

    /// The sources that have alternatives, in increasing order.
    pub closed spec fn sources(&self) -> Seq<Seq<u8>> {
        self.map.keys()
    }

    /// The sources in order are exactly the sources that have an alternative.
    pub proof fn lemma_sources(&self)
        requires
            self.wf(),
        ensures
            strictly_increasing(self.sources()),
            forall|s: Seq<u8>|
                self.sources().contains(s) <==> !(#[trigger] self.alternatives(s) =~= Set::<
                    Seq<u8>,
                >::empty()),
    {
        self.map.lemma_keys();
    }

    /// An index without synonyms.
    pub fn new() -> (s: Self)
        ensures
            s.wf(),
            s.sources().len() == 0,
            forall|k: Seq<u8>| (#[trigger] s.alternatives(k)) == Set::<Seq<u8>>::empty(),
    {
        SynonymsIndex { map: MultiMap::new() }
    }

    /// The number of sources that have alternatives.
    pub fn len(&self) -> (n: usize)
        requires
            self.wf(),
        ensures
            n == self.sources().len(),
    {
        self.map.len()
    }

    /// The sources that have alternatives, in increasing order.
    pub fn source_list(&self) -> (l: &Vec<Vec<u8>>)
        requires
            self.wf(),
        ensures
            byte_strings(l@) == self.sources(),
            strictly_increasing(byte_strings(l@)),
    {
        self.map.key_list()
    }

    /// The alternatives of `source`, in increasing order: `None` where it has
    /// none.
    pub fn alternatives_to(&self, source: &[u8]) -> (r: Option<&Vec<Vec<u8>>>)
        requires
            self.wf(),
        ensures
            r is Some <==> self.sources().contains(source@),
            r is None ==> self.alternatives(source@) == Set::<Seq<u8>>::empty(),
            r is Some ==> {
                &&& r->0@.len() > 0
                &&& byte_strings(r->0@).to_set() == self.alternatives(source@)
                &&& strictly_increasing(byte_strings(r->0@))
            },
    {
        match self.map.get(source) {
            None => None,
            Some(set) => Some(set.as_list()),
        }
    }

    /// Adds `alternative` to the alternatives of `source`.
    pub fn add_alternative(&mut self, source: &[u8], alternative: Vec<u8>)
        requires
            old(self).wf(),
        ensures
            final(self).wf(),
            forall|s: Seq<u8>| #[trigger]
                final(self).alternatives(s) == if s == source@ {
                    old(self).alternatives(s).insert(alternative@)
                } else {
                    old(self).alternatives(s)
                },
    {
        self.map.insert(source, alternative);
    }

    /// Takes `alternative` from the alternatives of `source`.
    pub fn remove_alternative(&mut self, source: &[u8], alternative: &[u8])
        requires
            old(self).wf(),
        ensures
            final(self).wf(),
            forall|s: Seq<u8>| #[trigger]
                final(self).alternatives(s) == if s == source@ {
                    old(self).alternatives(s).remove(alternative@)
                } else {
                    old(self).alternatives(s)
                },
    {
        self.map.remove_item(source, alternative);
    }

    /// Takes out `source` with all its alternatives.
    pub fn del(&mut self, source: &[u8])
        requires
            old(self).wf(),
        ensures
            final(self).wf(),
            forall|s: Seq<u8>| #[trigger]
                final(self).alternatives(s) == if s == source@ {
                    Set::<Seq<u8>>::empty()
                } else {
                    old(self).alternatives(s)
                },
    {
        self.map.remove_key(source);
    }
}

} // verus!
