//! An ordered map from byte-string keys to values: one tree of the store.
//! Keys are kept in lexicographic order, each at most once.

use vstd::prelude::*;
use crate::bytes::{
    byte_strings, compare, is_prefix, starts_with, lemma_lex_asymmetric, lemma_lex_total, lemma_lex_transitive, lex_lt,
    strictly_increasing, Order,
};

verus! {

/// One named tree: its keys in increasing order, and the value of each.
pub struct Tree<V> {
    keys: Vec<Vec<u8>>,
    values: Vec<V>,
}

/// In a strictly increasing sequence a key stands at one place only.
pub proof fn lemma_increasing_distinct(s: Seq<Seq<u8>>, i: int, j: int)
    requires
        strictly_increasing(s),
        0 <= i < s.len(),
        0 <= j < s.len(),
        s[i] == s[j],
    ensures
        i == j,
{
    if i < j {
        lemma_lex_asymmetric(s[i], s[j]);
    } else if j < i {
        lemma_lex_asymmetric(s[j], s[i]);
    }
}

/// What is left of `m` once every key that begins with `prefix` is taken out.
pub open spec fn without_prefix<V>(m: Map<Seq<u8>, V>, prefix: Seq<u8>) -> Map<Seq<u8>, V> {
    m.restrict(Set::new(|k: Seq<u8>| !is_prefix(prefix, k)))
}

impl<V> Tree<V> {
    /// The keys, in increasing order.
    pub closed spec fn keys(&self) -> Seq<Seq<u8>> {
        byte_strings(self.keys@)
    }

    /// The values, each at the place of its key.
    pub closed spec fn vals(&self) -> Seq<V> {
        self.values@
    }

    /// The tree is well formed: one value per key, keys strictly increasing.
    pub open spec fn wf(&self) -> bool {
        &&& self.keys().len() == self.vals().len()
        &&& strictly_increasing(self.keys())
    }

    /// The tree as a map.
    pub open spec fn view(&self) -> Map<Seq<u8>, V> {
        Map::new(
            |k: Seq<u8>| self.keys().contains(k),
            |k: Seq<u8>| self.vals()[self.keys().index_of(k)],
        )
    }

    /// The entry at place `i` is the entry of the map for the key at place `i`.
    pub proof fn lemma_entry(&self, i: int)
        requires
            self.wf(),
            0 <= i < self.keys().len(),
        ensures
            self@.contains_key(self.keys()[i]),
            self@[self.keys()[i]] == self.vals()[i],
    {
        let k = self.keys()[i];
        assert(self.keys().contains(k));
        let j = self.keys().index_of(k);
        lemma_increasing_distinct(self.keys(), i, j);
    }

    /// The map has exactly the keys of the sequence, so it is finite and has
    /// as many entries as the sequence is long.
    pub proof fn lemma_dom(&self)
        requires
            self.wf(),
        ensures
            self@.dom() =~= self.keys().to_set(),
            self@.dom().finite(),
            self@.dom().len() == self.keys().len(),
    {
        assert(self@.dom() =~= self.keys().to_set());
        assert(self.keys().no_duplicates()) by {
            assert forall|i: int, j: int|
                0 <= i < self.keys().len() && 0 <= j < self.keys().len() && i != j implies self.keys()[i]
                != self.keys()[j] by {
                if self.keys()[i] == self.keys()[j] {
                    lemma_increasing_distinct(self.keys(), i, j);
                }
            }
        }
        self.keys().unique_seq_to_set();
    }

    /// An empty tree.
    pub fn new() -> (t: Self)
        ensures
            t.wf(),
            t.keys() == Seq::<Seq<u8>>::empty(),
            t@ == Map::<Seq<u8>, V>::empty(),
    {
        let t = Tree { keys: Vec::new(), values: Vec::new() };
        proof {
            assert(t.keys() =~= Seq::<Seq<u8>>::empty());
            assert(t@ =~= Map::<Seq<u8>, V>::empty());
        }
        t
    }

    /// The number of entries.
    pub fn len(&self) -> (n: usize)
        requires
            self.wf(),
        ensures
            n == self.keys().len(),
            n == self@.dom().len(),
    {
        proof {
            self.lemma_dom();
        }
        self.keys.len()
    }

    /// Whether the tree has no entry.
    pub fn is_empty(&self) -> (b: bool)
        requires
            self.wf(),
        ensures
            b == (self.keys().len() == 0),
            b == (self@ == Map::<Seq<u8>, V>::empty()),
    {
        proof {
            if self.keys().len() == 0 {
                assert(self@ =~= Map::<Seq<u8>, V>::empty());
            } else {
                self.lemma_entry(0);
            }
        }
        self.keys.len() == 0
    }

    /// The key at place `i` in key order.
    pub fn key_at(&self, i: usize) -> (k: &Vec<u8>)
        requires
            self.wf(),
            i < self.keys().len(),
        ensures
            k@ == self.keys()[i as int],
    {
        &self.keys[i]
    }

    /// The value at place `i` in key order.
    pub fn value_at(&self, i: usize) -> (v: &V)
        requires
            self.wf(),
            i < self.keys().len(),
        ensures
            *v == self.vals()[i as int],
            self@.contains_key(self.keys()[i as int]),
            *v == self@[self.keys()[i as int]],
    {
        proof {
            self.lemma_entry(i as int);
        }
        &self.values[i]
    }

    /// The place of the first key that does not come before `key`, and
    /// whether that key is `key` itself.
    fn locate(&self, key: &[u8]) -> (r: (usize, bool))
        requires
            self.wf(),
        ensures
            r.0 <= self.keys().len(),
            forall|j: int| 0 <= j < r.0 ==> lex_lt(#[trigger] self.keys()[j], key@),
            forall|j: int| r.0 < j < self.keys().len() ==> lex_lt(key@, #[trigger] self.keys()[j]),
            r.1 ==> r.0 < self.keys().len() && self.keys()[r.0 as int] == key@,
            !r.1 ==> (r.0 < self.keys().len() ==> lex_lt(key@, self.keys()[r.0 as int])),
            r.1 == self.keys().contains(key@),
    {
        let mut lo: usize = 0;
        let mut hi: usize = self.keys.len();
        let mut found = false;
        while lo < hi
            invariant_except_break
                !found,
            invariant
                self.wf(),
                lo <= hi <= self.keys().len(),
                self.keys().len() == self.keys@.len(),
                forall|j: int| 0 <= j < lo ==> lex_lt(#[trigger] self.keys()[j], key@),
                forall|j: int| hi <= j < self.keys().len() ==> lex_lt(key@, #[trigger] self.keys()[j]),
            ensures
                lo <= self.keys().len(),
                forall|j: int| 0 <= j < lo ==> lex_lt(#[trigger] self.keys()[j], key@),
                forall|j: int| lo < j < self.keys().len() ==> lex_lt(key@, #[trigger] self.keys()[j]),
                found ==> lo < self.keys().len() && self.keys()[lo as int] == key@,
                !found ==> (lo < self.keys().len() ==> lex_lt(key@, self.keys()[lo as int])),
            decreases hi - lo,
        {
            let mid = lo + (hi - lo) / 2;
            let ord = compare(self.keys[mid].as_slice(), key);
            let ghost km = self.keys()[mid as int];
            assert(km == self.keys@[mid as int]@);
            match ord {
                Order::Before => {
                    proof {
                        assert forall|j: int| 0 <= j < mid + 1 implies lex_lt(
                            #[trigger] self.keys()[j],
                            key@,
                        ) by {
                            if j < mid {
                                lemma_lex_transitive(self.keys()[j], km, key@);
                            }
                        }
                    }
                    lo = mid + 1;
                },
                Order::Same => {
                    proof {
                        assert forall|j: int| mid < j < self.keys().len() implies lex_lt(
                            key@,
                            #[trigger] self.keys()[j],
                        ) by {}
                    }
                    lo = mid;
                    found = true;
                    break ;
                },
                Order::After => {
                    proof {
                        lemma_lex_total(km, key@);
                        assert forall|j: int| mid <= j < self.keys().len() implies lex_lt(
                            key@,
                            #[trigger] self.keys()[j],
                        ) by {
                            if mid < j {
                                lemma_lex_transitive(key@, km, self.keys()[j]);
                            }
                        }
                    }
                    hi = mid;
                },
            }
        }
        proof {
            if !found && self.keys().contains(key@) {
                let j = self.keys().index_of(key@);
                if j < lo {
                    lemma_lex_asymmetric(self.keys()[j], key@);
                } else if j > lo {
                    lemma_lex_asymmetric(key@, self.keys()[j]);
                } else {
                    lemma_lex_asymmetric(key@, self.keys()[lo as int]);
                }
            }
        }
        (lo, found)
    }

    /// Whether `key` has an entry.
    pub fn contains_key(&self, key: &[u8]) -> (b: bool)
        requires
            self.wf(),
        ensures
            b == self@.contains_key(key@),
    {
        let (_, found) = self.locate(key);
        found
    }

    /// The value of `key`, if it has one.
    pub fn get(&self, key: &[u8]) -> (r: Option<&V>)
        requires
            self.wf(),
        ensures
            r is Some == self@.contains_key(key@),
            r is Some ==> *r->0 == self@[key@],
    {
        let (i, found) = self.locate(key);
        if found {
            proof {
                self.lemma_entry(i as int);
            }
            Some(&self.values[i])
        } else {
            None
        }
    }

    /// The entry with the lowest key, if the tree has any.
    pub fn first(&self) -> (r: Option<(&Vec<u8>, &V)>)
        requires
            self.wf(),
        ensures
            match r {
                Some((k, v)) => {
                    &&& self.keys().len() > 0
                    &&& k@ == self.keys()[0]
                    &&& self@.contains_key(k@)
                    &&& *v == self@[k@]
                    &&& forall|other: Seq<u8>| #[trigger]
                        self@.contains_key(other) ==> other == k@ || lex_lt(k@, other)
                },
                None => self.keys().len() == 0,
            },
    {
        if self.keys.len() == 0 {
            None
        } else {
            proof {
                self.lemma_entry(0);
                assert forall|k: Seq<u8>| #[trigger] self@.contains_key(k) implies k
                    == self.keys()[0] || lex_lt(self.keys()[0], k) by {
                    let j = self.keys().index_of(k);
                    if j > 0 {
                    }
                }
            }
            Some((&self.keys[0], &self.values[0]))
        }
    }

    /// Sets the value of `key`, and hands back the value it had before.
    pub fn insert(&mut self, key: Vec<u8>, value: V) -> (prev: Option<V>)
        requires
            old(self).wf(),
        ensures
            final(self).wf(),
            final(self)@ == old(self)@.insert(key@, value),
            prev is Some == old(self)@.contains_key(key@),
            prev is Some ==> prev->0 == old(self)@[key@],
    {
        let (i, found) = self.locate(key.as_slice());
        let ghost old_keys = self.keys();
        let ghost old_vals = self.vals();
        let ghost old_map = self@;
        if found {
            proof {
                self.lemma_entry(i as int);
            }
            let mut value = value;
            core::mem::swap(&mut self.values[i], &mut value);
            proof {
                assert(self.keys() == old_keys);
                assert(self.vals() == old_vals.update(i as int, self.vals()[i as int]));
                assert forall|k: Seq<u8>| #[trigger] self@.contains_key(k) implies self@[k]
                    == old_map.insert(key@, self.vals()[i as int])[k] by {
                    let j = self.keys().index_of(k);
                    lemma_increasing_distinct(old_keys, i as int, if k == key@ {
                        j
                    } else {
                        i as int
                    });
                }
                assert(self@ =~= old_map.insert(key@, self.vals()[i as int]));
            }
            Some(value)
        } else {
            let ghost kv = key@;
            self.keys.insert(i, key);
            self.values.insert(i, value);
            proof {
                let new_keys = self.keys();
                assert(new_keys =~= old_keys.insert(i as int, kv));
                assert(self.vals() =~= old_vals.insert(i as int, value));
                assert forall|a: int, b: int| 0 <= a < b < new_keys.len() implies lex_lt(
                    #[trigger] new_keys[a],
                    #[trigger] new_keys[b],
                ) by {
                    if a < i && b > i {
                        assert(new_keys[b] == old_keys[b - 1]);
                    } else if a < i && b == i {
                    } else if a < i && b < i {
                    } else if a == i {
                        assert(new_keys[b] == old_keys[b - 1]);
                        if b - 1 > i {
                        }
                    } else {
                        assert(new_keys[a] == old_keys[a - 1]);
                        assert(new_keys[b] == old_keys[b - 1]);
                    }
                }
                assert forall|k: Seq<u8>| new_keys.contains(k) == (k == kv || old_keys.contains(
                    k,
                )) by {
                    if new_keys.contains(k) {
                        let j = new_keys.index_of(k);
                        if j < i {
                            assert(old_keys[j] == k);
                        } else if j > i {
                            assert(old_keys[j - 1] == k);
                        }
                    }
                    if old_keys.contains(k) {
                        let j = old_keys.index_of(k);
                        if j < i {
                            assert(new_keys[j] == k);
                        } else {
                            assert(new_keys[j + 1] == k);
                        }
                    }
                    if k == kv {
                        assert(new_keys[i as int] == k);
                    }
                }
                assert forall|k: Seq<u8>| #[trigger] self@.contains_key(k) implies self@[k]
                    == old_map.insert(kv, value)[k] by {
                    let j = new_keys.index_of(k);
                    if k == kv {
                        lemma_increasing_distinct(new_keys, i as int, j);
                    } else {
                        let jo = old_keys.index_of(k);
                        let jn = if jo < i {
                            jo
                        } else {
                            jo + 1
                        };
                        assert(new_keys[jn] == k);
                        lemma_increasing_distinct(new_keys, jn, j);
                    }
                }
                assert(self@ =~= old_map.insert(kv, value));
            }
            None
        }
    }

    /// Removes the entry at place `i`, and hands back its value.
    fn remove_at(&mut self, i: usize) -> (prev: V)
        requires
            old(self).wf(),
            i < old(self).keys().len(),
        ensures
            final(self).wf(),
            final(self).keys() == old(self).keys().remove(i as int),
            final(self).vals() == old(self).vals().remove(i as int),
            final(self)@ == old(self)@.remove(old(self).keys()[i as int]),
            prev == old(self)@[old(self).keys()[i as int]],
    {
        let ghost old_keys = self.keys();
        let ghost old_vals = self.vals();
        let ghost old_map = self@;
        let ghost key = old_keys[i as int];
        proof {
            self.lemma_entry(i as int);
        }
        let _ = self.keys.remove(i);
        let value = self.values.remove(i);
        proof {
            let new_keys = self.keys();
            assert(new_keys =~= old_keys.remove(i as int));
            assert(self.vals() =~= old_vals.remove(i as int));
            assert forall|a: int, b: int| 0 <= a < b < new_keys.len() implies lex_lt(
                #[trigger] new_keys[a],
                #[trigger] new_keys[b],
            ) by {
                let ao = if a < i {
                    a
                } else {
                    a + 1
                };
                let bo = if b < i {
                    b
                } else {
                    b + 1
                };
                assert(new_keys[a] == old_keys[ao]);
                assert(new_keys[b] == old_keys[bo]);
            }
            assert forall|k: Seq<u8>| new_keys.contains(k) == (k != key && old_keys.contains(
                k,
            )) by {
                if new_keys.contains(k) {
                    let j = new_keys.index_of(k);
                    let jo = if j < i {
                        j
                    } else {
                        j + 1
                    };
                    assert(old_keys[jo] == k);
                    if k == key {
                        lemma_increasing_distinct(old_keys, jo, i as int);
                    }
                }
                if k != key && old_keys.contains(k) {
                    let j = old_keys.index_of(k);
                    if j < i {
                        assert(new_keys[j] == k);
                    } else {
                        assert(new_keys[j - 1] == k);
                    }
                }
            }
            assert forall|k: Seq<u8>| #[trigger] self@.contains_key(k) implies self@[k]
                == old_map.remove(key)[k] by {
                let j = new_keys.index_of(k);
                let jo = if j < i {
                    j
                } else {
                    j + 1
                };
                assert(old_keys[jo] == k);
                lemma_increasing_distinct(old_keys, jo, old_keys.index_of(k));
            }
            assert(self@ =~= old_map.remove(key));
        }
        value
    }

    /// Removes the entry of `key`, and hands back the value it had.
    pub fn remove(&mut self, key: &[u8]) -> (prev: Option<V>)
        requires
            old(self).wf(),
        ensures
            final(self).wf(),
            final(self)@ == old(self)@.remove(key@),
            prev is Some == old(self)@.contains_key(key@),
            prev is Some ==> prev->0 == old(self)@[key@],
    {
        let (i, found) = self.locate(key);
        if found {
            Some(self.remove_at(i))
        } else {
            proof {
                assert(self@ =~= self@.remove(key@));
            }
            None
        }
    }

    /// Removes every entry whose key begins with `prefix`.
    pub fn remove_prefix(&mut self, prefix: &[u8])
        requires
            old(self).wf(),
        ensures
            final(self).wf(),
            final(self)@ == without_prefix(old(self)@, prefix@),
    {
        let mut i: usize = 0;
        while i < self.keys.len()
            invariant
                self.wf(),
                i <= self.keys().len(),
                self.keys().len() == self.keys@.len(),
                forall|j: int| 0 <= j < i ==> !is_prefix(prefix@, #[trigger] self.keys()[j]),
                forall|k: Seq<u8>| #[trigger]
                    self@.contains_key(k) ==> old(self)@.contains_key(k) && self@[k] == old(
                        self,
                    )@[k],
                forall|k: Seq<u8>|
                    old(self)@.contains_key(k) && !is_prefix(prefix@, k)
                        ==> #[trigger] self@.contains_key(k),
            decreases self.keys().len() - i,
        {
            let ghost ki = self.keys()[i as int];
            assert(ki == self.keys@[i as int]@);
            if starts_with(self.keys[i].as_slice(), prefix) {
                let ghost before = self.keys();
                let _ = self.remove_at(i);
                proof {
                    assert forall|j: int| 0 <= j < i implies !is_prefix(
                        prefix@,
                        #[trigger] self.keys()[j],
                    ) by {
                        assert(self.keys()[j] == before[j]);
                    }
                }
            } else {
                i = i + 1;
            }
        }
        proof {
            let target = without_prefix(old(self)@, prefix@);
            assert forall|k: Seq<u8>| self@.contains_key(k) == target.contains_key(k) by {
                if self@.contains_key(k) {
                    let j = self.keys().index_of(k);
                    assert(!is_prefix(prefix@, self.keys()[j]));
                }
            }
            assert(self@ =~= target);
        }
    }

    /// The keys in increasing order.
    pub fn key_list(&self) -> (r: &Vec<Vec<u8>>)
        requires
            self.wf(),
        ensures
            byte_strings(r@) == self.keys(),
            strictly_increasing(byte_strings(r@)),
    {
        &self.keys
    }
}

} // verus!
