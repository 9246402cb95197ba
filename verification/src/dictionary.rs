//! The dictionaries that readers query: finite-state sets of the terms that
//! have postings and of the sources that have synonyms. The automata are those
//! of the `fst` crate; this module states what the index relies on.

use vstd::prelude::*;
use crate::bytes::{byte_strings, strictly_increasing};

verus! {

/// `fst::Set`: a set of byte strings, held as a finite-state automaton. What
/// is inside is not read here.
#[verifier::external_type_specification]
#[verifier::external_body]
pub struct ExFstSet(fst::Set);

/// `fst::Error`: why a set could not be built. It is carried, never read.
#[verifier::external_type_specification]
#[verifier::external_body]
pub struct ExFstError(fst::Error);

/// The keys of a set, in the lexicographic order in which it streams them.
pub uninterp spec fn fst_terms(set: fst::Set) -> Seq<Seq<u8>>;

/// `fst::Set::from_iter`: builds a set from keys in lexicographic order. The
/// builder refuses a key that comes before the one it saw last, and nothing
/// else; the set then holds the keys it was given. Stated here for keys that
/// are strictly increasing: the set is built, and its keys are those.
#[verifier::external_body]
pub(crate) fn fst_from_terms(terms: &Vec<Vec<u8>>) -> (r: Result<fst::Set, fst::Error>)
    ensures
        strictly_increasing(byte_strings(terms@)) ==> r is Ok && fst_terms(r->Ok_0)
            == byte_strings(terms@),
{
    fst::Set::from_iter(terms.iter())
}

/// `fst::Set::len`: the number of keys in the set.
#[verifier::external_body]
pub(crate) fn fst_len(set: &fst::Set) -> (n: usize)
    ensures
        n == fst_terms(*set).len(),
{
    set.len()
}

/// `fst::Set::contains`: whether the key is in the set.
#[verifier::external_body]
pub(crate) fn fst_contains(set: &fst::Set, key: &[u8]) -> (b: bool)
    ensures
        b == fst_terms(*set).contains(key@),
{
    set.contains(key)
}

/// The dictionary of the keys `terms`, which come in strictly increasing
/// order.
pub(crate) fn build_dictionary(terms: &Vec<Vec<u8>>) -> (set: fst::Set)
    requires
        strictly_increasing(byte_strings(terms@)),
    ensures
        fst_terms(set) == byte_strings(terms@),
{
    match fst_from_terms(terms) {
        Ok(set) => set,
        Err(_) => vstd::pervasive::unreached(),
    }
}

} // verus!
