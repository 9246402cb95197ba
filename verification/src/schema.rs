//! The schema of an index: the attributes of its documents, and what is done
//! with each. It is written once, when the index is created, and never
//! changes.

use vstd::prelude::*;
use crate::update::AttrId;

verus! {

/// What is done with an attribute.
#[derive(Clone, Copy, Debug, PartialEq, Eq, Structural)]
pub struct SchemaProps {
    pub stored: bool,
    pub indexed: bool,
    pub ranked: bool,
}

/// The attributes of the documents of an index, in the order of their ids,
/// and the name of the attribute that identifies a document.
#[derive(Debug)]
pub struct Schema {
    identifier: String,
    attributes: Vec<(String, SchemaProps)>,
}

/// What a `Schema` holds, as mathematical values.
pub struct SchemaView {
    pub identifier: Seq<char>,
    pub attributes: Seq<(Seq<char>, SchemaProps)>,
}

/// What can go wrong when an index is opened or read.
#[derive(Clone, Copy, Debug, PartialEq, Eq, Structural)]
pub enum IndexError {
    /// The index was opened with a schema that is not the one it was created
    /// with.
    SchemaDiffer,
    /// The index was opened without a schema, and has none.
    SchemaMissing,
    /// A stored value is not the encoding of anything.
    EncodingFailure,
    /// The store cannot take what it is given.
    StorageFailure,
}

/// The names and properties that a list of attributes holds.
pub open spec fn attributes_view(l: Seq<(String, SchemaProps)>) -> Seq<(Seq<char>, SchemaProps)> {
    Seq::new(l.len(), |i: int| (l[i].0@, l[i].1))
}

impl View for Schema {
    type V = SchemaView;

    closed spec fn view(&self) -> SchemaView {
        SchemaView { identifier: self.identifier@, attributes: attributes_view(self.attributes@) }
    }
}

impl SchemaView {
    /// The number of attributes that have an id.
    pub open spec fn limit(self) -> int {
        if self.attributes.len() < 0x1_0000 {
            self.attributes.len() as int
        } else {
            0x1_0000
        }
    }

    /// The attribute at place `i` is the first one called `name`.
    pub open spec fn first_named(self, name: Seq<char>, i: int) -> bool {
        &&& 0 <= i < self.limit()
        &&& self.attributes[i].0 == name
        &&& forall|j: int| 0 <= j < i ==> (#[trigger] self.attributes[j]).0 != name
    }

    /// The id of the first attribute called `name`, if there is one.
    pub open spec fn attribute(self, name: Seq<char>) -> Option<AttrId> {
        if exists|i: int| self.first_named(name, i) {
            Some((choose|i: int| self.first_named(name, i)) as AttrId)
        } else {
            None
        }
    }
}

impl Schema {
    /// A schema without attributes, whose documents are identified by the
    /// attribute called `identifier`.
    pub fn new(identifier: String) -> (s: Self)
        ensures
            s@.identifier == identifier@,
            s@.attributes == Seq::<(Seq<char>, SchemaProps)>::empty(),
    {
        let s = Schema { identifier, attributes: Vec::new() };
        proof {
            assert(s@.attributes =~= Seq::<(Seq<char>, SchemaProps)>::empty());
        }
        s
    }

    /// Adds an attribute, which gets the next id: `None` where every id is
    /// taken.
    pub fn add_attribute(&mut self, name: String, props: SchemaProps) -> (id: Option<AttrId>)
        ensures
            final(self)@.identifier == old(self)@.identifier,
            match id {
                Some(id) => id == old(self)@.attributes.len() && final(self)@.attributes == old(
                    self,
                )@.attributes.push((name@, props)),
                None => old(self)@.attributes.len() >= 0x1_0000 && final(self)@ == old(self)@,
            },
    {
        let n = self.attributes.len();
        if n >= 0x1_0000 {
            return None;
        }
        self.attributes.push((name, props));
        proof {
            assert(self@.attributes =~= old(self)@.attributes.push((name@, props)));
        }
        Some(n as AttrId)
    }

    /// The number of attributes.
    pub fn len(&self) -> (n: usize)
        ensures
            n == self@.attributes.len(),
    {
        self.attributes.len()
    }

    /// The name of the attribute that identifies a document.
    pub fn identifier(&self) -> (name: &String)
        ensures
            name@ == self@.identifier,
    {
        &self.identifier
    }

    /// The name of attribute `id`, if the schema has it.
    pub fn name(&self, id: AttrId) -> (r: Option<&String>)
        ensures
            match r {
                Some(name) => (id as int) < self@.attributes.len() && name@
                    == self@.attributes[id as int].0,
                None => (id as int) >= self@.attributes.len(),
            },
    {
        if (id as usize) < self.attributes.len() {
            Some(&self.attributes[id as usize].0)
        } else {
            None
        }
    }

    /// The properties of attribute `id`, if the schema has it.
    pub fn props(&self, id: AttrId) -> (r: Option<SchemaProps>)
        ensures
            r == if (id as int) < self@.attributes.len() {
                Some(self@.attributes[id as int].1)
            } else {
                None
            },
    {
        if (id as usize) < self.attributes.len() {
            Some(self.attributes[id as usize].1)
        } else {
            None
        }
    }

    /// The id of the attribute called `name`: `None` where the schema has no
    /// such attribute.
    pub fn attribute(&self, name: &String) -> (r: Option<AttrId>)
        ensures
            r == self@.attribute(name@),
    {
        let mut i: usize = 0;
        while i < self.attributes.len() && i < 0x1_0000
            invariant
                i <= self@.limit(),
                self@.attributes.len() == self.attributes@.len(),
                forall|j: int| 0 <= j < i ==> (#[trigger] self@.attributes[j]).0 != name@,
            decreases self@.limit() - i,
        {
            if self.attributes[i].0 == *name {
                proof {
                    let v = self@;
                    assert(v.attributes[i as int].0 == name@);
                    assert(v.first_named(name@, i as int));
                    let c = choose|c: int| v.first_named(name@, c);
                    if c < i {
                        assert(v.attributes[c].0 != name@);
                    }
                    if i < c {
                        assert(v.attributes[i as int].0 != name@);
                    }
                }
                return Some(i as AttrId);
            }
            i = i + 1;
        }
        proof {
            let v = self@;
            if exists|c: int| v.first_named(name@, c) {
                let c = choose|c: int| v.first_named(name@, c);
                assert(v.attributes[c].0 != name@);
            }
        }
        None
    }

    /// Whether the two schemas are the same.
    pub fn same_as(&self, other: &Schema) -> (b: bool)
        ensures
            b == (self@ == other@),
    {
        if !(self.identifier == other.identifier) {
            return false;
        }
        if self.attributes.len() != other.attributes.len() {
            proof {
                assert(self@.attributes.len() != other@.attributes.len());
            }
            return false;
        }
        let mut i: usize = 0;
        while i < self.attributes.len()
            invariant
                i <= self.attributes@.len(),
                self.attributes@.len() == other.attributes@.len(),
                forall|j: int| 0 <= j < i ==> self@.attributes[j] == other@.attributes[j],
            decreases self.attributes@.len() - i,
        {
            let a = &self.attributes[i];
            let b = &other.attributes[i];
            if !(a.0 == b.0) || a.1.stored != b.1.stored || a.1.indexed != b.1.indexed
                || a.1.ranked != b.1.ranked {
                proof {
                    assert(self@.attributes[i as int] != other@.attributes[i as int]);
                }
                return false;
            }
            i = i + 1;
        }
        proof {
            assert(self@.attributes =~= other@.attributes);
        }
        true
    }
}

impl Clone for Schema {
    fn clone(&self) -> (r: Self)
        ensures
            r@ == self@,
    {
        let mut attributes: Vec<(String, SchemaProps)> = Vec::new();
        let mut i: usize = 0;
        while i < self.attributes.len()
            invariant
                i <= self.attributes@.len(),
                attributes@.len() == i,
                forall|j: int|
                    0 <= j < i ==> (#[trigger] attributes@[j]).0@ == self.attributes@[j].0@
                        && attributes@[j].1 == self.attributes@[j].1,
            decreases self.attributes@.len() - i,
        {
            let a = &self.attributes[i];
            attributes.push((a.0.clone(), a.1));
            i = i + 1;
        }
        let r = Schema { identifier: self.identifier.clone(), attributes };
        proof {
            assert(r@.attributes =~= self@.attributes);
        }
        r
    }
}

/// Settles the schema of an index that is being opened: the schema that the
/// caller expects against the one that is stored. The result is the schema of
/// the index, and whether it has to be written because none was stored.
///
/// An index never changes its schema: a different expectation is refused with
/// `SchemaDiffer`. An index without a schema and without an expectation is
/// refused with `SchemaMissing`.
pub fn resolve_schema(expected: Option<Schema>, current: Option<Schema>) -> (r: Result<
    (Schema, bool),
    IndexError,
>)
    ensures
        match (expected, current) {
            (Some(e), Some(c)) => if e@ == c@ {
                r is Ok && r->Ok_0.0@ == e@ && !r->Ok_0.1
            } else {
                r == Err::<(Schema, bool), IndexError>(IndexError::SchemaDiffer)
            },
            (Some(e), None) => r is Ok && r->Ok_0.0 == e && r->Ok_0.1,
            (None, Some(c)) => r is Ok && r->Ok_0.0 == c && !r->Ok_0.1,
            (None, None) => r == Err::<(Schema, bool), IndexError>(IndexError::SchemaMissing),
        },
{
    match (expected, current) {
        (Some(e), Some(c)) => if c.same_as(&e) {
            Ok((e, false))
        } else {
            Err(IndexError::SchemaDiffer)
        },
        (Some(e), None) => Ok((e, true)),
        (None, Some(c)) => Ok((c, false)),
        (None, None) => Err(IndexError::SchemaMissing),
    }
}

} // verus!
