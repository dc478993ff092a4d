//! Triples in their interned and human-readable forms.

use vstd::prelude::*;

verus! {

/// A triple of interned ids, valid within one layer chain's dictionaries.
#[derive(Clone, Copy, Debug, PartialEq, Eq, Structural)]
pub struct IdTriple {
    pub subject: u64,
    pub predicate: u64,
    pub object: u64,
}

/// Strict lexicographic order on id triples: by subject, then predicate, then object.
pub open spec fn triple_lt(a: IdTriple, b: IdTriple) -> bool {
    a.subject < b.subject || (a.subject == b.subject && (a.predicate < b.predicate || (a.predicate
        == b.predicate && a.object < b.object)))
}

impl IdTriple {
    /// The triple of the three ids.
    pub fn new(subject: u64, predicate: u64, object: u64) -> (t: IdTriple)
        ensures
            t == (IdTriple { subject, predicate, object }),
    {
        IdTriple { subject, predicate, object }
    }

    /// Whether `self` comes strictly before `other` in (subject, predicate, object) order.
    pub fn precedes(&self, other: &IdTriple) -> (b: bool)
        ensures
            b == triple_lt(*self, *other),
    {
        self.subject < other.subject || (self.subject == other.subject && (self.predicate
            < other.predicate || (self.predicate == other.predicate && self.object
            < other.object)))
    }
}

/// The object of a human-readable triple: a resource node or a literal value.
#[derive(Debug, PartialEq, Eq)]
pub enum ObjectType {
    Node(String),
    Value(String),
}

/// The mathematical form of an [`ObjectType`].
pub enum ObjectView {
    Node(Seq<char>),
    Value(Seq<char>),
}

impl View for ObjectType {
    type V = ObjectView;

    open spec fn view(&self) -> ObjectView {
        match self {
            ObjectType::Node(s) => ObjectView::Node(s@),
            ObjectType::Value(s) => ObjectView::Value(s@),
        }
    }
}

impl ObjectType {
    /// The resource node of that name.
    pub fn node(s: &str) -> (o: ObjectType)
        ensures
            o@ == ObjectView::Node(s@),
    {
        ObjectType::Node(s.to_owned())
    }

    /// The literal value of that text.
    pub fn value(s: &str) -> (o: ObjectType)
        ensures
            o@ == ObjectView::Value(s@),
    {
        ObjectType::Value(s.to_owned())
    }

    /// Whether the two objects carry the same tag and the same text.
    pub fn same(&self, other: &ObjectType) -> (b: bool)
        ensures
            b == (self@ == other@),
    {
        match self {
            ObjectType::Node(a) => match other {
                ObjectType::Node(b) => *a == *b,
                ObjectType::Value(_) => false,
            },
            ObjectType::Value(a) => match other {
                ObjectType::Node(_) => false,
                ObjectType::Value(b) => *a == *b,
            },
        }
    }

    /// An independent copy of this object.
    pub fn duplicate(&self) -> (o: ObjectType)
        ensures
            o@ == self@,
    {
        match self {
            ObjectType::Node(s) => ObjectType::Node(s.clone()),
            ObjectType::Value(s) => ObjectType::Value(s.clone()),
        }
    }
}

/// A triple in its human-readable form.
#[derive(Debug, PartialEq, Eq)]
pub struct StringTriple {
    pub subject: String,
    pub predicate: String,
    pub object: ObjectType,
}

/// The mathematical form of a [`StringTriple`].
pub struct StringTripleView {
    pub subject: Seq<char>,
    pub predicate: Seq<char>,
    pub object: ObjectView,
}

impl View for StringTriple {
    type V = StringTripleView;

    open spec fn view(&self) -> StringTripleView {
        StringTripleView {
            subject: self.subject@,
            predicate: self.predicate@,
            object: self.object@,
        }
    }
}

impl StringTriple {
    /// A triple whose object is a resource node.
    pub fn new_node(subject: &str, predicate: &str, object: &str) -> (t: StringTriple)
        ensures
            t@ == (StringTripleView {
                subject: subject@,
                predicate: predicate@,
                object: ObjectView::Node(object@),
            }),
    {
        StringTriple {
            subject: subject.to_owned(),
            predicate: predicate.to_owned(),
            object: ObjectType::node(object),
        }
    }

    /// A triple whose object is a literal value.
    pub fn new_value(subject: &str, predicate: &str, object: &str) -> (t: StringTriple)
        ensures
            t@ == (StringTripleView {
                subject: subject@,
                predicate: predicate@,
                object: ObjectView::Value(object@),
            }),
    {
        StringTriple {
            subject: subject.to_owned(),
            predicate: predicate.to_owned(),
            object: ObjectType::value(object),
        }
    }

    /// An independent copy of this triple.
    pub fn duplicate(&self) -> (t: StringTriple)
        ensures
            t@ == self@,
    {
        StringTriple {
            subject: self.subject.clone(),
            predicate: self.predicate.clone(),
            object: self.object.duplicate(),
        }
    }
}

} // verus!
