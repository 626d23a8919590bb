//! Identifiers: a core name together with its SSA version.

use crate::model::Modelled;
use vstd::prelude::*;

verus! {

/// The name of a variable before versioning: either a name written in the
/// source, or the slot that receives the return value at a given position of
/// an inlined call.
#[derive(Debug, PartialEq, Eq, Hash)]
pub enum CoreIdentifier {
    Source(String),
    Call(usize),
}

/// Mathematical model of a [`CoreIdentifier`].
pub enum CoreIdentifierView {
    Source(Seq<char>),
    Call(usize),
}

impl View for CoreIdentifier {
    type V = CoreIdentifierView;

    open spec fn view(&self) -> CoreIdentifierView {
        match *self {
            CoreIdentifier::Source(name) => CoreIdentifierView::Source(name@),
            CoreIdentifier::Call(index) => CoreIdentifierView::Call(index),
        }
    }
}

impl Modelled for CoreIdentifier {
    fn equals(&self, other: &CoreIdentifier) -> (r: bool) {
        match (self, other) {
            (CoreIdentifier::Source(a), CoreIdentifier::Source(b)) => *a == *b,
            (CoreIdentifier::Call(i), CoreIdentifier::Call(j)) => *i == *j,
            _ => false,
        }
    }

    fn duplicate(&self) -> (r: CoreIdentifier) {
        match self {
            CoreIdentifier::Source(name) => CoreIdentifier::Source(name.clone()),
            CoreIdentifier::Call(index) => CoreIdentifier::Call(*index),
        }
    }
}

/// A core identifier at a given version. Version 0 is the first occurrence.
#[derive(Debug, PartialEq, Eq, Hash)]
pub struct Identifier {
    pub id: CoreIdentifier,
    pub version: usize,
}

/// Mathematical model of an [`Identifier`].
pub struct IdentifierView {
    pub id: CoreIdentifierView,
    pub version: usize,
}

impl View for Identifier {
    type V = IdentifierView;

    open spec fn view(&self) -> IdentifierView {
        IdentifierView { id: self.id@, version: self.version }
    }
}

impl Modelled for Identifier {
    fn equals(&self, other: &Identifier) -> (r: bool) {
        self.version == other.version && self.id.equals(&other.id)
    }

    fn duplicate(&self) -> (r: Identifier) {
        Identifier { id: self.id.duplicate(), version: self.version }
    }
}

impl Identifier {
    /// The unversioned identifier of a source name.
    pub fn from_name(name: &str) -> (r: Identifier)
        ensures
            r@ == (IdentifierView { id: CoreIdentifierView::Source(name@), version: 0 }),
    {
        Identifier { id: CoreIdentifier::Source(name.to_string()), version: 0 }
    }

    /// The same name at another version.
    pub fn version(self, version: usize) -> (r: Identifier)
        ensures
            r@ == (IdentifierView { id: self@.id, version }),
    {
        Identifier { id: self.id, version }
    }
}

impl Clone for CoreIdentifier {
    fn clone(&self) -> (r: CoreIdentifier)
        ensures
            r@ == self@,
    {
        self.duplicate()
    }
}

impl Clone for Identifier {
    fn clone(&self) -> (r: Identifier)
        ensures
            r@ == self@,
    {
        self.duplicate()
    }
}

} // verus!
