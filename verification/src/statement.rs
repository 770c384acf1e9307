//! RDF statements: triples of a subject, a predicate and an object.

use vstd::prelude::*;
use vstd::std_specs::cmp::PartialEqSpecImpl;
use snowflake::ProcessUniqueId;
use crate::term::{Term, TermShape, TermView};

verus! {

/// What a statement holds.
pub struct StatementView {
    pub subject: TermView,
    pub predicate: TermView,
    pub object: TermView,
}

/// A statement without the identities of its blank nodes.
pub struct TripleShape {
    pub subject: TermShape,
    pub predicate: TermShape,
    pub object: TermShape,
}

impl StatementView {
    /// The statement with the identifiers of its blank nodes left out.
    pub open spec fn shape(self) -> TripleShape {
        TripleShape {
            subject: self.subject.shape(),
            predicate: self.predicate.shape(),
            object: self.object.shape(),
        }
    }

    /// The identifiers of the blank nodes of the statement, occurrence by occurrence: that of
    /// the subject, then that of the object.
    pub open spec fn nodes(self) -> Seq<ProcessUniqueId> {
        self.subject.node() + self.object.node()
    }

    /// Each term stands where RDF allows it: the subject is an IRI or a blank node, the
    /// predicate is an IRI, and the object is any term.
    pub open spec fn well_placed(self) -> bool {
        &&& self.subject is Iri || self.subject is BNode
        &&& self.predicate is Iri
    }
}

/// The identifiers of the blank nodes of the statements, occurrence by occurrence, in the
/// order of the statements.
pub open spec fn all_nodes(statements: Seq<StatementView>) -> Seq<ProcessUniqueId>
    decreases statements.len(),
{
    if statements.len() == 0 {
        Seq::empty()
    } else {
        all_nodes(statements.drop_last()) + statements.last().nodes()
    }
}

/// A subject, a predicate and an object, each of a kind that RDF allows in its position.
#[derive(Debug, Eq, Hash)]
pub struct Statement<'a> {
    subject: Term<'a>,
    predicate: Term<'a>,
    object: Term<'a>,
}

impl<'a> View for Statement<'a> {
    type V = StatementView;

    closed spec fn view(&self) -> StatementView {
        StatementView {
            subject: self.subject@,
            predicate: self.predicate@,
            object: self.object@,
        }
    }
}

impl<'a> Statement<'a> {
    /// Each term is of a kind that its position allows.
    #[verifier::type_invariant]
    spec fn placed(self) -> bool {
        self@.well_placed()
    }

    /// The statement of the three terms.
    pub fn new(s: Term<'a>, p: Term<'a>, o: Term<'a>) -> (statement: Statement<'a>)
        requires
            s@ is Iri || s@ is BNode,
            p@ is Iri,
        ensures
            statement@ == (StatementView { subject: s@, predicate: p@, object: o@ }),
    {
        Statement { subject: s, predicate: p, object: o }
    }

    /// The subject, an IRI or a blank node.
    pub fn subject(&self) -> (term: &Term<'a>)
        ensures
            term@ == self@.subject,
            self@.well_placed(),
    {
        proof {
            use_type_invariant(self);
        }
        &self.subject
    }

    /// The predicate, an IRI.
    pub fn predicate(&self) -> (term: &Term<'a>)
        ensures
            term@ == self@.predicate,
            self@.well_placed(),
    {
        proof {
            use_type_invariant(self);
        }
        &self.predicate
    }

    /// The object.
    pub fn object(&self) -> (term: &Term<'a>)
        ensures
            term@ == self@.object,
            self@.well_placed(),
    {
        proof {
            use_type_invariant(self);
        }
        &self.object
    }
}

impl<'a> Clone for Statement<'a> {
    fn clone(&self) -> (copy: Statement<'a>)
        ensures
            copy@ == self@,
    {
        proof {
            use_type_invariant(self);
        }
        Statement {
            subject: self.subject.clone(),
            predicate: self.predicate.clone(),
            object: self.object.clone(),
        }
    }
}

impl<'a> PartialEq for Statement<'a> {
    fn eq(&self, other: &Statement<'a>) -> (same: bool) {
        self.subject == other.subject && self.predicate == other.predicate && self.object
            == other.object
    }
}

impl<'a> PartialEqSpecImpl for Statement<'a> {
    open spec fn obeys_eq_spec() -> bool {
        true
    }

    open spec fn eq_spec(&self, other: &Statement<'a>) -> bool {
        self@ == other@
    }
}

} // verus!
