//! RDF graphs: sets of statements.

use vstd::prelude::*;
use vstd::std_specs::cmp::PartialEqSpecImpl;
use vstd::set_lib::lemma_subset_equality;
use crate::statement::{Statement, StatementView};

verus! {

/// What each of the statements holds, in the order of the vector.
pub open spec fn views_of<'a>(statements: Seq<Statement<'a>>) -> Seq<StatementView> {
    Seq::new(statements.len(), |i: int| statements[i]@)
}

/// A set of statements. A statement that is equal to one of the graph is not added again.
#[derive(Debug, Eq)]
pub struct Graph<'a> {
    statements: Vec<Statement<'a>>,
}

impl<'a> View for Graph<'a> {
    type V = Set<StatementView>;

    open spec fn view(&self) -> Set<StatementView> {
        self.listed().to_set()
    }
}

impl<'a> Graph<'a> {
    /// No two of the statements are equal.
    #[verifier::type_invariant]
    spec fn distinct(self) -> bool {
        views_of(self.statements@).no_duplicates()
    }

    /// What the statements hold, each once, in the order in which they were added.
    pub closed spec fn listed(&self) -> Seq<StatementView> {
        views_of(self.statements@)
    }

    /// The graph without statements.
    pub fn new() -> (graph: Graph<'a>)
        ensures
            graph@ == Set::<StatementView>::empty(),
            graph.listed() == Seq::<StatementView>::empty(),
    {
        let graph = Graph { statements: Vec::new() };
        assert(views_of(graph.statements@) =~= Seq::<StatementView>::empty());
        assert(views_of(graph.statements@).to_set() =~= Set::<StatementView>::empty());
        graph
    }

    /// The number of statements.
    pub fn len(&self) -> (n: usize)
        ensures
            self@.finite(),
            n == self@.len(),
    {
        proof {
            use_type_invariant(self);
            views_of(self.statements@).unique_seq_to_set();
        }
        self.statements.len()
    }

    /// Whether the graph has no statement.
    pub fn is_empty(&self) -> (empty: bool)
        ensures
            empty == (self@ == Set::<StatementView>::empty()),
    {
        proof {
            views_of(self.statements@).lemma_cardinality_of_empty_set_is_0();
            if self.statements@.len() == 0 {
                assert(self@ =~= Set::<StatementView>::empty());
            }
        }
        self.statements.len() == 0
    }

    /// Whether a statement equal to `statement` is in the graph.
    pub fn contains(&self, statement: &Statement<'a>) -> (found: bool)
        ensures
            found == self@.contains(statement@),
    {
        let mut i: usize = 0;
        while i < self.statements.len()
            invariant
                i <= self.statements@.len(),
                forall|j: int| 0 <= j < i ==> views_of(self.statements@)[j] != statement@,
            decreases self.statements@.len() - i,
        {
            if self.statements[i] == *statement {
                assert(views_of(self.statements@)[i as int] == statement@);
                return true;
            }
            i += 1;
        }
        false
    }

    /// Adds `statement` unless an equal one is there already, and says whether it was added.
    pub fn insert(&mut self, statement: Statement<'a>) -> (added: bool)
        ensures
            final(self)@ == old(self)@.insert(statement@),
            added == !old(self)@.contains(statement@),
            final(self).listed() == if added {
                old(self).listed().push(statement@)
            } else {
                old(self).listed()
            },
    {
        proof {
            use_type_invariant(&*self);
        }
        if self.contains(&statement) {
            assert(self@.insert(statement@) =~= self@);
            false
        } else {
            let ghost before = views_of(self.statements@);
            let mut grown: Vec<Statement<'a>> = Vec::new();
            assert(views_of(grown@) =~= Seq::<StatementView>::empty());
            core::mem::swap(&mut self.statements, &mut grown);
            grown.push(statement);
            proof {
                assert(views_of(grown@) =~= before.push(statement@));
                before.lemma_push_to_set_commute(statement@);
            }
            core::mem::swap(&mut self.statements, &mut grown);
            true
        }
    }

    /// The statements, each once, in the order in which they were added.
    pub fn statements(&self) -> (all: &Vec<Statement<'a>>)
        ensures
            views_of(all@) == self.listed(),
            self.listed().no_duplicates(),
    {
        proof {
            use_type_invariant(self);
        }
        &self.statements
    }
}

impl<'a> Clone for Graph<'a> {
    fn clone(&self) -> (copy: Graph<'a>)
        ensures
            copy@ == self@,
    {
        proof {
            use_type_invariant(self);
        }
        let mut statements: Vec<Statement<'a>> = Vec::new();
        let mut i: usize = 0;
        while i < self.statements.len()
            invariant
                i <= self.statements@.len(),
                views_of(statements@) == views_of(self.statements@).take(i as int),
            decreases self.statements@.len() - i,
        {
            let ghost before = views_of(statements@);
            let copy = self.statements[i].clone();
            statements.push(copy);
            assert(views_of(statements@) =~= before.push(copy@));
            assert(before.push(copy@) =~= views_of(self.statements@).take(i + 1));
            i += 1;
        }
        assert(views_of(self.statements@).take(i as int) =~= views_of(self.statements@));
        Graph { statements }
    }
}

impl<'a> PartialEq for Graph<'a> {
    fn eq(&self, other: &Graph<'a>) -> (same: bool) {
        if self.len() != other.len() {
            return false;
        }
        let mut i: usize = 0;
        while i < self.statements.len()
            invariant
                i <= self.statements@.len(),
                forall|j: int| 0 <= j < i ==> other@.contains(views_of(self.statements@)[j]),
            decreases self.statements@.len() - i,
        {
            if !other.contains(&self.statements[i]) {
                assert(self@.contains(views_of(self.statements@)[i as int]));
                return false;
            }
            i += 1;
        }
        proof {
            assert(self@.subset_of(other@));
            lemma_subset_equality(self@, other@);
        }
        true
    }
}

impl<'a> PartialEqSpecImpl for Graph<'a> {
    open spec fn obeys_eq_spec() -> bool {
        true
    }

    open spec fn eq_spec(&self, other: &Graph<'a>) -> bool {
        self@ == other@
    }
}

} // verus!
