use rdf::graph::Graph;
use rdf::statement::Statement;
use rdf::term::{BNode, Literal, Term, IRI};

fn triple<'a>(s: &'a str, p: &'a str, o: &'a str) -> Statement<'a> {
    Statement::new(Term::IRI(IRI::new(s)), Term::IRI(IRI::new(p)), Term::IRI(IRI::new(o)))
}

#[test]
fn new_graph_is_empty() {
    let graph = Graph::new();
    assert_eq!(graph.len(), 0);
    assert!(graph.is_empty());
    assert!(!graph.contains(&triple("s", "p", "o")));
}

#[test]
fn insert_is_idempotent() {
    let mut graph = Graph::new();
    assert!(graph.insert(triple("s", "p", "o")));
    assert_eq!(graph.len(), 1);
    assert!(!graph.insert(triple("s", "p", "o")));
    assert_eq!(graph.len(), 1);
    assert!(graph.contains(&triple("s", "p", "o")));
    assert!(graph.insert(triple("s", "p", "o2")));
    assert_eq!(graph.len(), 2);
    assert!(!graph.is_empty());
}

#[test]
fn graphs_are_equal_as_sets() {
    let mut one = Graph::new();
    one.insert(triple("a", "b", "c"));
    one.insert(triple("d", "e", "f"));
    let mut other = Graph::new();
    other.insert(triple("d", "e", "f"));
    other.insert(triple("a", "b", "c"));
    other.insert(triple("a", "b", "c"));
    assert_eq!(one, other);
    assert_eq!(one.clone(), one);
    other.insert(triple("g", "h", "i"));
    assert!(one != other);
    let mut third = Graph::new();
    third.insert(triple("a", "b", "c"));
    third.insert(triple("d", "e", "x"));
    assert!(one != third);
}

#[test]
fn statements_keep_insertion_order() {
    let mut graph = Graph::new();
    graph.insert(triple("a", "b", "c"));
    graph.insert(triple("d", "e", "f"));
    graph.insert(triple("a", "b", "c"));
    let all = graph.statements();
    assert_eq!(all.len(), 2);
    assert_eq!(all[0], triple("a", "b", "c"));
    assert_eq!(all[1], triple("d", "e", "f"));
}

#[test]
fn statements_with_distinct_blank_nodes_differ() {
    let node = BNode::new(&[]);
    let other = BNode::new(&[]);
    let p = Term::IRI(IRI::new("p"));
    let o = Term::Literal(Literal::new_string("moomin"));
    let first = Statement::new(Term::BNode(node), p.clone(), o.clone());
    let again = Statement::new(Term::BNode(node), p.clone(), o.clone());
    let second = Statement::new(Term::BNode(other), p, o);
    assert_eq!(first, again);
    assert!(first != second);
    let mut graph = Graph::new();
    assert!(graph.insert(first));
    assert!(!graph.insert(again));
    assert!(graph.insert(second));
    assert_eq!(graph.len(), 2);
}

#[test]
fn statement_gives_its_terms_back() {
    let node = BNode::new(&[]);
    let statement = Statement::new(
        Term::BNode(node),
        Term::IRI(IRI::new("http://example.com/relation")),
        Term::Literal(Literal::new_string("moomin")),
    );
    assert_eq!(statement.subject(), &Term::BNode(node));
    assert_eq!(statement.predicate(), &Term::IRI(IRI::new("http://example.com/relation")));
    assert_eq!(statement.object(), &Term::Literal(Literal::new_string("moomin")));
    assert_eq!(statement.clone(), statement);
}
