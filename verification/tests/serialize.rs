use rdf::graph::Graph;
use rdf::ntriples::parse;
use rdf::serialize::{has_none, language_tag, serialize, writable};
use rdf::statement::Statement;
use rdf::term::{BNode, Literal, Term, IRI};

fn iri_term(value: &str) -> Term<'_> {
    Term::IRI(IRI::new(value))
}

fn graph_of<'a>(statements: Vec<Statement<'a>>) -> Graph<'a> {
    let mut graph = Graph::new();
    for statement in statements {
        graph.insert(statement);
    }
    graph
}

#[test]
fn serialize_empty_graph_is_empty_text() {
    assert_eq!(serialize(&Graph::new()), Some(Vec::new()));
}

#[test]
fn serialize_writes_one_line_for_each_statement() {
    let graph = graph_of(vec![
        Statement::new(iri_term("ab"), iri_term("cd"), iri_term("ef")),
        Statement::new(iri_term("s"), iri_term("p"), Term::Literal(Literal::new_string("o"))),
        Statement::new(
            iri_term("s"),
            iri_term("p"),
            Term::Literal(Literal::new_lang_string("gr\u{fc}n", "de-AT")),
        ),
    ]);
    let expected = "<ab> <cd> <ef> .\n\
        <s> <p> \"o\"^^<http://www.w3.org/2001/XMLSchema#string> .\n\
        <s> <p> \"gr\u{fc}n\"^^<http://www.w3.org/1999/02/22-rdf-syntax-ns#langString>@de-AT .\n";
    assert_eq!(serialize(&graph), Some(expected.as_bytes().to_vec()));
}

#[test]
fn serialize_numbers_blank_nodes_by_first_occurrence() {
    let first = BNode::new(&[]);
    let second = BNode::new(&[]);
    let graph = graph_of(vec![
        Statement::new(Term::BNode(first), iri_term("p"), Term::BNode(second)),
        Statement::new(Term::BNode(second), iri_term("p"), Term::BNode(first)),
        Statement::new(Term::BNode(first), iri_term("q"), Term::BNode(first)),
        Statement::new(Term::BNode(BNode::new(&[])), iri_term("q"), iri_term("o")),
    ]);
    let expected = "_:b0 <p> _:b1 .\n_:b1 <p> _:b0 .\n_:b0 <q> _:b0 .\n_:b2 <q> <o> .\n";
    assert_eq!(serialize(&graph), Some(expected.as_bytes().to_vec()));
}

#[test]
fn serialize_writes_numbers_of_several_digits() {
    let mut graph = Graph::new();
    for _ in 0..102 {
        graph.insert(Statement::new(Term::BNode(BNode::new(&[])), iri_term("p"), iri_term("o")));
    }
    let text = String::from_utf8(serialize(&graph).unwrap()).unwrap();
    let lines: Vec<&str> = text.lines().collect();
    assert_eq!(lines.len(), 102);
    assert_eq!(lines[0], "_:b0 <p> <o> .");
    assert_eq!(lines[9], "_:b9 <p> <o> .");
    assert_eq!(lines[10], "_:b10 <p> <o> .");
    assert_eq!(lines[99], "_:b99 <p> <o> .");
    assert_eq!(lines[101], "_:b101 <p> <o> .");
}

#[test]
fn serialize_refuses_what_cannot_be_read_back() {
    let bad_iri = graph_of(vec![Statement::new(iri_term("a>b"), iri_term("p"), iri_term("o"))]);
    assert_eq!(serialize(&bad_iri), None);
    let empty_iri = graph_of(vec![Statement::new(iri_term("s"), iri_term(""), iri_term("o"))]);
    assert_eq!(serialize(&empty_iri), None);
    let quote = graph_of(vec![Statement::new(
        iri_term("s"),
        iri_term("p"),
        Term::Literal(Literal::new_string("say \"moomin\"")),
    )]);
    assert_eq!(serialize(&quote), None);
    let bad_tag = graph_of(vec![
        Statement::new(iri_term("s"), iri_term("p"), iri_term("o")),
        Statement::new(
            iri_term("s"),
            iri_term("p"),
            Term::Literal(Literal::new_lang_string("x", "en-")),
        ),
    ]);
    assert_eq!(serialize(&bad_tag), None);
    let bad_datatype = graph_of(vec![Statement::new(
        iri_term("s"),
        iri_term("p"),
        Term::Literal(Literal::new("x", Some(IRI::new(">")), None).unwrap()),
    )]);
    assert_eq!(serialize(&bad_datatype), None);
}

#[test]
fn writable_tells_statements_apart() {
    assert!(writable(&Statement::new(iri_term("s"), iri_term("p"), iri_term("o"))));
    assert!(writable(&Statement::new(
        Term::BNode(BNode::new(&[])),
        iri_term("p"),
        Term::Literal(Literal::new_lang_string("", "sr-Latn-RS"))
    )));
    assert!(!writable(&Statement::new(iri_term("s"), iri_term("p"), iri_term(">"))));
    assert!(!writable(&Statement::new(
        iri_term("s"),
        iri_term("p"),
        Term::Literal(Literal::new_lang_string("x", "12"))
    )));
}

#[test]
fn language_tag_follows_the_grammar() {
    assert!(language_tag(b"de"));
    assert!(language_tag(b"de-AT"));
    assert!(language_tag(b"es-419"));
    assert!(language_tag(b"sr-Latn-RS"));
    assert!(!language_tag(b""));
    assert!(!language_tag(b"de-"));
    assert!(!language_tag(b"12"));
    assert!(!language_tag(b"de--AT"));
    assert!(!language_tag(b"de AT"));
    assert!(!language_tag(b"-de"));
}

#[test]
fn has_none_looks_at_every_byte() {
    assert!(has_none(b"", b'>'));
    assert!(has_none(b"abc", b'>'));
    assert!(!has_none(b"ab>", b'>'));
    assert!(!has_none(b">ab", b'>'));
}

#[test]
fn reading_what_was_written_gives_the_graph_again() {
    let text = "# a document\n<ab> <cd> <ef> .\n<s> <p> \"moomin valley\"@fi .\n\
        <s> <p> \"2016-05-22\"^^<http://www.w3.org/2001/XMLSchema#date> . # a date\n\
        <s> <p> \"\" .\n<ab> <cd> <ef> .\n\n<s> <p> \"gr\u{fc}n\"@de-AT .";
    let graph = parse(text.as_bytes()).unwrap();
    assert_eq!(graph.len(), 5);
    let written = serialize(&graph).unwrap();
    let again = parse(&written).unwrap();
    assert_eq!(again, graph);
    let rewritten = serialize(&again).unwrap();
    assert_eq!(rewritten, written);
}

#[test]
fn reading_what_was_written_keeps_the_shape_of_blank_nodes() {
    let text = b"_:n1 <p> \"moomin\" .\n_:n1 <p> \"moomin\" .\n<s> <p> _:n2 .\n";
    let graph = parse(text).unwrap();
    let written = serialize(&graph).unwrap();
    assert_eq!(
        written,
        b"_:b0 <p> \"moomin\"^^<http://www.w3.org/2001/XMLSchema#string> .\n\
          _:b1 <p> \"moomin\"^^<http://www.w3.org/2001/XMLSchema#string> .\n\
          <s> <p> _:b2 .\n"
            .to_vec()
    );
    let again = parse(&written).unwrap();
    assert_eq!(again.len(), graph.len());
    for (new, old) in again.statements().iter().zip(graph.statements().iter()) {
        assert_eq!(new.predicate(), old.predicate());
        assert_eq!(matches!(new.subject(), Term::BNode(_)), matches!(old.subject(), Term::BNode(_)));
        assert_eq!(matches!(new.object(), Term::BNode(_)), matches!(old.object(), Term::BNode(_)));
        if !matches!(old.subject(), Term::BNode(_)) {
            assert_eq!(new.subject(), old.subject());
        }
        if !matches!(old.object(), Term::BNode(_)) {
            assert_eq!(new.object(), old.object());
        }
    }
    assert!(again != graph);
}
