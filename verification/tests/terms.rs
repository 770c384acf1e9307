use rdf::error::{ErrorKind, ParseError};
use rdf::term::{BNode, Literal, Term, IRI, LANG_STRING_IRI, XSD_STRING_IRI};
use rdf::text::str_eq;

#[test]
fn literal_defaults_to_xsd_string() {
    let literal = Literal::new("x", None, None).unwrap();
    assert_eq!(literal.datatype(), IRI::new("http://www.w3.org/2001/XMLSchema#string"));
    assert_eq!(literal.lang(), None);
    assert_eq!(literal.lexical(), "x");
    assert_eq!(literal, Literal::new_string("x"));
}

#[test]
fn literal_with_language_is_lang_string() {
    let literal = Literal::new("x", None, Some("en")).unwrap();
    assert_eq!(
        literal.datatype(),
        IRI::new("http://www.w3.org/1999/02/22-rdf-syntax-ns#langString")
    );
    assert_eq!(literal.lang(), Some("en"));
    assert_eq!(literal, Literal::new_lang_string("x", "en"));
}

#[test]
fn literal_with_language_and_other_datatype_conflicts() {
    let date = IRI::new("http://www.w3.org/2001/XMLSchema#date");
    assert_eq!(Literal::new("x", Some(date), Some("en")), Err(ErrorKind::ConflictingLiteralTag));
}

#[test]
fn literal_with_explicit_datatype() {
    let date = IRI::new("http://www.w3.org/2001/XMLSchema#date");
    let literal = Literal::new("2016-05-22", Some(date), None).unwrap();
    assert_eq!(literal.datatype(), date);
    assert_eq!(literal.lang(), None);
    assert_eq!(literal.lexical(), "2016-05-22");
}

#[test]
fn literal_with_language_and_lang_string_datatype() {
    let literal = Literal::new("x", Some(IRI::new(LANG_STRING_IRI)), Some("fi")).unwrap();
    assert_eq!(literal, Literal::new_lang_string("x", "fi"));
    let untagged = Literal::new("x", Some(IRI::new(LANG_STRING_IRI)), None).unwrap();
    assert_eq!(untagged.datatype().value(), LANG_STRING_IRI);
    assert_eq!(untagged.lang(), None);
}

#[test]
fn literals_compare_all_three_parts() {
    let plain = Literal::new_string("x");
    assert_eq!(plain.clone(), plain);
    assert!(plain != Literal::new_string("y"));
    assert!(plain != Literal::new_lang_string("x", "en"));
    assert!(Literal::new_lang_string("x", "en") != Literal::new_lang_string("x", "de"));
    assert!(plain != Literal::new("x", Some(IRI::new("d")), None).unwrap());
    assert_eq!(plain.datatype().value(), XSD_STRING_IRI);
}

#[test]
fn iris_compare_by_value() {
    assert_eq!(IRI::new("http://example.com/moomin"), IRI::new("http://example.com/moomin"));
    assert!(IRI::new("http://example.com/moomin") != IRI::new("http://example.com/Moomin"));
    assert!(IRI::new("a") != IRI::new("ab"));
    assert_eq!(IRI::new("a").value(), "a");
}

#[test]
fn blank_nodes_are_distinct() {
    let node = BNode::new(&[]);
    let other = BNode::new(&[node]);
    assert_eq!(node, node);
    assert_eq!(node, node.clone());
    assert!(node != other);
    assert!(Term::BNode(node) != Term::BNode(other));
    let mut made = vec![node, other];
    for _ in 0..50 {
        let next = BNode::new(&made);
        assert!(!made.contains(&next));
        made.push(next);
    }
    let unrecorded = BNode::new(&[]);
    assert!(!made.contains(&unrecorded));
}

#[test]
fn terms_of_different_kinds_differ() {
    let iri = Term::IRI(IRI::new("x"));
    let literal = Term::Literal(Literal::new_string("x"));
    let node = Term::BNode(BNode::new(&[]));
    assert!(iri != literal);
    assert!(iri != node);
    assert!(literal != node);
    assert_eq!(iri.clone(), iri);
    assert_eq!(literal.clone(), literal);
    assert_eq!(node.clone(), node);
}

#[test]
fn str_eq_compares_characters() {
    assert!(str_eq("", ""));
    assert!(str_eq("gr\u{fc}n", "gr\u{fc}n"));
    assert!(!str_eq("gr\u{fc}n", "grun"));
    assert!(!str_eq("a", "ab"));
}

#[test]
fn errors_shift_with_their_input() {
    let error = ParseError::new(ErrorKind::UnexpectedToken, 3);
    assert_eq!(error.shifted(4), ParseError { kind: ErrorKind::UnexpectedToken, offset: 7 });
}
