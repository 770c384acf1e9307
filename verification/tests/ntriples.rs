use rdf::graph::Graph;
use rdf::ntriples::{
    bnode_label, comment, datatype, iri, iriref, language, literal, literal_quote, ntriple,
    ntriples,
};
use rdf::term::{Literal, Term, IRI};

#[test]
fn bnode_label_test() {
    assert_eq!(bnode_label(&b"_:abc"[..]), Ok((&b""[..], &b"abc"[..])));
    assert!(bnode_label(&b"abc"[..]).is_err())
}

#[test]
fn comment_test() {
    assert_eq!(comment(&b"#_:abc\n<next>"[..]), Ok((&b"\n<next>"[..], &b"_:abc"[..])));
}

#[test]
fn iriref_test() {
    assert_eq!(iriref(&b"<ab>"[..]), Ok((&b""[..], &b"ab"[..])));
}

#[test]
fn iri_test() {
    let uri = Term::IRI(IRI::new("moomin"));
    assert_eq!(iri(&b"<moomin>"[..]), Ok((&b""[..], uri)));
    assert!(iri(&b"moomin>"[..]).is_err())
}

#[test]
fn datatype_test() {
    assert_eq!(datatype(&b"^^<a>"[..]), Ok((&b""[..], &b"a"[..])));
    assert_eq!(datatype(&b"^^<abc>"[..]), Ok((&b""[..], &b"abc"[..])));

    assert!(datatype(&b"<abc>"[..]).is_err());
    assert!(datatype(&b"^^abc"[..]).is_err());
}

#[test]
fn lang_test() {
    assert_eq!(language(&b"@de"[..]), Ok((&b""[..], &b"de"[..])));
    assert_eq!(language(&b"@DE"[..]), Ok((&b""[..], &b"DE"[..])));
    assert_eq!(language(&b"@de-AT"[..]), Ok((&b""[..], &b"de-AT"[..])));
    assert_eq!(language(&b"@sr-Latn-RS"[..]), Ok((&b""[..], &b"sr-Latn-RS"[..])));
    assert_eq!(language(&b"@es-419"[..]), Ok((&b""[..], &b"es-419"[..])));

    assert_eq!(language(&b"@de-"[..]), Ok((&b"-"[..], &b"de"[..])));
    assert_eq!(language(&b"@sr-Latn-"[..]), Ok((&b"-"[..], &b"sr-Latn"[..])));

    assert!(language(&b"@12"[..]).is_err());
    assert!(language(&b"de"[..]).is_err());
}

#[test]
fn literal_quote_test() {
    assert_eq!(literal_quote(&b"\"moomin\""[..]), Ok((&b""[..], &b"moomin"[..])))
}

#[test]
fn literal_test() {
    let empty_literal = Term::Literal(Literal::new("", None, None).unwrap());
    assert_eq!(literal(&b"\"\""[..]), Ok((&b""[..], empty_literal)));

    let string_literal = Term::Literal(Literal::new("moomin", None, None).unwrap());
    assert_eq!(literal(&b"\"moomin\""[..]), Ok((&b""[..], string_literal)));

    let datatype_literal =
        Term::Literal(Literal::new("moomin", Some(IRI::new("moomin")), None).unwrap());
    assert_eq!(literal(&b"\"moomin\"^^<moomin>"[..]), Ok((&b""[..], datatype_literal)));

    let lang_literal = Term::Literal(Literal::new("moomin", None, Some("de")).unwrap());
    assert_eq!(literal(&b"\"moomin\"@de"[..]), Ok((&b""[..], lang_literal)));
}

#[test]
fn ntriple_test() {
    assert!(ntriple(&b"<ab> <cd> <ef> ."[..], &mut Vec::new()).is_ok());
    assert!(ntriple(&b"<ab><cd><ef>."[..], &mut Vec::new()).is_ok());
    assert!(ntriple(&b"   <ab>\t<cd> <ef> ."[..], &mut Vec::new()).is_ok());
    assert!(ntriple(&b"_:node1\t<cd> \"moomin valley\t\n...\" ."[..], &mut Vec::new()).is_ok());
    assert!(ntriple(&b"<ab> <cd> _:node1 ."[..], &mut Vec::new()).is_ok());
}

#[test]
fn ntriple_errors_test() {
    // Errors
    assert!(ntriple(&b"<> <p> \"moomin\" ."[..], &mut Vec::new()).is_err());
    assert!(ntriple(&b"_:node1 _:node2 \"moomin\" ."[..], &mut Vec::new()).is_err());
    assert!(ntriple(&b"\"moomin\" <iri> <iri> ."[..], &mut Vec::new()).is_err());
    assert!(ntriple(&b"\"moomin\" <iri> ."[..], &mut Vec::new()).is_err());
    assert!(ntriple(&b"<iri> <iri> <iri> <iri> ."[..], &mut Vec::new()).is_err());
    assert!(ntriple(&b"_:node1 <iri> \"mo\"omin\" ."[..], &mut Vec::new()).is_err());
}

#[test]
fn ntriples_test() {
    assert!(ntriples(&b"<ab> <cd> <ef> ."[..]).is_ok());
    assert!(ntriples(&b"<ab> <cd> <ef> .\n\n"[..]).is_ok());
    assert!(ntriples(&b"<ab> <cd> <ef> .\n<s> <p> <o> .   \n<s> <p> <o2> .      #comment\t\n<s><p><o3>."[..]).is_ok());
    assert!(ntriples(&b"   #abc\n#  def\n  # abc\n<ab> <cd> <ef> .\n<s> <p> <o> .   \n#comment\n<s> <p> <o2> .      #comment\t\n<s><p><o3>."[..]).is_ok());
    assert!(ntriples(&b"<ab> <cd> <ef> .\n<s> <p> <o> .   \n<s> <p> <o2> .    \n"[..]).is_ok());

    assert_eq!(
        ntriples(&b"<ab> <cd> <ef> .\n<s> <p> <o> .   \n<s> <p> <o2> .    \n<abc>"[..])
            .ok()
            .map(|(rest, _)| rest),
        Some(&b"<abc>"[..])
    );
}

#[test]
fn ntriples_empty_test() {
    assert_eq!(ntriples(&b""[..]), Ok((&b""[..], Graph::new())));
}
