use rdf::error::{ErrorKind, ParseError};
use rdf::graph::Graph;
use rdf::ntriples::{
    bnode, document, iri, language, literal, ntriple, ntriples, object, parse, subject, to_bnode,
    to_iri,
};
use rdf::statement::Statement;
use rdf::term::{BNode, Literal, Term, IRI};

fn iri_term(value: &str) -> Term<'_> {
    Term::IRI(IRI::new(value))
}

fn plain(lexical: &str) -> Term<'static> {
    Term::Literal(Literal::new_string(lexical))
}

fn failure(kind: ErrorKind, offset: usize) -> ParseError {
    ParseError { kind, offset }
}

#[test]
fn parse_empty_input_gives_empty_graph() {
    let graph = parse(b"").unwrap();
    assert_eq!(graph.len(), 0);
    assert!(graph.is_empty());
    assert_eq!(graph, Graph::new());
}

#[test]
fn parse_single_triple_of_iris() {
    let graph = parse(b"<ab> <cd> <ef> .").unwrap();
    assert_eq!(graph.len(), 1);
    let expected = Statement::new(iri_term("ab"), iri_term("cd"), iri_term("ef"));
    assert!(graph.contains(&expected));
    let only = &graph.statements()[0];
    assert_eq!(only.subject(), &iri_term("ab"));
    assert_eq!(only.predicate(), &iri_term("cd"));
    assert_eq!(only.object(), &iri_term("ef"));
}

#[test]
fn parse_repeated_blank_node_label_gives_two_statements() {
    let graph = parse(b"_:n1 <p> \"moomin\" .\n_:n1 <p> \"moomin\" .\n").unwrap();
    assert_eq!(graph.len(), 2);
    let first = &graph.statements()[0];
    let second = &graph.statements()[1];
    assert!(first != second);
    assert!(first.subject() != second.subject());
    assert_eq!(first.predicate(), second.predicate());
    assert_eq!(first.object(), &plain("moomin"));
    assert_eq!(second.object(), &plain("moomin"));
}

#[test]
fn parse_literal_in_subject_position_fails_at_offset_zero() {
    assert_eq!(
        parse(b"\"moomin\" <iri> <iri> ."),
        Err(failure(ErrorKind::UnexpectedToken, 0))
    );
}

#[test]
fn parse_repeated_triple_is_kept_once() {
    let graph = parse(b"<s> <p> <o> .\n<s> <p> <o> .\n<s> <p> \"o\" .\n").unwrap();
    assert_eq!(graph.len(), 2);
    assert!(graph.contains(&Statement::new(iri_term("s"), iri_term("p"), iri_term("o"))));
    assert!(graph.contains(&Statement::new(iri_term("s"), iri_term("p"), plain("o"))));
}

#[test]
fn parse_accepts_both_line_endings() {
    let graph = parse(b"<a> <b> <c> .\r\n<d> <e> <f> .\n<g> <h> <i> .\r\n").unwrap();
    assert_eq!(graph.len(), 3);
    assert!(graph.contains(&Statement::new(iri_term("g"), iri_term("h"), iri_term("i"))));
}

#[test]
fn parse_lone_carriage_return_is_no_line_ending() {
    assert_eq!(
        parse(b"<a> <b> <c> .\r<d> <e> <f> ."),
        Err(failure(ErrorKind::UnexpectedToken, 13))
    );
    assert_eq!(parse(b"<a> <b> <c> .\r"), Err(failure(ErrorKind::UnexpectedToken, 13)));
}

#[test]
fn parse_skips_comments_and_blank_lines() {
    let text = b"# first\n\n   \t\n  # second\n<a> <b> <c> . # third\n\n#fourth\n<d> <e> <f> .\n  \n# last";
    let graph = parse(text).unwrap();
    assert_eq!(graph.len(), 2);
    assert!(graph.contains(&Statement::new(iri_term("a"), iri_term("b"), iri_term("c"))));
    assert!(graph.contains(&Statement::new(iri_term("d"), iri_term("e"), iri_term("f"))));
}

#[test]
fn parse_only_comments_gives_empty_graph() {
    assert_eq!(parse(b"### comment\n\n").unwrap().len(), 0);
    assert_eq!(parse(b"# no line ending").unwrap().len(), 0);
    assert_eq!(parse(b"   \t ").unwrap().len(), 0);
    assert_eq!(parse(b"\n").unwrap().len(), 0);
}

#[test]
fn parse_two_triples_on_one_line_fail_at_the_second() {
    assert_eq!(
        parse(b"<a> <b> <c> . <d> <e> <f> ."),
        Err(failure(ErrorKind::UnexpectedToken, 14))
    );
}

#[test]
fn parse_reports_offsets_in_the_whole_document() {
    assert_eq!(
        parse(b"<a> <b> <c> .\n<d> _:x <f> ."),
        Err(failure(ErrorKind::UnexpectedToken, 18))
    );
    assert_eq!(
        parse(b"# c\n  <a> <b> \"x\" .\n<d> <e>"),
        Err(failure(ErrorKind::IncompleteInput, 27))
    );
}

#[test]
fn parse_invalid_utf8() {
    assert_eq!(parse(b"<\xff> <p> <o> ."), Err(failure(ErrorKind::InvalidUtf8, 1)));
    assert_eq!(parse(b"<s> <p> \"\xc3\" ."), Err(failure(ErrorKind::InvalidUtf8, 9)));
    assert_eq!(parse(b"<s> <p> \"x\"^^<\xfe> ."), Err(failure(ErrorKind::InvalidUtf8, 14)));
}

#[test]
fn parse_unterminated_literal() {
    assert_eq!(parse(b"<s> <p> \"abc"), Err(failure(ErrorKind::UnterminatedLiteral, 8)));
    assert_eq!(parse(b"<s> <p> \""), Err(failure(ErrorKind::UnterminatedLiteral, 8)));
}

#[test]
fn parse_unterminated_iri() {
    assert_eq!(parse(b"<s> <p"), Err(failure(ErrorKind::UnterminatedIri, 4)));
    assert_eq!(parse(b"<"), Err(failure(ErrorKind::UnterminatedIri, 0)));
    assert_eq!(parse(b"<s> <p> \"x\"^^<d"), Err(failure(ErrorKind::UnterminatedIri, 13)));
}

#[test]
fn parse_incomplete_input() {
    assert_eq!(parse(b"<s> <p>"), Err(failure(ErrorKind::IncompleteInput, 7)));
    assert_eq!(parse(b"<s> <p> <o>"), Err(failure(ErrorKind::IncompleteInput, 11)));
    assert_eq!(parse(b"<s> <p> <o>  "), Err(failure(ErrorKind::IncompleteInput, 13)));
    assert_eq!(parse(b"_"), Err(failure(ErrorKind::IncompleteInput, 1)));
    assert_eq!(parse(b"_:"), Err(failure(ErrorKind::IncompleteInput, 2)));
    assert_eq!(parse(b"<s> <p> \"x\"^"), Err(failure(ErrorKind::IncompleteInput, 12)));
    assert_eq!(parse(b"<s> <p> \"x\"@"), Err(failure(ErrorKind::IncompleteInput, 12)));
}

#[test]
fn parse_unexpected_token() {
    assert_eq!(parse(b"<> <p> <o> ."), Err(failure(ErrorKind::UnexpectedToken, 1)));
    assert_eq!(parse(b"_:-a <p> <o> ."), Err(failure(ErrorKind::UnexpectedToken, 2)));
    assert_eq!(parse(b"_x <p> <o> ."), Err(failure(ErrorKind::UnexpectedToken, 1)));
    assert_eq!(parse(b"<s> \"p\" <o> ."), Err(failure(ErrorKind::UnexpectedToken, 4)));
    assert_eq!(parse(b"<s> <p> <o> <x> ."), Err(failure(ErrorKind::UnexpectedToken, 12)));
    assert_eq!(parse(b"<s> <p> \"mo\"omin\" ."), Err(failure(ErrorKind::UnexpectedToken, 12)));
    assert_eq!(parse(b"<s> <p> \"x\"@12 ."), Err(failure(ErrorKind::UnexpectedToken, 12)));
    assert_eq!(parse(b"<s> <p> \"x\"^<d> ."), Err(failure(ErrorKind::UnexpectedToken, 12)));
}

#[test]
fn parse_conflicting_literal_tag() {
    assert_eq!(
        parse(b"<s> <p> \"x\"^^<http://www.w3.org/2001/XMLSchema#date>@en ."),
        Err(failure(ErrorKind::ConflictingLiteralTag, 52))
    );
}

#[test]
fn parse_language_tag_with_lang_string_datatype() {
    let graph = parse(
        b"<s> <p> \"x\"^^<http://www.w3.org/1999/02/22-rdf-syntax-ns#langString>@en-GB .",
    )
    .unwrap();
    let expected = Term::Literal(Literal::new_lang_string("x", "en-GB"));
    assert_eq!(graph.statements()[0].object(), &expected);
}

#[test]
fn parse_is_all_or_nothing() {
    let text = b"<a> <b> <c> .\n<d> <e> <f> .\n<g> <h>";
    assert_eq!(parse(text), Err(failure(ErrorKind::IncompleteInput, 35)));
    let (graph, consumed, halt) = document(text, &mut Vec::new());
    assert_eq!(graph.len(), 2);
    assert_eq!(consumed, 28);
    assert_eq!(halt, Some(failure(ErrorKind::IncompleteInput, 35)));
    let (rest, partial) = ntriples(text).unwrap();
    assert_eq!(rest, &b"<g> <h>"[..]);
    assert_eq!(partial, graph);
}

#[test]
fn document_of_whole_input_has_no_failure() {
    let text = b"<a> <b> <c> .\n";
    let (graph, consumed, halt) = document(text, &mut Vec::new());
    assert_eq!(graph.len(), 1);
    assert_eq!(consumed, text.len());
    assert_eq!(halt, None);
}

#[test]
fn ntriple_leaves_the_line_ending() {
    let (rest, statement) = ntriple(b" <a>\t<b> \"c d\"@en-GB  .  # note\n<next>", &mut Vec::new()).unwrap();
    assert_eq!(rest, &b"\n<next>"[..]);
    assert_eq!(
        statement,
        Statement::new(
            iri_term("a"),
            iri_term("b"),
            Term::Literal(Literal::new("c d", None, Some("en-GB")).unwrap())
        )
    );
}

#[test]
fn ntriple_failures_are_positioned() {
    assert_eq!(ntriple(b"  <a> <b> .", &mut Vec::new()), Err(failure(ErrorKind::UnexpectedToken, 10)));
    assert_eq!(ntriple(b"", &mut Vec::new()), Err(failure(ErrorKind::IncompleteInput, 0)));
    assert_eq!(ntriple(b"<a> <b> <c> ;", &mut Vec::new()), Err(failure(ErrorKind::UnexpectedToken, 12)));
}

#[test]
fn subject_picks_the_branch_by_the_first_byte() {
    assert_eq!(subject(b"<a> x", &mut Vec::new()), Ok((&b" x"[..], iri_term("a"))));
    let (rest, node) = subject(b"_:b1.", &mut Vec::new()).unwrap();
    assert_eq!(rest, &b"."[..]);
    assert!(matches!(node, Term::BNode(_)));
    assert_eq!(subject(b"\"a\"", &mut Vec::new()), Err(failure(ErrorKind::UnexpectedToken, 0)));
    assert_eq!(subject(b"", &mut Vec::new()), Err(failure(ErrorKind::IncompleteInput, 0)));
}

#[test]
fn object_may_be_a_literal() {
    assert_eq!(object(b"\"a\".", &mut Vec::new()), Ok((&b"."[..], plain("a"))));
    assert_eq!(object(b"<a>.", &mut Vec::new()), Ok((&b"."[..], iri_term("a"))));
    assert!(matches!(object(b"_:a.", &mut Vec::new()), Ok((_, Term::BNode(_)))));
    assert_eq!(object(b".", &mut Vec::new())
        , Err(failure(ErrorKind::UnexpectedToken, 0)));
}

#[test]
fn bnode_mints_a_node_per_occurrence() {
    let mut made = Vec::new();
    let (_, first) = bnode(b"_:same", &mut made).unwrap();
    let (_, second) = bnode(b"_:same", &mut made).unwrap();
    assert!(first != second);
    let third = to_bnode(b"same", &mut made);
    let fourth = to_bnode(b"same", &mut made);
    assert!(third != fourth);
    assert!(third != first && fourth != second);
    assert_eq!(first.clone(), first);
    assert_eq!(made.len(), 4);
    assert_eq!(Term::BNode(made[0]), first);
    assert_eq!(Term::BNode(made[3]), fourth);
}

#[test]
fn to_iri_decodes_utf8() {
    assert_eq!(to_iri("http://example.com/\u{e9}t\u{e9}".as_bytes()), Some(iri_term("http://example.com/\u{e9}t\u{e9}")));
    assert_eq!(to_iri(b"\xc3\x28"), None);
    assert_eq!(iri(b"<\xc3\x28>"), Err(failure(ErrorKind::InvalidUtf8, 1)));
}

#[test]
fn language_stops_at_the_first_byte_outside_the_tag() {
    assert_eq!(language(b"@en-GB-x1 ."), Ok((&b" ."[..], &b"en-GB-x1"[..])));
    assert_eq!(language(b"@en--GB"), Ok((&b"--GB"[..], &b"en"[..])));
    assert_eq!(language(b"@e1"), Ok((&b"1"[..], &b"e"[..])));
    assert_eq!(language(b"@"), Err(failure(ErrorKind::IncompleteInput, 1)));
    assert_eq!(language(b"@-"), Err(failure(ErrorKind::UnexpectedToken, 1)));
}

#[test]
fn literal_with_datatype_and_language() {
    assert_eq!(
        literal(b"\"a\"^^<d>@en"),
        Err(failure(ErrorKind::ConflictingLiteralTag, 8))
    );
    assert_eq!(literal(b"\"a\"^^<d"), Err(failure(ErrorKind::UnterminatedIri, 5)));
    assert_eq!(literal(b"\"a\"@"), Err(failure(ErrorKind::IncompleteInput, 4)));
    let (rest, term) = literal("\"gr\u{fc}n\"@de rest".as_bytes()).unwrap();
    assert_eq!(rest, &b" rest"[..]);
    assert_eq!(term, Term::Literal(Literal::new_lang_string("gr\u{fc}n", "de")));
}

#[test]
fn ntriple_records_the_blank_nodes_of_its_statement() {
    let mut made = vec![BNode::new(&[])];
    let (_, statement) = ntriple(b"_:a <p> _:a .", &mut made).unwrap();
    assert_eq!(made.len(), 3);
    assert_eq!(statement.subject(), &Term::BNode(made[1]));
    assert_eq!(statement.object(), &Term::BNode(made[2]));
    assert!(made[0] != made[1] && made[1] != made[2] && made[0] != made[2]);
    let (_, next) = ntriple(b"<s> <p> _:a .", &mut made).unwrap();
    assert_eq!(made.len(), 4);
    assert_eq!(next.object(), &Term::BNode(made[3]));
    let (_, none) = ntriple(b"<s> <p> \"o\" .", &mut made).unwrap();
    assert_eq!(made.len(), 4);
    assert_eq!(none.object(), &plain("o"));
}

#[test]
fn ntriple_that_fails_leaves_the_record_as_it_was() {
    let mut made = vec![BNode::new(&[])];
    let first = made[0];
    assert!(ntriple(b"_:a _:b <o> .", &mut made).is_err());
    assert_eq!(made, vec![first]);
    assert!(ntriple(b"_:a <p> _:b", &mut made).is_err());
    assert_eq!(made, vec![first]);
    assert!(ntriple(b"_:a <p> \"o", &mut made).is_err());
    assert_eq!(made, vec![first]);
    assert!(ntriple(b"_:a <p> _:", &mut made).is_err());
    assert_eq!(made, vec![first]);
}

#[test]
fn document_records_a_node_for_every_occurrence() {
    let mut made = Vec::new();
    let text = b"_:n1 <p> _:n1 .\n<s> <p> _:n1 .\n_:n2 <p> \"o\" .\n_:x <p>";
    let (graph, consumed, halt) = document(text, &mut made);
    assert_eq!(graph.len(), 3);
    assert_eq!(consumed, 46);
    assert_eq!(halt, Some(failure(ErrorKind::IncompleteInput, 53)));
    assert_eq!(made.len(), 4);
    for i in 0..made.len() {
        for j in 0..i {
            assert!(made[i] != made[j]);
        }
    }
    assert_eq!(graph.statements()[0].subject(), &Term::BNode(made[0]));
    assert_eq!(graph.statements()[0].object(), &Term::BNode(made[1]));
    assert_eq!(graph.statements()[1].object(), &Term::BNode(made[2]));
    assert_eq!(graph.statements()[2].subject(), &Term::BNode(made[3]));
    let (more, _, _) = document(b"_:n1 <p> <o> .", &mut made);
    assert_eq!(made.len(), 5);
    assert_eq!(more.statements()[0].subject(), &Term::BNode(made[4]));
    assert!(made[4] != made[0]);
}

#[test]
fn parse_keeps_every_line_that_names_a_blank_node() {
    let graph = parse(b"_:a <p> <o> .\n_:a <p> <o> .\n<s> <p> _:a .\n<s> <p> _:a .\n").unwrap();
    assert_eq!(graph.len(), 4);
}
