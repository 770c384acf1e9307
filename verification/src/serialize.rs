//! A writer of NTriples documents.

use vstd::prelude::*;
use vstd::utf8::*;
use snowflake::ProcessUniqueId;
use crate::grammar::{
    document_spec, subtags_len, DocumentShape, AT, CARET, COLON, DOT, GREATER, LESS, LOWER_B,
    NEWLINE, QUOTE, SPACE, UNDERSCORE, ZERO,
};
use crate::graph::{views_of, Graph};
use crate::laws::lemma_document_reads;
use crate::lex::{bytes_before, lemma_run_len_is_run, lemma_run_unique, letters, run_len, ByteClass};
use crate::ntriples::{shapes_of, subtags};
use crate::statement::{Statement, StatementView, TripleShape};
use crate::term::{
    ids_of, BNode, Literal, LiteralView, Term, TermShape, TermView, IRI, LANG_STRING_IRI,
};

verus! {

/// No byte of `bytes` is `stop`.
pub open spec fn free_of(bytes: Seq<u8>, stop: u8) -> bool {
    forall|i: int| 0 <= i < bytes.len() ==> bytes[i] != stop
}

/// `bytes` is a language tag without its `@`: letters, then subtags of letters and digits that
/// a hyphen each introduces, and nothing after them.
pub open spec fn is_language_tag(bytes: Seq<u8>) -> bool {
    let n = run_len(bytes, ByteClass::Letter);
    n > 0 && n + subtags_len(bytes.skip(n)) == bytes.len()
}

/// An IRI can be written between angle brackets: it is not empty and holds no `>`.
pub open spec fn writable_iri(value: Seq<char>) -> bool {
    encode_utf8(value).len() > 0 && free_of(encode_utf8(value), GREATER)
}

/// A literal can be written: its lexical form holds no `"`, its datatype can be written,
/// and its language tag, if it has one, is a language tag beside the datatype
/// `rdf:langString`.
pub open spec fn writable_literal(literal: LiteralView) -> bool {
    &&& free_of(encode_utf8(literal.lexical), QUOTE)
    &&& writable_iri(literal.datatype)
    &&& match literal.lang {
        Some(tag) => is_language_tag(encode_utf8(tag)) && literal.datatype == LANG_STRING_IRI@,
        None => true,
    }
}

/// A term can be written. A blank node always can: its label is made up.
pub open spec fn writable_term(term: TermShape) -> bool {
    match term {
        TermShape::Iri(value) => writable_iri(value),
        TermShape::BNode => true,
        TermShape::Literal(literal) => writable_literal(literal),
    }
}

/// A triple can be written: its terms can, and each stands where a statement may have it.
pub open spec fn writable_triple(triple: TripleShape) -> bool {
    &&& triple.subject is Iri || triple.subject is BNode
    &&& triple.predicate is Iri
    &&& writable_term(triple.subject)
    &&& writable_term(triple.predicate)
    &&& writable_term(triple.object)
}

/// Every statement can be written.
pub open spec fn all_writable(statements: Seq<StatementView>) -> bool {
    forall|i: int| 0 <= i < statements.len() ==> writable_triple(#[trigger] statements[i].shape())
}

/// The decimal digits of `n`.
pub open spec fn digits(n: nat) -> Seq<u8>
    decreases n,
{
    if n < 10 {
        seq![(ZERO + n) as u8]
    } else {
        digits(n / 10).push((ZERO + n % 10) as u8)
    }
}

/// The place of the first `id` in `seen`, or the length of `seen` where it holds none.
pub open spec fn position(seen: Seq<ProcessUniqueId>, id: ProcessUniqueId) -> nat
    decreases seen.len(),
{
    if seen.len() == 0 || seen[0] == id {
        0
    } else {
        1 + position(seen.skip(1), id)
    }
}

/// The label of the blank node with the given number: `_:b` and the number's digits.
pub open spec fn label_text(number: nat) -> Seq<u8> {
    seq![UNDERSCORE, COLON, LOWER_B] + digits(number)
}

/// An IRI between angle brackets.
pub open spec fn iri_text(value: Seq<char>) -> Seq<u8> {
    seq![LESS] + encode_utf8(value) + seq![GREATER]
}

/// The language tag of a literal with its `@`, or nothing.
pub open spec fn lang_text(lang: Option<Seq<char>>) -> Seq<u8> {
    match lang {
        Some(tag) => seq![AT] + encode_utf8(tag),
        None => Seq::empty(),
    }
}

/// A literal: the lexical form in quotes, the datatype after `^^`, and the language tag.
pub open spec fn literal_text(literal: LiteralView) -> Seq<u8> {
    seq![QUOTE] + encode_utf8(literal.lexical) + seq![QUOTE, CARET, CARET] + iri_text(
        literal.datatype,
    ) + lang_text(literal.lang)
}

/// A term as it is written where the blank nodes `seen` were written before: a blank node
/// gets the number of its first occurrence.
pub open spec fn term_text(term: TermView, seen: Seq<ProcessUniqueId>) -> Seq<u8> {
    match term {
        TermView::Iri(value) => iri_text(value),
        TermView::BNode(id) => label_text(position(seen, id)),
        TermView::Literal(literal) => literal_text(literal),
    }
}

/// The blank nodes that were written once `term` is: one more where `term` is a new one.
pub open spec fn seen_after(term: TermView, seen: Seq<ProcessUniqueId>) -> Seq<ProcessUniqueId> {
    match term {
        TermView::BNode(id) => if position(seen, id) == seen.len() {
            seen.push(id)
        } else {
            seen
        },
        _ => seen,
    }
}

/// The blank nodes that were written once the statement is.
pub open spec fn seen_after_line(
    statement: StatementView,
    seen: Seq<ProcessUniqueId>,
) -> Seq<ProcessUniqueId> {
    seen_after(statement.object, seen_after(statement.subject, seen))
}

/// The line of a statement: its terms with a space after each, a full stop and a line feed.
pub open spec fn line_text(statement: StatementView, seen: Seq<ProcessUniqueId>) -> Seq<u8> {
    term_text(statement.subject, seen) + seq![SPACE] + term_text(statement.predicate, seen)
        + seq![SPACE] + term_text(statement.object, seen_after(statement.subject, seen))
        + seq![SPACE, DOT, NEWLINE]
}

/// The document of the statements, a line for each in their order.
pub open spec fn document_text(
    statements: Seq<StatementView>,
    seen: Seq<ProcessUniqueId>,
) -> Seq<u8>
    decreases statements.len(),
{
    if statements.len() == 0 {
        Seq::empty()
    } else {
        line_text(statements[0], seen) + document_text(
            statements.skip(1),
            seen_after_line(statements[0], seen),
        )
    }
}

/// A sequence is free of a byte exactly when its run of other bytes is the whole of it.
pub proof fn lemma_free_of_run(bytes: Seq<u8>, stop: u8)
    ensures
        free_of(bytes, stop) <==> run_len(bytes, ByteClass::Except(stop)) == bytes.len(),
{
    lemma_run_len_is_run(bytes, ByteClass::Except(stop));
    if free_of(bytes, stop) {
        lemma_run_unique(bytes, ByteClass::Except(stop), bytes.len() as int);
    }
}

/// Whether no byte of `bytes` is `stop`.
pub fn has_none(bytes: &[u8], stop: u8) -> (none: bool)
    ensures
        none == free_of(bytes@, stop),
{
    proof {
        lemma_free_of_run(bytes@, stop);
    }
    bytes_before(bytes, stop) == bytes.len()
}

/// Whether `bytes` is a language tag without its `@`.
pub fn language_tag(bytes: &[u8]) -> (tag: bool)
    ensures
        tag == is_language_tag(bytes@),
{
    let n = letters(bytes);
    if n == 0 {
        return false;
    }
    let m = subtags(vstd::slice::slice_subrange(bytes, n, bytes.len()));
    n + m == bytes.len()
}

/// Whether the IRI can be written.
pub fn iri_writable(iri: &IRI) -> (writable: bool)
    ensures
        writable == writable_iri(iri@),
{
    let bytes = iri.value().as_bytes();
    bytes.len() > 0 && has_none(bytes, GREATER)
}

/// Whether the literal can be written.
pub fn literal_writable(literal: &Literal) -> (writable: bool)
    ensures
        writable == writable_literal(literal@),
{
    let datatype = literal.datatype();
    let tagged = match literal.lang() {
        Some(tag) => language_tag(tag.as_bytes()) && datatype == IRI::new(LANG_STRING_IRI),
        None => true,
    };
    tagged && has_none(literal.lexical().as_bytes(), QUOTE) && iri_writable(&datatype)
}

/// Whether the term can be written.
pub fn term_writable(term: &Term) -> (writable: bool)
    ensures
        writable == writable_term(term@.shape()),
{
    match term {
        Term::IRI(iri) => iri_writable(iri),
        Term::BNode(_) => true,
        Term::Literal(literal) => literal_writable(literal),
    }
}

/// Whether the statement can be written.
pub fn writable(statement: &Statement) -> (writable: bool)
    ensures
        writable == writable_triple(statement@.shape()),
{
    let s = statement.subject();
    let p = statement.predicate();
    let o = statement.object();
    term_writable(s) && term_writable(p) && term_writable(o)
}

/// Appends `bytes` to `out`.
fn write_bytes(out: &mut Vec<u8>, bytes: &[u8])
    ensures
        final(out)@ == old(out)@ + bytes@,
{
    let mut i: usize = 0;
    while i < bytes.len()
        invariant
            i <= bytes@.len(),
            out@ == old(out)@ + bytes@.take(i as int),
        decreases bytes@.len() - i,
    {
        out.push(bytes[i]);
        i += 1;
        assert(out@ =~= old(out)@ + bytes@.take(i as int));
    }
    assert(bytes@.take(i as int) =~= bytes@);
}

/// Appends the decimal digits of `n` to `out`.
fn write_digits(out: &mut Vec<u8>, n: usize)
    ensures
        final(out)@ == old(out)@ + digits(n as nat),
    decreases n,
{
    if n < 10 {
        out.push(ZERO + n as u8);
        assert(out@ =~= old(out)@ + digits(n as nat));
    } else {
        write_digits(out, n / 10);
        out.push(ZERO + (n % 10) as u8);
        assert(out@ =~= old(out)@ + digits(n as nat));
    }
}

/// The place of the first node in `seen` that is `node`, or the length of `seen`.
fn number(seen: &Vec<BNode>, node: &BNode) -> (n: usize)
    ensures
        n == position(ids_of(seen@), node@),
        n <= seen@.len(),
{
    let mut n: usize = 0;
    assert(ids_of(seen@).skip(0) =~= ids_of(seen@));
    while n < seen.len() && seen[n] != *node
        invariant
            n <= seen@.len(),
            position(ids_of(seen@), node@) == n + position(ids_of(seen@).skip(n as int), node@),
        decreases seen@.len() - n,
    {
        assert(ids_of(seen@).skip(n as int).skip(1) =~= ids_of(seen@).skip(n + 1));
        n += 1;
    }
    n
}

/// Appends an IRI between angle brackets.
fn write_iri(out: &mut Vec<u8>, iri: &IRI)
    ensures
        final(out)@ == old(out)@ + iri_text(iri@),
{
    out.push(LESS);
    write_bytes(out, iri.value().as_bytes());
    out.push(GREATER);
    assert(out@ =~= old(out)@ + iri_text(iri@));
}

/// Appends a literal.
fn write_literal(out: &mut Vec<u8>, literal: &Literal)
    ensures
        final(out)@ == old(out)@ + literal_text(literal@),
{
    out.push(QUOTE);
    write_bytes(out, literal.lexical().as_bytes());
    out.push(QUOTE);
    out.push(CARET);
    out.push(CARET);
    let ghost quoted = out@;
    assert(quoted =~= old(out)@ + (seq![QUOTE] + encode_utf8(literal@.lexical) + seq![
        QUOTE,
        CARET,
        CARET,
    ]));
    let datatype = literal.datatype();
    write_iri(out, &datatype);
    let ghost typed = out@;
    match literal.lang() {
        Some(tag) => {
            out.push(AT);
            write_bytes(out, tag.as_bytes());
            assert(out@ =~= typed + lang_text(literal@.lang));
        },
        None => {
            assert(out@ =~= typed + lang_text(literal@.lang));
        },
    }
    assert(out@ =~= old(out)@ + literal_text(literal@));
}

/// Appends a term. A blank node that was not written before joins `seen`.
fn write_term(out: &mut Vec<u8>, term: &Term, seen: &mut Vec<BNode>)
    ensures
        final(out)@ == old(out)@ + term_text(term@, ids_of(old(seen)@)),
        ids_of(final(seen)@) == seen_after(term@, ids_of(old(seen)@)),
{
    match term {
        Term::IRI(iri) => write_iri(out, iri),
        Term::BNode(node) => {
            let n = number(seen, node);
            out.push(UNDERSCORE);
            out.push(COLON);
            out.push(LOWER_B);
            write_digits(out, n);
            assert(out@ =~= old(out)@ + label_text(n as nat));
            if n == seen.len() {
                seen.push(*node);
                assert(ids_of(seen@) =~= ids_of(old(seen)@).push(node@));
            }
        },
        Term::Literal(literal) => write_literal(out, literal),
    }
}

/// Appends the line of a statement.
fn write_line(out: &mut Vec<u8>, statement: &Statement, seen: &mut Vec<BNode>)
    ensures
        final(out)@ == old(out)@ + line_text(statement@, ids_of(old(seen)@)),
        ids_of(final(seen)@) == seen_after_line(statement@, ids_of(old(seen)@)),
{
    let ghost before = ids_of(seen@);
    write_term(out, statement.subject(), seen);
    out.push(SPACE);
    let ghost between = ids_of(seen@);
    write_term(out, statement.predicate(), seen);
    assert(ids_of(seen@) == between);
    out.push(SPACE);
    write_term(out, statement.object(), seen);
    out.push(SPACE);
    out.push(DOT);
    out.push(NEWLINE);
    assert(out@ =~= old(out)@ + line_text(statement@, before));
}

/// Writes the statements of the graph as an NTriples document, a line for each in the order
/// in which they were added. A blank node is written as `_:b` and a number: the number of
/// blank nodes that were written before its first occurrence. Nothing is written where a
/// statement cannot be. What is written reads as a document with a triple of the shape of
/// each statement, in the order of the statements.
pub fn serialize(graph: &Graph) -> (r: Option<Vec<u8>>)
    ensures
        match r {
            Some(text) => {
                &&& all_writable(graph.listed())
                &&& text@ == document_text(graph.listed(), Seq::empty())
                &&& document_spec(text@) == (DocumentShape {
                    triples: shapes_of(graph.listed()),
                    consumed: text@.len() as int,
                    halt: None,
                })
            },
            None => !all_writable(graph.listed()),
        },
{
    let statements = graph.statements();
    let ghost listed = graph.listed();
    let mut out: Vec<u8> = Vec::new();
    let mut seen: Vec<BNode> = Vec::new();
    let mut i: usize = 0;
    proof {
        assert(listed.skip(0) =~= listed);
        assert(ids_of(seen@) =~= Seq::<ProcessUniqueId>::empty());
        assert(out@ + document_text(listed, Seq::empty()) =~= document_text(
            listed,
            Seq::empty(),
        ));
    }
    while i < statements.len()
        invariant
            listed == graph.listed(),
            listed == views_of(statements@),
            i <= statements@.len(),
            forall|j: int| 0 <= j < i ==> writable_triple(#[trigger] listed[j].shape()),
            out@ + document_text(listed.skip(i as int), ids_of(seen@)) == document_text(
                listed,
                Seq::empty(),
            ),
        decreases statements@.len() - i,
    {
        if !writable(&statements[i]) {
            assert(!writable_triple(listed[i as int].shape()));
            return None;
        }
        let ghost rest = listed.skip(i as int);
        let ghost before = out@;
        let ghost nodes = ids_of(seen@);
        write_line(&mut out, &statements[i], &mut seen);
        proof {
            assert(rest[0] == listed[i as int]);
            assert(rest.skip(1) =~= listed.skip(i + 1));
            assert(before + (line_text(rest[0], nodes) + document_text(
                rest.skip(1),
                seen_after_line(rest[0], nodes),
            )) =~= before + line_text(rest[0], nodes) + document_text(
                rest.skip(1),
                seen_after_line(rest[0], nodes),
            ));
        }
        i += 1;
    }
    proof {
        assert(out@ + document_text(listed.skip(i as int), ids_of(seen@)) =~= out@);
        lemma_document_reads(listed, Seq::empty());
    }
    Some(out)
}

} // verus!
