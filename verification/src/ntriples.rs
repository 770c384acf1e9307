//! A reader of NTriples documents.

use vstd::prelude::*;
use vstd::slice::slice_subrange;
use vstd::utf8::*;
use crate::error::{ErrorKind, Failure, ParseError};
use crate::grammar::{
    blank_lines_len, bnode_label_spec, bnode_spec, comment_len, comment_spec, datatype_spec,
    datatype_suffix_spec, delimited_spec, document_spec, entry_spec, iri_spec, iriref_spec,
    language_spec, language_suffix_spec, lemma_blank_lines_from, lemma_comment_within,
    lemma_document_resumes_at, lemma_entry_from, lemma_ntriple_within, literal_quote_spec,
    literal_spec, literal_value_spec, ntriple_spec, object_spec, pair_spec, past_blanks, resumed,
    shifted_halt, stuck, subject_spec, subtags_len, triple_seq, DocumentShape, AT, CARET, COLON,
    DOT, GREATER, HASH, HYPHEN, LESS, NEWLINE, QUOTE, UNDERSCORE,
};
use crate::graph::Graph;
use crate::lex::{blanks, bytes_before, letters, letters_or_digits, line_end};
use crate::statement::{all_nodes, Statement, StatementView, TripleShape};
use snowflake::ProcessUniqueId;
use crate::term::{
    fresh_after, ids_of, lemma_record_grows, BNode, Literal, Term, TermShape, TermView, IRI,
};
use crate::text::decode;

verus! {

/// The outcome `r` of a production that matches a span of `input` is the one that the grammar
/// gives: the same span with the input that follows the match, or the same failure.
pub open spec fn span_agrees(
    input: Seq<u8>,
    r: Result<(&[u8], &[u8]), ParseError>,
    expected: Result<(int, Seq<u8>), Failure>,
) -> bool {
    match (r, expected) {
        (Ok((rest, span)), Ok((n, bytes))) => {
            &&& 0 <= n <= input.len()
            &&& rest@ == input.skip(n)
            &&& span@ == bytes
        },
        (Err(error), Err(failure)) => error@ == failure && error.offset <= input.len(),
        _ => false,
    }
}

/// The outcome `r` of a production that makes a term is the one that the grammar gives: a
/// term of the same shape with the input that follows the match, or the same failure.
pub open spec fn term_agrees(
    input: Seq<u8>,
    r: Result<(&[u8], Term), ParseError>,
    expected: Result<(int, TermShape), Failure>,
) -> bool {
    match (r, expected) {
        (Ok((rest, term)), Ok((n, shape))) => {
            &&& 0 <= n <= input.len()
            &&& rest@ == input.skip(n)
            &&& term@.shape() == shape
        },
        (Err(error), Err(failure)) => error@ == failure && error.offset <= input.len(),
        _ => false,
    }
}

/// The failure of a production that cannot go on at `at`.
fn stuck_at(input: &[u8], at: usize) -> (error: ParseError)
    requires
        at <= input@.len(),
    ensures
        error@ == stuck(input@, at as int),
        error.offset == at,
{
    if at >= input.len() {
        ParseError::new(ErrorKind::IncompleteInput, at)
    } else {
        ParseError::new(ErrorKind::UnexpectedToken, at)
    }
}

/// Whether `input` begins with the bytes `a`, `b`, and the failure if it does not.
fn pair(input: &[u8], a: u8, b: u8) -> (r: Option<ParseError>)
    ensures
        match r {
            Some(error) => pair_spec(input@, a, b) == Some(error@) && error.offset <= input@.len(),
            None => pair_spec(input@, a, b) is None,
        },
{
    if input.len() == 0 || input[0] != a {
        Some(stuck_at(input, 0))
    } else if input.len() == 1 || input[1] != b {
        Some(stuck_at(input, 1))
    } else {
        None
    }
}

/// Matches `open`, the bytes up to the next `close`, and `close`.
fn delimited<'a>(
    input: &'a [u8],
    open: u8,
    close: u8,
    unterminated: ErrorKind,
    allow_empty: bool,
) -> (r: Result<(&'a [u8], &'a [u8]), ParseError>)
    ensures
        span_agrees(input@, r, delimited_spec(input@, open, close, unterminated, allow_empty)),
{
    if input.len() == 0 || input[0] != open {
        return Err(stuck_at(input, 0));
    }
    let n = bytes_before(slice_subrange(input, 1, input.len()), close);
    if n + 1 >= input.len() {
        Err(ParseError::new(unterminated, 0))
    } else if n == 0 && !allow_empty {
        Err(ParseError::new(ErrorKind::UnexpectedToken, 1))
    } else {
        Ok((slice_subrange(input, n + 2, input.len()), slice_subrange(input, 1, n + 1)))
    }
}

/// Matches an IRI reference and gives the bytes between the angle brackets.
pub fn iriref<'a>(input: &'a [u8]) -> (r: Result<(&'a [u8], &'a [u8]), ParseError>)
    ensures
        span_agrees(input@, r, iriref_spec(input@)),
{
    delimited(input, LESS, GREATER, ErrorKind::UnterminatedIri, false)
}

/// Matches a quoted string and gives the bytes between the quotes.
pub fn literal_quote<'a>(input: &'a [u8]) -> (r: Result<(&'a [u8], &'a [u8]), ParseError>)
    ensures
        span_agrees(input@, r, literal_quote_spec(input@)),
{
    delimited(input, QUOTE, QUOTE, ErrorKind::UnterminatedLiteral, true)
}

/// Matches a blank node label and gives the label without its `_:`.
pub fn bnode_label<'a>(input: &'a [u8]) -> (r: Result<(&'a [u8], &'a [u8]), ParseError>)
    ensures
        span_agrees(input@, r, bnode_label_spec(input@)),
{
    match pair(input, UNDERSCORE, COLON) {
        Some(error) => Err(error),
        None => {
            let n = letters_or_digits(slice_subrange(input, 2, input.len()));
            if n == 0 {
                Err(stuck_at(input, 2))
            } else {
                Ok((slice_subrange(input, n + 2, input.len()), slice_subrange(input, 2, n + 2)))
            }
        },
    }
}

/// Matches a comment and gives its text without the `#`.
pub fn comment<'a>(input: &'a [u8]) -> (r: Result<(&'a [u8], &'a [u8]), ParseError>)
    ensures
        span_agrees(input@, r, comment_spec(input@)),
{
    if input.len() == 0 || input[0] != HASH {
        return Err(stuck_at(input, 0));
    }
    let n = bytes_before(slice_subrange(input, 1, input.len()), NEWLINE);
    Ok((slice_subrange(input, n + 1, input.len()), slice_subrange(input, 1, n + 1)))
}

/// The length of the subtags that `input` begins with.
pub fn subtags(input: &[u8]) -> (n: usize)
    ensures
        n == subtags_len(input@),
        n <= input@.len(),
{
    let mut n: usize = 0;
    let mut more = true;
    assert(input@.skip(0) =~= input@);
    while more
        invariant
            n <= input@.len(),
            subtags_len(input@) == n + subtags_len(input@.skip(n as int)),
            !more ==> subtags_len(input@.skip(n as int)) == 0,
        decreases input@.len() - n + if more { 1int } else { 0int },
    {
        let ghost here = input@.skip(n as int);
        more = false;
        if n < input.len() && input[n] == HYPHEN {
            let m = letters_or_digits(slice_subrange(input, n + 1, input.len()));
            assert(input@.subrange(n + 1, input@.len() as int) =~= here.skip(1));
            if m > 0 {
                assert(here.skip(1 + m) =~= input@.skip(n + 1 + m));
                n = n + 1 + m;
                more = true;
            }
        }
    }
    n
}

/// Matches a language tag and gives the tag without its `@`.
pub fn language<'a>(input: &'a [u8]) -> (r: Result<(&'a [u8], &'a [u8]), ParseError>)
    ensures
        span_agrees(input@, r, language_spec(input@)),
{
    if input.len() == 0 || input[0] != AT {
        return Err(stuck_at(input, 0));
    }
    let n = letters(slice_subrange(input, 1, input.len()));
    if n == 0 {
        return Err(stuck_at(input, 1));
    }
    let end = 1 + n + subtags(slice_subrange(input, 1 + n, input.len()));
    Ok((slice_subrange(input, end, input.len()), slice_subrange(input, 1, end)))
}

/// Matches `^^` and an IRI reference, and gives the bytes between the angle brackets.
pub fn datatype<'a>(input: &'a [u8]) -> (r: Result<(&'a [u8], &'a [u8]), ParseError>)
    ensures
        span_agrees(input@, r, datatype_spec(input@)),
{
    match pair(input, CARET, CARET) {
        Some(error) => Err(error),
        None => match iriref(slice_subrange(input, 2, input.len())) {
            Ok((rest, iri)) => {
                assert(rest@ =~= input@.skip(input@.len() - rest@.len()));
                Ok((rest, iri))
            },
            Err(error) => Err(error.shifted(2)),
        },
    }
}

/// The IRI whose characters `iri_bytes` encode, or nothing where they are not UTF-8.
pub fn to_iri<'a>(iri_bytes: &'a [u8]) -> (r: Option<Term<'a>>)
    ensures
        match r {
            Some(term) => valid_utf8(iri_bytes@) && term@ == TermView::Iri(
                decode_utf8(iri_bytes@),
            ),
            None => !valid_utf8(iri_bytes@),
        },
{
    match decode(iri_bytes) {
        Some(value) => Some(Term::IRI(IRI::new(value))),
        None => None,
    }
}

/// A new blank node for an occurrence of a label. The label does not choose the node: two
/// occurrences of one label get two nodes. The node is none of those in `made`, and joins
/// them.
pub fn to_bnode<'a>(_label: &[u8], made: &mut Vec<BNode>) -> (term: Term<'a>)
    ensures
        term@ matches TermView::BNode(id) && !ids_of(old(made)@).contains(id) && ids_of(
            final(made)@,
        ) == ids_of(old(made)@).push(id),
{
    let node = BNode::new(made.as_slice());
    made.push(node);
    assert(ids_of(made@) =~= ids_of(old(made)@).push(node@));
    Term::BNode(node)
}

/// What a production that makes a term does to the record of blank nodes: a blank node that
/// it made is new beside the record and joins it, and nothing else changes the record.
pub open spec fn term_recorded(
    before: Seq<BNode>,
    after: Seq<BNode>,
    r: Result<(&[u8], Term), ParseError>,
) -> bool {
    match r {
        Ok((_, term)) => {
            &&& ids_of(after) == ids_of(before) + term@.node()
            &&& fresh_after(ids_of(before), term@.node())
        },
        Err(_) => ids_of(after) == ids_of(before),
    }
}

/// Matches an IRI reference and gives it as a term.
pub fn iri<'a>(input: &'a [u8]) -> (r: Result<(&'a [u8], Term<'a>), ParseError>)
    ensures
        term_agrees(input@, r, iri_spec(input@)),
{
    match iriref(input) {
        Ok((rest, bytes)) => match to_iri(bytes) {
            Some(term) => Ok((rest, term)),
            None => Err(ParseError::new(ErrorKind::InvalidUtf8, 1)),
        },
        Err(error) => Err(error),
    }
}

/// Matches a blank node label and gives a new blank node, which joins `made`.
pub fn bnode<'a>(input: &'a [u8], made: &mut Vec<BNode>) -> (r: Result<
    (&'a [u8], Term<'a>),
    ParseError,
>)
    ensures
        term_agrees(input@, r, bnode_spec(input@)),
        term_recorded(old(made)@, final(made)@, r),
{
    match bnode_label(input) {
        Ok((rest, label)) => {
            let term = to_bnode(label, made);
            proof {
                let id = term@->BNode_0;
                assert(ids_of(old(made)@).push(id) =~= ids_of(old(made)@) + term@.node());
                assert(term@.node()[0] == id);
            }
            Ok((rest, term))
        },
        Err(error) => Err(error),
    }
}

/// The bytes of an optional span.
pub open spec fn opt_bytes(span: Option<&[u8]>) -> Option<Seq<u8>> {
    match span {
        Some(span) => Some(span@),
        None => None,
    }
}

/// An optional suffix of a literal: how many bytes it takes and the span that it holds.
pub open spec fn suffix_agrees(
    input: Seq<u8>,
    r: Result<(usize, Option<&[u8]>), ParseError>,
    expected: Result<(int, Option<Seq<u8>>), Failure>,
) -> bool {
    match (r, expected) {
        (Ok((n, span)), Ok((m, bytes))) => n == m && n <= input.len() && opt_bytes(span) == bytes,
        (Err(error), Err(failure)) => error@ == failure && error.offset <= input.len(),
        _ => false,
    }
}

/// Matches the datatype after a quoted string, if `input` begins with `^`.
fn datatype_suffix<'a>(input: &'a [u8]) -> (r: Result<(usize, Option<&'a [u8]>), ParseError>)
    ensures
        suffix_agrees(input@, r, datatype_suffix_spec(input@)),
{
    if input.len() > 0 && input[0] == CARET {
        match datatype(input) {
            Ok((rest, iri)) => Ok((input.len() - rest.len(), Some(iri))),
            Err(error) => Err(error),
        }
    } else {
        Ok((0, None))
    }
}

/// Matches the language tag after a quoted string and its datatype, if `input` begins with
/// `@`.
fn language_suffix<'a>(input: &'a [u8]) -> (r: Result<(usize, Option<&'a [u8]>), ParseError>)
    ensures
        suffix_agrees(input@, r, language_suffix_spec(input@)),
{
    if input.len() > 0 && input[0] == AT {
        match language(input) {
            Ok((rest, tag)) => Ok((input.len() - rest.len(), Some(tag))),
            Err(error) => Err(error),
        }
    } else {
        Ok((0, None))
    }
}

/// The literal of three matched spans, as `literal_value_spec` describes it.
fn literal_value<'a>(
    lexical: &'a [u8],
    datatype: Option<&'a [u8]>,
    lang: Option<&'a [u8]>,
    quoted: usize,
    tagged: usize,
) -> (r: Result<Literal<'a>, ParseError>)
    requires
        datatype is Some ==> quoted + 3 <= usize::MAX,
        lang is Some ==> tagged + 1 <= usize::MAX,
    ensures
        match (r, literal_value_spec(
            lexical@,
            opt_bytes(datatype),
            opt_bytes(lang),
            quoted as int,
            tagged as int,
        )) {
            (Ok(literal), Ok(expected)) => literal@ == expected,
            (Err(error), Err(failure)) => error@ == failure,
            _ => false,
        },
{
    let text = match decode(lexical) {
        Some(text) => text,
        None => {
            return Err(ParseError::new(ErrorKind::InvalidUtf8, 1));
        },
    };
    let iri = match datatype {
        Some(bytes) => match decode(bytes) {
            Some(value) => Some(IRI::new(value)),
            None => {
                return Err(ParseError::new(ErrorKind::InvalidUtf8, quoted + 3));
            },
        },
        None => None,
    };
    let tag = match lang {
        Some(bytes) => match decode(bytes) {
            Some(value) => Some(value),
            None => {
                return Err(ParseError::new(ErrorKind::InvalidUtf8, tagged + 1));
            },
        },
        None => None,
    };
    match Literal::new(text, iri, tag) {
        Ok(literal) => Ok(literal),
        Err(kind) => Err(ParseError::new(kind, tagged)),
    }
}

/// Matches a literal: a quoted string, then an optional datatype, then an optional language
/// tag.
pub fn literal<'a>(input: &'a [u8]) -> (r: Result<(&'a [u8], Term<'a>), ParseError>)
    ensures
        term_agrees(input@, r, literal_spec(input@)),
{
    let (quoted, lexical) = match literal_quote(input) {
        Ok((rest, lexical)) => (input.len() - rest.len(), lexical),
        Err(error) => {
            return Err(error);
        },
    };
    let (typed, datatype) = match datatype_suffix(slice_subrange(input, quoted, input.len())) {
        Ok(found) => found,
        Err(error) => {
            return Err(error.shifted(quoted));
        },
    };
    let (tagged, lang) = match language_suffix(
        slice_subrange(input, quoted + typed, input.len()),
    ) {
        Ok(found) => found,
        Err(error) => {
            return Err(error.shifted(quoted + typed));
        },
    };
    match literal_value(lexical, datatype, lang, quoted, quoted + typed) {
        Ok(value) => Ok(
            (slice_subrange(input, quoted + typed + tagged, input.len()), Term::Literal(value)),
        ),
        Err(error) => Err(error),
    }
}

/// A term that is no blank node leaves the record of blank nodes as it is.
proof fn lemma_no_node_recorded(made: Seq<BNode>, r: Result<(&[u8], Term), ParseError>)
    requires
        r matches Ok((_, term)) ==> !(term@ is BNode),
    ensures
        term_recorded(made, made, r),
{
    assert(ids_of(made) + Seq::<ProcessUniqueId>::empty() =~= ids_of(made));
}

/// Matches a subject: an IRI reference or a blank node label. A blank node is new and joins
/// `made`.
pub fn subject<'a>(input: &'a [u8], made: &mut Vec<BNode>) -> (r: Result<
    (&'a [u8], Term<'a>),
    ParseError,
>)
    ensures
        term_agrees(input@, r, subject_spec(input@)),
        term_recorded(old(made)@, final(made)@, r),
{
    if input.len() > 0 && input[0] == LESS {
        let r = iri(input);
        proof {
            lemma_no_node_recorded(made@, r);
        }
        r
    } else if input.len() > 0 && input[0] == UNDERSCORE {
        bnode(input, made)
    } else {
        Err(stuck_at(input, 0))
    }
}

/// Matches an object: an IRI reference, a blank node label or a literal. A blank node is new
/// and joins `made`.
pub fn object<'a>(input: &'a [u8], made: &mut Vec<BNode>) -> (r: Result<
    (&'a [u8], Term<'a>),
    ParseError,
>)
    ensures
        term_agrees(input@, r, object_spec(input@)),
        term_recorded(old(made)@, final(made)@, r),
{
    if input.len() > 0 && input[0] == QUOTE {
        let r = literal(input);
        proof {
            lemma_no_node_recorded(made@, r);
        }
        r
    } else {
        subject(input, made)
    }
}

/// The outcome `r` of the triple production is the one that the grammar gives: a statement of
/// the same shape with the input that follows the match, or the same failure.
pub open spec fn triple_agrees(
    input: Seq<u8>,
    r: Result<(&[u8], Statement), ParseError>,
    expected: Result<(int, TripleShape), Failure>,
) -> bool {
    match (r, expected) {
        (Ok((rest, statement)), Ok((n, shape))) => {
            &&& 0 < n <= input.len()
            &&& rest@ == input.skip(n)
            &&& statement@.shape() == shape
            &&& statement@.well_placed()
        },
        (Err(error), Err(failure)) => error@ == failure && error.offset <= input.len(),
        _ => false,
    }
}

/// The offset after the blanks that `input` has from `at` on.
fn skip_blanks(input: &[u8], at: usize) -> (end: usize)
    requires
        at <= input@.len(),
    ensures
        end == past_blanks(input@, at as int),
        at <= end <= input@.len(),
{
    at + blanks(slice_subrange(input, at, input.len()))
}

/// The offset after the comment that `input` has at `at`, or `at` where it has none there.
fn skip_comment(input: &[u8], at: usize) -> (end: usize)
    requires
        at <= input@.len(),
    ensures
        end == at + comment_len(input@.skip(at as int)),
        at <= end <= input@.len(),
{
    proof {
        lemma_comment_within(input@.skip(at as int));
    }
    match comment(slice_subrange(input, at, input.len())) {
        Ok((rest, _)) => input.len() - rest.len(),
        Err(_) => at,
    }
}

/// What the triple production does to the record of blank nodes: the blank nodes of the
/// statement, occurrence by occurrence, are new beside the record and join it. A triple that
/// fails leaves the record as it was.
pub open spec fn triple_recorded(
    before: Seq<BNode>,
    after: Seq<BNode>,
    r: Result<(&[u8], Statement), ParseError>,
) -> bool {
    match r {
        Ok((_, statement)) => {
            &&& ids_of(after) == ids_of(before) + statement@.nodes()
            &&& fresh_after(ids_of(before), statement@.nodes())
        },
        Err(_) => ids_of(after) == ids_of(before),
    }
}

/// Takes from the record what was added to its first `start` blank nodes.
fn forget(made: &mut Vec<BNode>, start: usize)
    requires
        start <= old(made)@.len(),
    ensures
        ids_of(final(made)@) == ids_of(old(made)@).take(start as int),
{
    made.truncate(start);
    assert(ids_of(made@) =~= ids_of(old(made)@).take(start as int));
}

/// Matches a triple with the blanks around its parts, its full stop and the comment after it.
/// The blank nodes of the statement are new and join `made`.
pub fn ntriple<'a>(input: &'a [u8], made: &mut Vec<BNode>) -> (r: Result<
    (&'a [u8], Statement<'a>),
    ParseError,
>)
    ensures
        triple_agrees(input@, r, ntriple_spec(input@)),
        triple_recorded(old(made)@, final(made)@, r),
{
    proof {
        lemma_ntriple_within(input@);
    }
    let len = input.len();
    let start = made.len();
    let ghost before = ids_of(made@);
    let a = skip_blanks(input, 0);
    let (after_subject, s) = match subject(slice_subrange(input, a, len), made) {
        Ok((rest, term)) => (len - rest.len(), term),
        Err(error) => {
            return Err(error.shifted(a));
        },
    };
    proof {
        lemma_record_grows(before, s@.node(), Seq::empty());
    }
    let b = skip_blanks(input, after_subject);
    let (after_predicate, p) = match iri(slice_subrange(input, b, len)) {
        Ok((rest, term)) => (len - rest.len(), term),
        Err(error) => {
            forget(made, start);
            return Err(error.shifted(b));
        },
    };
    let c = skip_blanks(input, after_predicate);
    let (after_object, o) = match object(slice_subrange(input, c, len), made) {
        Ok((rest, term)) => (len - rest.len(), term),
        Err(error) => {
            forget(made, start);
            return Err(error.shifted(c));
        },
    };
    proof {
        lemma_record_grows(before, s@.node(), o@.node());
        assert(ids_of(made@).len() == made@.len());
        assert(before.len() == start);
    }
    let d = skip_blanks(input, after_object);
    if d >= len || input[d] != DOT {
        forget(made, start);
        return Err(stuck_at(input, d));
    }
    let e = skip_blanks(input, d + 1);
    let end = skip_comment(input, e);
    Ok((slice_subrange(input, end, len), Statement::new(s, p, o)))
}

/// The offset after the blank material that `input` has from `at` on.
fn skip_blank_lines(input: &[u8], at: usize) -> (end: usize)
    requires
        at <= input@.len(),
    ensures
        end == at + blank_lines_len(input@.skip(at as int)),
        at <= end <= input@.len(),
{
    let len = input.len();
    let mut end = at;
    let mut more = true;
    while more
        invariant
            len == input@.len(),
            at <= end <= len,
            more ==> at + blank_lines_len(input@.skip(at as int)) == end + blank_lines_len(
                input@.skip(end as int),
            ),
            !more ==> at + blank_lines_len(input@.skip(at as int)) == end,
        decreases len - end + if more { 1int } else { 0int },
    {
        let b = skip_blanks(input, end);
        let c = skip_comment(input, b);
        let e = line_end(slice_subrange(input, c, len));
        proof {
            lemma_blank_lines_from(input@, end as int, b as int, c as int, e as int);
        }
        end = c + e;
        more = e > 0;
    }
    end
}

/// The failure that an optional error reports.
pub open spec fn opt_failure(error: Option<ParseError>) -> Option<Failure> {
    match error {
        Some(error) => Some(error@),
        None => None,
    }
}

/// The shape of an optional statement.
pub open spec fn opt_shape(statement: Option<Statement>) -> Option<TripleShape> {
    match statement {
        Some(statement) => Some(statement@.shape()),
        None => None,
    }
}

/// One entry of a document as it was read from an offset of the input.
pub struct Entry<'a> {
    /// The statement of the entry's triple, if a triple was read.
    pub statement: Option<Statement<'a>>,
    /// The offset after the entry.
    pub end: usize,
    /// The failure that ends the reading, at an offset of the whole input.
    pub halt: Option<ParseError>,
    /// Whether another entry may follow.
    pub more: bool,
}

/// The identifiers of the blank nodes of an optional statement.
pub open spec fn opt_nodes(statement: Option<Statement>) -> Seq<ProcessUniqueId> {
    match statement {
        Some(statement) => statement@.nodes(),
        None => Seq::empty(),
    }
}

/// Reads the entry that `input` has at `at`: blank material, a triple, and a line ending.
/// The blank nodes of the statement are new and join `made`.
pub fn entry<'a>(input: &'a [u8], at: usize, made: &mut Vec<BNode>) -> (r: Entry<'a>)
    requires
        at <= input@.len(),
    ensures
        opt_shape(r.statement) == entry_spec(input@.skip(at as int)).triple,
        r.statement matches Some(statement) ==> statement@.well_placed(),
        r.end == at + entry_spec(input@.skip(at as int)).consumed,
        at <= r.end <= input@.len(),
        opt_failure(r.halt) == shifted_halt(entry_spec(input@.skip(at as int)).halt, at as int),
        r.more == entry_spec(input@.skip(at as int)).more,
        ids_of(final(made)@) == ids_of(old(made)@) + opt_nodes(r.statement),
        fresh_after(ids_of(old(made)@), opt_nodes(r.statement)),
{
    proof {
        assert(ids_of(made@) + Seq::<ProcessUniqueId>::empty() =~= ids_of(made@));
    }
    let len = input.len();
    let k = skip_blank_lines(input, at);
    proof {
        lemma_entry_from(input@, at as int, k as int);
    }
    if k >= len {
        return Entry { statement: None, end: k, halt: None, more: false };
    }
    match ntriple(slice_subrange(input, k, len), made) {
        Err(error) => Entry { statement: None, end: k, halt: Some(error.shifted(k)), more: false },
        Ok((rest, statement)) => {
            let m = len - rest.len();
            let e = line_end(rest);
            if m >= len {
                Entry { statement: Some(statement), end: m, halt: None, more: false }
            } else if e == 0 {
                Entry {
                    statement: Some(statement),
                    end: m,
                    halt: Some(ParseError::new(ErrorKind::UnexpectedToken, m)),
                    more: false,
                }
            } else {
                Entry { statement: Some(statement), end: m + e, halt: None, more: true }
            }
        },
    }
}

/// What each of the statements is without the identities of its blank nodes.
pub open spec fn shapes_of(statements: Seq<StatementView>) -> Seq<TripleShape> {
    Seq::new(statements.len(), |i: int| statements[i].shape())
}

/// The statements are what reading the triples gives: each is of the shape of its triple and
/// has its terms where a statement may have them, and every occurrence of a blank node label
/// got a node of its own, so that the blank nodes of the statements, occurrence by occurrence,
/// are pairwise different.
pub open spec fn read_as(statements: Seq<StatementView>, triples: Seq<TripleShape>) -> bool {
    &&& shapes_of(statements) == triples
    &&& forall|i: int| 0 <= i < statements.len() ==> (#[trigger] statements[i]).well_placed()
    &&& all_nodes(statements).no_duplicates()
}

/// The graph holds the statements that reading the triples gives, and nothing else. Which
/// blank nodes stand in the statements is left open, but for this: no two occurrences share
/// one.
pub open spec fn built_from(graph: Set<StatementView>, triples: Seq<TripleShape>) -> bool {
    exists|statements: Seq<StatementView>|
        #[trigger] read_as(statements, triples) && graph == statements.to_set()
}

/// As `built_from`, with the record of blank nodes: the blank nodes of the statements are
/// none of those that the record held before, and the record holds them after, in the order
/// of their occurrence.
pub open spec fn built_beside(
    graph: Set<StatementView>,
    triples: Seq<TripleShape>,
    before: Seq<ProcessUniqueId>,
    after: Seq<ProcessUniqueId>,
) -> bool {
    exists|statements: Seq<StatementView>|
        {
            &&& #[trigger] read_as(statements, triples)
            &&& graph == statements.to_set()
            &&& after == before + all_nodes(statements)
            &&& fresh_after(before, all_nodes(statements))
        }
}

/// The statements that were read, their shapes and their blank nodes, with one more or as
/// they are.
proof fn lemma_shapes_grow(read: Seq<StatementView>, next: Option<Statement>)
    ensures
        match next {
            Some(statement) => {
                &&& shapes_of(read.push(statement@)) == shapes_of(read) + triple_seq(
                    opt_shape(next),
                )
                &&& read.push(statement@).to_set() == read.to_set().insert(statement@)
                &&& all_nodes(read.push(statement@)) == all_nodes(read) + opt_nodes(next)
            },
            None => {
                &&& shapes_of(read) == shapes_of(read) + triple_seq(opt_shape(next))
                &&& all_nodes(read) == all_nodes(read) + opt_nodes(next)
            },
        },
{
    match next {
        Some(statement) => {
            read.lemma_push_to_set_commute(statement@);
            assert(shapes_of(read.push(statement@)) =~= shapes_of(read) + triple_seq(
                opt_shape(next),
            ));
            assert(read.push(statement@).drop_last() =~= read);
        },
        None => {
            assert(shapes_of(read) =~= shapes_of(read) + triple_seq(opt_shape(next)));
            assert(all_nodes(read) =~= all_nodes(read) + opt_nodes(next));
        },
    }
}

/// Reads the triples of a document into a graph, up to the end of the input or to the first
/// place where no triple and no blank material can be read. Gives the graph, the number of
/// bytes that were read, and the failure at that place unless the input was used up. Every
/// occurrence of a blank node label gets a new blank node, which joins `made`.
pub fn document<'a>(input: &'a [u8], made: &mut Vec<BNode>) -> (r: (
    Graph<'a>,
    usize,
    Option<ParseError>,
))
    ensures
        built_beside(
            r.0@,
            document_spec(input@).triples,
            ids_of(old(made)@),
            ids_of(final(made)@),
        ),
        r.1 == document_spec(input@).consumed,
        r.1 <= input@.len(),
        opt_failure(r.2) == document_spec(input@).halt,
        r.2 is None ==> r.1 == input@.len(),
{
    let mut graph = Graph::new();
    let mut pos: usize = 0;
    let mut halt: Option<ParseError> = None;
    let mut more = true;
    let ghost before = ids_of(made@);
    let ghost mut read: Seq<StatementView> = Seq::empty();
    proof {
        assert(input@.skip(0) =~= input@);
        assert(shapes_of(read) + document_spec(input@).triples =~= document_spec(
            input@,
        ).triples);
        assert(read.to_set() =~= Set::<StatementView>::empty());
        assert(before + all_nodes(read) =~= before);
    }
    while more
        invariant
            pos <= input@.len(),
            graph@ == read.to_set(),
            forall|i: int| 0 <= i < read.len() ==> (#[trigger] read[i]).well_placed(),
            ids_of(made@) == before + all_nodes(read),
            fresh_after(before, all_nodes(read)),
            more ==> halt is None && document_spec(input@) == resumed(
                shapes_of(read),
                pos as int,
                document_spec(input@.skip(pos as int)),
            ),
            !more ==> document_spec(input@) == (DocumentShape {
                triples: shapes_of(read),
                consumed: pos as int,
                halt: opt_failure(halt),
            }),
            !more && halt is None ==> pos == input@.len(),
        decreases input@.len() - pos + if more { 1int } else { 0int },
    {
        let next = entry(input, pos, made);
        proof {
            lemma_document_resumes_at(shapes_of(read), input@, pos as int);
            lemma_shapes_grow(read, next.statement);
            lemma_record_grows(before, all_nodes(read), opt_nodes(next.statement));
        }
        match next.statement {
            Some(statement) => {
                proof {
                    read = read.push(statement@);
                }
                graph.insert(statement);
            },
            None => {},
        }
        pos = next.end;
        halt = next.halt;
        more = next.more;
    }
    proof {
        assert(read_as(read, document_spec(input@).triples));
    }
    (graph, pos, halt)
}

/// Matches a document: as many triples as can be read, with the blank lines and comments
/// around them. A document may hold no triple, so this production always matches; what it
/// could not read is the rest.
pub fn ntriples<'a>(input: &'a [u8]) -> (r: Result<(&'a [u8], Graph<'a>), ParseError>)
    ensures
        match r {
            Ok((rest, graph)) => {
                &&& 0 <= document_spec(input@).consumed <= input@.len()
                &&& rest@ == input@.skip(document_spec(input@).consumed)
                &&& built_from(graph@, document_spec(input@).triples)
            },
            Err(_) => false,
        },
{
    let mut made: Vec<BNode> = Vec::new();
    let (graph, consumed, _) = document(input, &mut made);
    Ok((slice_subrange(input, consumed, input.len()), graph))
}

/// Reads a whole document into a graph. Either every byte of the input belongs to a triple
/// or to the blank material around the triples, and the graph holds a statement for each
/// triple, with a blank node of its own for every occurrence of a label; or the reading
/// fails where it could not go on, and no graph is returned.
pub fn parse<'a>(input: &'a [u8]) -> (r: Result<Graph<'a>, ParseError>)
    ensures
        match r {
            Ok(graph) => {
                &&& document_spec(input@).halt is None
                &&& document_spec(input@).consumed == input@.len()
                &&& built_from(graph@, document_spec(input@).triples)
            },
            Err(error) => document_spec(input@).halt == Some(error@),
        },
{
    let mut made: Vec<BNode> = Vec::new();
    let (graph, _, halt) = document(input, &mut made);
    match halt {
        Some(error) => Err(error),
        None => Ok(graph),
    }
}

} // verus!
