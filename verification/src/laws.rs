//! Laws: what holds of a graph as statements are added, and between writing a document and
//! reading it.

use vstd::prelude::*;
use vstd::utf8::*;
use snowflake::ProcessUniqueId;
use crate::error::{ErrorKind, Failure};
use crate::grammar::{
    blank_lines_len, bnode_spec, comment_len, datatype_suffix_spec, delimited_spec, document_spec,
    entry_spec, iri_spec, iriref_spec, language_spec, language_suffix_spec, lemma_entry_within,
    lemma_subtags_within, literal_quote_spec, literal_spec, literal_value_spec, ntriple_spec,
    object_spec, past_blanks, subject_spec, subtags_len, DocumentShape, EntryShape, AT, CARET,
    COLON, DOT, GREATER, HYPHEN, LESS, LOWER_B, NEWLINE, QUOTE, SPACE, UNDERSCORE,
};
use crate::lex::{eol_len, lemma_run_len_is_run, lemma_run_unique, run_len, ByteClass};
use crate::ntriples::{built_from, read_as, shapes_of};
use crate::serialize::{
    all_writable, digits, document_text, free_of, iri_text, is_language_tag, label_text, lang_text,
    line_text, literal_text, position, seen_after, seen_after_line, term_text, writable_iri,
    writable_literal, writable_term, writable_triple,
};
use crate::statement::{all_nodes, StatementView, TripleShape};
use crate::term::{LiteralView, TermShape, TermView, LANG_STRING_IRI, XSD_STRING_IRI};

verus! {

/// Adding a statement a second time changes nothing: neither the statements of the graph nor
/// their number.
pub proof fn lemma_insert_idempotent(graph: Set<StatementView>, statement: StatementView)
    ensures
        graph.insert(statement).insert(statement) == graph.insert(statement),
        graph.insert(statement).insert(statement).len() == graph.insert(statement).len(),
{
    assert(graph.insert(statement).insert(statement) =~= graph.insert(statement));
}

/// A byte that ends a run of `class`: what follows a run does not begin with a byte of it.
pub open spec fn ends_run(tail: Seq<u8>, class: ByteClass) -> bool {
    tail.len() == 0 || !class.has(tail[0])
}

/// A run does not grow by what follows, where that begins with a byte outside the class.
pub proof fn lemma_run_len_append(bytes: Seq<u8>, class: ByteClass, tail: Seq<u8>)
    requires
        ends_run(tail, class),
    ensures
        run_len(bytes + tail, class) == run_len(bytes, class),
{
    lemma_run_len_is_run(bytes, class);
    let n = run_len(bytes, class);
    let all = bytes + tail;
    assert forall|i: int| 0 <= i < n implies class.has(#[trigger] all[i]) by {
        assert(all[i] == bytes[i]);
    }
    if n < all.len() {
        if n < bytes.len() {
            assert(all[n] == bytes[n]);
        } else {
            assert(all[n] == tail[0]);
        }
    }
    lemma_run_unique(all, class, n);
}

/// Bytes that all belong to a class are a run up to what follows them.
pub proof fn lemma_run_len_whole(bytes: Seq<u8>, class: ByteClass, tail: Seq<u8>)
    requires
        forall|i: int| 0 <= i < bytes.len() ==> class.has(#[trigger] bytes[i]),
        ends_run(tail, class),
    ensures
        run_len(bytes + tail, class) == bytes.len(),
{
    lemma_run_unique(bytes, class, bytes.len() as int);
    lemma_run_len_append(bytes, class, tail);
}

/// The subtags of a language tag do not grow by what follows, where that begins neither with
/// a hyphen nor with a letter or digit.
pub proof fn lemma_subtags_append(bytes: Seq<u8>, tail: Seq<u8>)
    requires
        ends_run(tail, ByteClass::LetterOrDigit),
        tail.len() == 0 || tail[0] != HYPHEN,
    ensures
        subtags_len(bytes + tail) == subtags_len(bytes),
    decreases bytes.len(),
{
    let all = bytes + tail;
    if bytes.len() == 0 {
        assert(all =~= tail);
    } else {
        assert(all[0] == bytes[0]);
        assert(all.skip(1) =~= bytes.skip(1) + tail);
        lemma_run_len_append(bytes.skip(1), ByteClass::LetterOrDigit, tail);
        lemma_run_len_is_run(bytes.skip(1), ByteClass::LetterOrDigit);
        let r = run_len(bytes.skip(1), ByteClass::LetterOrDigit);
        if bytes[0] == HYPHEN && r > 0 {
            assert(all.skip(1 + r) =~= bytes.skip(1 + r) + tail);
            lemma_subtags_append(bytes.skip(1 + r), tail);
        }
    }
}

/// What was written between two delimiters is read as it was written.
pub proof fn lemma_delimited_reads(
    open: u8,
    body: Seq<u8>,
    close: u8,
    tail: Seq<u8>,
    unterminated: ErrorKind,
    allow_empty: bool,
)
    requires
        free_of(body, close),
        allow_empty || body.len() > 0,
    ensures
        delimited_spec(
            seq![open] + body + seq![close] + tail,
            open,
            close,
            unterminated,
            allow_empty,
        ) == Ok::<(int, Seq<u8>), Failure>((body.len() as int + 2, body)),
{
    let s = seq![open] + body + seq![close] + tail;
    assert(s[0] == open);
    assert(s.skip(1) =~= body + (seq![close] + tail));
    lemma_run_len_whole(body, ByteClass::Except(close), seq![close] + tail);
    assert(s.subrange(1, body.len() as int + 1) =~= body);
}

/// An IRI that was written is read as the same IRI, whatever follows it.
pub proof fn lemma_iri_reads(value: Seq<char>, tail: Seq<u8>)
    requires
        writable_iri(value),
    ensures
        iriref_spec(iri_text(value) + tail) == Ok::<(int, Seq<u8>), Failure>(
            (iri_text(value).len() as int, encode_utf8(value)),
        ),
        iri_spec(iri_text(value) + tail) == Ok::<(int, TermShape), Failure>(
            (iri_text(value).len() as int, TermShape::Iri(value)),
        ),
        iri_text(value).len() == encode_utf8(value).len() + 2,
        iri_text(value)[0] == LESS,
{
    let bytes = encode_utf8(value);
    lemma_delimited_reads(LESS, bytes, GREATER, tail, ErrorKind::UnterminatedIri, false);
    assert(iri_text(value) + tail =~= seq![LESS] + bytes + seq![GREATER] + tail);
    encode_utf8_valid_utf8(value);
    encode_utf8_decode_utf8(value);
}

/// The digits of a number are digits, and there is at least one.
pub proof fn lemma_digits_are_digits(n: nat)
    ensures
        digits(n).len() > 0,
        forall|i: int|
            0 <= i < digits(n).len() ==> ByteClass::LetterOrDigit.has(#[trigger] digits(n)[i]),
    decreases n,
{
    if n >= 10 {
        lemma_digits_are_digits(n / 10);
    }
}

/// A blank node label that was written is read as a blank node, where what follows does not
/// begin with a letter or a digit.
pub proof fn lemma_label_reads(number: nat, tail: Seq<u8>)
    requires
        ends_run(tail, ByteClass::LetterOrDigit),
    ensures
        bnode_spec(label_text(number) + tail) == Ok::<(int, TermShape), Failure>(
            (label_text(number).len() as int, TermShape::BNode),
        ),
        label_text(number).len() > 3,
        label_text(number)[0] == UNDERSCORE,
{
    let s = label_text(number) + tail;
    let name = seq![LOWER_B] + digits(number);
    lemma_digits_are_digits(number);
    assert(s[0] == UNDERSCORE && s[1] == COLON);
    assert(s.skip(2) =~= name + tail);
    assert forall|i: int| 0 <= i < name.len() implies ByteClass::LetterOrDigit.has(
        #[trigger] name[i],
    ) by {
        if i > 0 {
            assert(name[i] == digits(number)[i - 1]);
        }
    }
    lemma_run_len_whole(name, ByteClass::LetterOrDigit, tail);
}

/// A language tag that was written is read as the same tag, where what follows begins neither
/// with a hyphen nor with a letter or digit.
pub proof fn lemma_language_reads(tag: Seq<u8>, tail: Seq<u8>)
    requires
        is_language_tag(tag),
        ends_run(tail, ByteClass::LetterOrDigit),
        tail.len() == 0 || tail[0] != HYPHEN,
    ensures
        language_spec(seq![AT] + tag + tail) == Ok::<(int, Seq<u8>), Failure>(
            (tag.len() as int + 1, tag),
        ),
{
    let s = seq![AT] + tag + tail;
    let n = run_len(tag, ByteClass::Letter);
    lemma_run_len_is_run(tag, ByteClass::Letter);
    assert(s[0] == AT);
    assert(s.skip(1) =~= tag + tail);
    lemma_run_len_append(tag, ByteClass::Letter, tail);
    assert(s.skip(1 + n) =~= tag.skip(n) + tail);
    lemma_subtags_append(tag.skip(n), tail);
    assert(s.subrange(1, tag.len() as int + 1) =~= tag);
}

/// The bytes that optional characters are written as.
pub open spec fn opt_encoded(text: Option<Seq<char>>) -> Option<Seq<u8>> {
    match text {
        Some(text) => Some(encode_utf8(text)),
        None => None,
    }
}

/// A datatype that was written after a quoted string is read as the same datatype.
proof fn lemma_datatype_suffix_reads(value: Seq<char>, tail: Seq<u8>)
    requires
        writable_iri(value),
    ensures
        datatype_suffix_spec(seq![CARET, CARET] + (iri_text(value) + tail)) == Ok::<
            (int, Option<Seq<u8>>),
            Failure,
        >((encode_utf8(value).len() as int + 4, Some(encode_utf8(value)))),
{
    let s = seq![CARET, CARET] + (iri_text(value) + tail);
    assert(s[0] == CARET && s[1] == CARET);
    assert(s.skip(2) =~= iri_text(value) + tail);
    lemma_iri_reads(value, tail);
}

/// A language tag that was written after a literal is read as the same tag, and none is read
/// where none was written, where a space follows.
proof fn lemma_language_suffix_reads(lang: Option<Seq<char>>, tail: Seq<u8>)
    requires
        lang matches Some(tag) ==> is_language_tag(encode_utf8(tag)),
        tail.len() > 0,
        tail[0] == SPACE,
    ensures
        language_suffix_spec(lang_text(lang) + tail) == Ok::<(int, Option<Seq<u8>>), Failure>(
            (lang_text(lang).len() as int, opt_encoded(lang)),
        ),
{
    let s = lang_text(lang) + tail;
    match lang {
        Some(tag) => {
            assert(s =~= seq![AT] + encode_utf8(tag) + tail);
            assert(s[0] == AT);
            lemma_language_reads(encode_utf8(tag), tail);
        },
        None => {
            assert(s =~= tail);
        },
    }
}

/// The spans of a literal that was written make the same literal.
proof fn lemma_literal_value_reads(literal: LiteralView, quoted: int, tagged: int)
    requires
        literal.lang is Some ==> literal.datatype == LANG_STRING_IRI@,
    ensures
        literal_value_spec(
            encode_utf8(literal.lexical),
            Some(encode_utf8(literal.datatype)),
            opt_encoded(literal.lang),
            quoted,
            tagged,
        ) == Ok::<LiteralView, Failure>(literal),
{
    encode_utf8_valid_utf8(literal.lexical);
    encode_utf8_decode_utf8(literal.lexical);
    encode_utf8_valid_utf8(literal.datatype);
    encode_utf8_decode_utf8(literal.datatype);
    if let Some(tag) = literal.lang {
        encode_utf8_valid_utf8(tag);
        encode_utf8_decode_utf8(tag);
    }
}

/// A literal by its parts: the quoted string, the datatype, the language tag and what the
/// three make.
proof fn lemma_literal_of_parts(
    s: Seq<u8>,
    quote: (int, Seq<u8>),
    datatype: (int, Option<Seq<u8>>),
    lang: (int, Option<Seq<u8>>),
    literal: LiteralView,
)
    requires
        literal_quote_spec(s) == Ok::<(int, Seq<u8>), Failure>(quote),
        datatype_suffix_spec(s.skip(quote.0)) == Ok::<(int, Option<Seq<u8>>), Failure>(
            datatype,
        ),
        language_suffix_spec(s.skip(quote.0 + datatype.0)) == Ok::<
            (int, Option<Seq<u8>>),
            Failure,
        >(lang),
        literal_value_spec(quote.1, datatype.1, lang.1, quote.0, quote.0 + datatype.0) == Ok::<
            LiteralView,
            Failure,
        >(literal),
    ensures
        literal_spec(s) == Ok::<(int, TermShape), Failure>(
            (quote.0 + datatype.0 + lang.0, TermShape::Literal(literal)),
        ),
{
}

/// Where the parts of a literal stand: the quoted string, `^^` and the datatype, and the
/// language tag.
proof fn lemma_literal_layout(lexical: Seq<u8>, datatype: Seq<u8>, lang: Seq<u8>, tail: Seq<u8>)
    ensures
        ({
            let text = seq![QUOTE] + lexical + seq![QUOTE, CARET, CARET] + datatype + lang;
            let s = text + tail;
            let after_quote = seq![CARET, CARET] + (datatype + (lang + tail));
            let quoted = lexical.len() as int + 2;
            let typed = datatype.len() as int + 2;
            &&& text.len() == quoted + typed + lang.len()
            &&& text[0] == QUOTE
            &&& s == seq![QUOTE] + lexical + seq![QUOTE] + after_quote
            &&& s.skip(quoted) == after_quote
            &&& s.skip(quoted + typed) == lang + tail
        }),
{
    let text = seq![QUOTE] + lexical + seq![QUOTE, CARET, CARET] + datatype + lang;
    let s = text + tail;
    let after_type = lang + tail;
    let after_quote = seq![CARET, CARET] + (datatype + after_type);
    let quoted = lexical.len() as int + 2;
    assert(s =~= seq![QUOTE] + lexical + seq![QUOTE] + after_quote);
    assert(s.skip(0) =~= s);
    lemma_skip_into(s, 0, seq![QUOTE] + lexical + seq![QUOTE], after_quote);
    assert(after_quote =~= seq![CARET, CARET] + datatype + after_type);
    lemma_skip_into(s, quoted, seq![CARET, CARET] + datatype, after_type);
}

/// A literal that was written is read as the same literal, where a space follows it.
pub proof fn lemma_literal_reads(literal: LiteralView, tail: Seq<u8>)
    requires
        writable_literal(literal),
        tail.len() > 0,
        tail[0] == SPACE,
    ensures
        literal_spec(literal_text(literal) + tail) == Ok::<(int, TermShape), Failure>(
            (literal_text(literal).len() as int, TermShape::Literal(literal)),
        ),
        literal_text(literal).len() > 0,
        literal_text(literal)[0] == QUOTE,
{
    let s = literal_text(literal) + tail;
    let lexical = encode_utf8(literal.lexical);
    let datatype = iri_text(literal.datatype);
    let lang = lang_text(literal.lang);
    let quoted = lexical.len() as int + 2;
    let typed = datatype.len() as int + 2;
    lemma_literal_layout(lexical, datatype, lang, tail);
    lemma_delimited_reads(
        QUOTE,
        lexical,
        QUOTE,
        seq![CARET, CARET] + (datatype + (lang + tail)),
        ErrorKind::UnterminatedLiteral,
        true,
    );
    lemma_iri_reads(literal.datatype, lang + tail);
    lemma_datatype_suffix_reads(literal.datatype, lang + tail);
    lemma_language_suffix_reads(literal.lang, tail);
    lemma_literal_value_reads(literal, quoted, quoted + typed);
    lemma_literal_of_parts(
        s,
        (quoted, lexical),
        (typed, Some(encode_utf8(literal.datatype))),
        (lang.len() as int, opt_encoded(literal.lang)),
        literal,
    );
}

/// The byte that a term begins with where it is written.
pub open spec fn mark(term: TermView) -> u8 {
    match term {
        TermView::Iri(_) => LESS,
        TermView::BNode(_) => UNDERSCORE,
        TermView::Literal(_) => QUOTE,
    }
}

/// A term that was written is read as a term of the same shape, where a space follows it:
/// as an object in any case, as a subject unless it is a literal, and as a predicate where it
/// is an IRI.
pub proof fn lemma_term_reads(term: TermView, seen: Seq<ProcessUniqueId>, tail: Seq<u8>)
    requires
        writable_term(term.shape()),
        tail.len() > 0,
        tail[0] == SPACE,
    ensures
        term_text(term, seen).len() > 0,
        term_text(term, seen)[0] == mark(term),
        object_spec(term_text(term, seen) + tail) == Ok::<(int, TermShape), Failure>(
            (term_text(term, seen).len() as int, term.shape()),
        ),
        !(term is Literal) ==> subject_spec(term_text(term, seen) + tail) == Ok::<
            (int, TermShape),
            Failure,
        >((term_text(term, seen).len() as int, term.shape())),
        term is Iri ==> iri_spec(term_text(term, seen) + tail) == Ok::<(int, TermShape), Failure>(
            (term_text(term, seen).len() as int, term.shape()),
        ),
{
    match term {
        TermView::Iri(value) => lemma_iri_reads(value, tail),
        TermView::BNode(id) => lemma_label_reads(position(seen, id), tail),
        TermView::Literal(literal) => lemma_literal_reads(literal, tail),
    }
}

/// One blank, and then a byte that is none.
proof fn lemma_one_blank(tail: Seq<u8>)
    requires
        tail.len() > 0,
        !ByteClass::Blank.has(tail[0]),
    ensures
        run_len(seq![SPACE] + tail, ByteClass::Blank) == 1,
        run_len(tail, ByteClass::Blank) == 0,
{
    lemma_run_len_whole(seq![SPACE], ByteClass::Blank, tail);
}

/// What follows `x` where `x + y` begins at `at`.
proof fn lemma_skip_into(s: Seq<u8>, at: int, x: Seq<u8>, y: Seq<u8>)
    requires
        0 <= at <= s.len(),
        s.skip(at) == x + y,
    ensures
        s.skip(at + x.len()) == y,
        at + x.len() <= s.len(),
        y.len() > 0 ==> s[at + x.len()] == y[0],
{
    assert((x + y).len() == x.len() + y.len());
    assert(s.skip(at).skip(x.len() as int) =~= y);
    assert(s.skip(at).skip(x.len() as int) =~= s.skip(at + x.len()));
    if y.len() > 0 {
        assert(s.skip(at + x.len())[0] == y[0]);
    }
}

/// The blanks at `at` where one space and then `tail` stand there.
proof fn lemma_space_into(s: Seq<u8>, at: int, tail: Seq<u8>)
    requires
        0 <= at <= s.len(),
        s.skip(at) == seq![SPACE] + tail,
        tail.len() > 0,
        !ByteClass::Blank.has(tail[0]),
    ensures
        past_blanks(s, at) == at + 1,
        s.skip(at + 1) == tail,
        s[at + 1] == tail[0],
{
    lemma_one_blank(tail);
    lemma_skip_into(s, at, seq![SPACE], tail);
}

/// A triple by its parts: the offsets of its terms and what they are read as.
proof fn lemma_ntriple_of_parts(
    s: Seq<u8>,
    subject: (int, TermShape),
    b: int,
    predicate: (int, TermShape),
    c: int,
    object: (int, TermShape),
    d: int,
)
    requires
        past_blanks(s, 0) == 0,
        subject_spec(s.skip(0)) == Ok::<(int, TermShape), Failure>(subject),
        past_blanks(s, subject.0) == b,
        iri_spec(s.skip(b)) == Ok::<(int, TermShape), Failure>(predicate),
        past_blanks(s, b + predicate.0) == c,
        object_spec(s.skip(c)) == Ok::<(int, TermShape), Failure>(object),
        past_blanks(s, c + object.0) == d,
        0 <= d < s.len(),
        s[d] == DOT,
        past_blanks(s, d + 1) == d + 1,
        comment_len(s.skip(d + 1)) == 0,
    ensures
        ntriple_spec(s) == Ok::<(int, TripleShape), Failure>(
            (d + 1, TripleShape { subject: subject.1, predicate: predicate.1, object: object.1 }),
        ),
{
}

/// What follows the third term of a line.
pub open spec fn after_third(rest: Seq<u8>) -> Seq<u8> {
    seq![SPACE] + (seq![DOT] + (seq![NEWLINE] + rest))
}

/// What follows the second term of a line.
pub open spec fn after_second(z: Seq<u8>, rest: Seq<u8>) -> Seq<u8> {
    seq![SPACE] + (z + after_third(rest))
}

/// What follows the first term of a line.
pub open spec fn after_first(y: Seq<u8>, z: Seq<u8>, rest: Seq<u8>) -> Seq<u8> {
    seq![SPACE] + (y + after_second(z, rest))
}

/// The blanks after `x`, where `x`, one space and then `tail` stand at `at`.
proof fn lemma_past_term(s: Seq<u8>, at: int, x: Seq<u8>, tail: Seq<u8>)
    requires
        0 <= at <= s.len(),
        s.skip(at) == x + (seq![SPACE] + tail),
        tail.len() > 0,
        !ByteClass::Blank.has(tail[0]),
    ensures
        past_blanks(s, at + x.len()) == at + x.len() + 1,
        at + x.len() + 1 < s.len(),
        s.skip(at + x.len() + 1) == tail,
        s[at + x.len() + 1] == tail[0],
{
    lemma_skip_into(s, at, x, seq![SPACE] + tail);
    lemma_space_into(s, at + x.len(), tail);
    assert(s.skip(at + x.len() + 1).len() == tail.len());
}

/// The first byte of two sequences in a row is the first byte of the first.
proof fn lemma_first_of(x: Seq<u8>, y: Seq<u8>)
    requires
        x.len() > 0,
    ensures
        (x + y).len() > 0,
        (x + y)[0] == x[0],
{
}

/// The end of a line: nothing blank and no comment between the full stop and the line feed.
proof fn lemma_line_end(s: Seq<u8>, d: int, rest: Seq<u8>)
    requires
        0 <= d <= s.len(),
        s.skip(d) == seq![DOT] + (seq![NEWLINE] + rest),
    ensures
        d + 1 < s.len(),
        s[d] == DOT,
        s[d + 1] == NEWLINE,
        past_blanks(s, d + 1) == d + 1,
        comment_len(s.skip(d + 1)) == 0,
        s.len() == d + 2 + rest.len(),
        s.skip(d + 2) == rest,
{
    lemma_skip_into(s, d, seq![DOT], seq![NEWLINE] + rest);
    lemma_skip_into(s, d + 1, seq![NEWLINE], rest);
    assert(s.skip(d)[0] == DOT);
    assert(s.skip(d + 1)[0] == NEWLINE);
    assert(s.skip(d + 2).len() == rest.len());
    assert(run_len(s.skip(d + 1), ByteClass::Blank) == 0);
}

/// Where the parts of a line stand: three terms that begin with no blank, a space after
/// each, a full stop and a line feed.
proof fn lemma_line_layout(x: Seq<u8>, y: Seq<u8>, z: Seq<u8>, rest: Seq<u8>)
    requires
        x.len() > 0 && !ByteClass::Blank.has(x[0]),
        y.len() > 0 && !ByteClass::Blank.has(y[0]),
        z.len() > 0 && !ByteClass::Blank.has(z[0]),
    ensures
        ({
            let s = x + after_first(y, z, rest);
            let b = x.len() as int + 1;
            let c = b + y.len() + 1;
            let d = c + z.len() + 1;
            &&& s.skip(0) == s
            &&& past_blanks(s, 0) == 0
            &&& past_blanks(s, x.len() as int) == b
            &&& s.skip(b) == y + after_second(z, rest)
            &&& past_blanks(s, b + y.len()) == c
            &&& s.skip(c) == z + after_third(rest)
            &&& past_blanks(s, c + z.len()) == d
            &&& d + 1 < s.len()
            &&& s[d] == DOT
            &&& s[d + 1] == NEWLINE
            &&& past_blanks(s, d + 1) == d + 1
            &&& comment_len(s.skip(d + 1)) == 0
            &&& s.len() == d + 2 + rest.len()
            &&& s.skip(d + 2) == rest
        }),
{
    let s = x + after_first(y, z, rest);
    let b = x.len() as int + 1;
    let c = b + y.len() + 1;
    let d = c + z.len() + 1;
    let end = seq![DOT] + (seq![NEWLINE] + rest);
    assert(s.skip(0) =~= s);
    lemma_first_of(x, after_first(y, z, rest));
    assert(run_len(s, ByteClass::Blank) == 0);
    lemma_first_of(y, after_second(z, rest));
    lemma_past_term(s, 0, x, y + after_second(z, rest));
    lemma_first_of(z, after_third(rest));
    lemma_past_term(s, b, y, z + after_third(rest));
    lemma_first_of(seq![DOT], seq![NEWLINE] + rest);
    lemma_past_term(s, c, z, end);
    lemma_line_end(s, d, rest);
}

/// The line of a statement by its terms.
proof fn lemma_line_parts(statement: StatementView, seen: Seq<ProcessUniqueId>, rest: Seq<u8>)
    ensures
        line_text(statement, seen) + rest == term_text(statement.subject, seen) + after_first(
            term_text(statement.predicate, seen),
            term_text(statement.object, seen_after(statement.subject, seen)),
            rest,
        ),
        line_text(statement, seen).len() == term_text(statement.subject, seen).len()
            + term_text(statement.predicate, seen).len() + term_text(
            statement.object,
            seen_after(statement.subject, seen),
        ).len() + 5,
{
    assert(line_text(statement, seen) + rest =~= term_text(statement.subject, seen)
        + after_first(
        term_text(statement.predicate, seen),
        term_text(statement.object, seen_after(statement.subject, seen)),
        rest,
    ));
}

/// The line of a statement is read as a triple of the statement's shape, up to its full stop.
pub proof fn lemma_line_reads(statement: StatementView, seen: Seq<ProcessUniqueId>, rest: Seq<u8>)
    requires
        writable_triple(statement.shape()),
    ensures
        ntriple_spec(line_text(statement, seen) + rest) == Ok::<(int, TripleShape), Failure>(
            (line_text(statement, seen).len() - 1, statement.shape()),
        ),
        line_text(statement, seen).len() > 3,
        (line_text(statement, seen) + rest)[0] == mark(statement.subject),
        (line_text(statement, seen) + rest)[line_text(statement, seen).len() - 1] == NEWLINE,
        (line_text(statement, seen) + rest).skip(line_text(statement, seen).len() as int)
            == rest,
{
    let s = line_text(statement, seen) + rest;
    let between = seen_after(statement.subject, seen);
    let x = term_text(statement.subject, seen);
    let y = term_text(statement.predicate, seen);
    let z = term_text(statement.object, between);
    lemma_line_parts(statement, seen, rest);
    lemma_term_reads(statement.subject, seen, after_first(y, z, rest));
    lemma_term_reads(statement.predicate, seen, after_second(z, rest));
    lemma_term_reads(statement.object, between, after_third(rest));
    lemma_first_of(x, after_first(y, z, rest));
    lemma_line_layout(x, y, z, rest);
    let b = x.len() as int + 1;
    let c = b + y.len() + 1;
    let d = c + z.len() + 1;
    lemma_ntriple_of_parts(
        s,
        (x.len() as int, statement.subject.shape()),
        b,
        (y.len() as int, statement.predicate.shape()),
        c,
        (z.len() as int, statement.object.shape()),
        d,
    );
}

/// The line of a statement is read as an entry that takes the whole line and lets another
/// follow.
pub proof fn lemma_entry_reads(statement: StatementView, seen: Seq<ProcessUniqueId>, rest: Seq<u8>)
    requires
        writable_triple(statement.shape()),
    ensures
        entry_spec(line_text(statement, seen) + rest) == (EntryShape {
            triple: Some(statement.shape()),
            consumed: line_text(statement, seen).len() as int,
            halt: None,
            more: true,
        }),
{
    let s = line_text(statement, seen) + rest;
    let line_len = line_text(statement, seen).len() as int;
    lemma_line_reads(statement, seen, rest);
    assert(s.skip(0) =~= s);
    assert(run_len(s, ByteClass::Blank) == 0);
    assert(comment_len(s) == 0);
    assert(eol_len(s) == 0);
    assert(blank_lines_len(s) == 0);
    assert(s.skip(line_len - 1)[0] == NEWLINE);
    assert(eol_len(s.skip(line_len - 1)) == 1);
}

/// Reading the document of statements that can be written gives their shapes, one triple for
/// each statement in the order of the statements, uses the whole text and does not fail.
pub proof fn lemma_document_reads(statements: Seq<StatementView>, seen: Seq<ProcessUniqueId>)
    requires
        all_writable(statements),
    ensures
        document_spec(document_text(statements, seen)) == (DocumentShape {
            triples: shapes_of(statements),
            consumed: document_text(statements, seen).len() as int,
            halt: None,
        }),
    decreases statements.len(),
{
    let text = document_text(statements, seen);
    if statements.len() == 0 {
        assert(shapes_of(statements) =~= Seq::<TripleShape>::empty());
        assert(blank_lines_len(text) == 0) by {
            assert(text.skip(0) =~= text);
        }
    } else {
        let first = statements[0];
        let others = statements.skip(1);
        let line = line_text(first, seen);
        let rest = document_text(others, seen_after_line(first, seen));
        assert(writable_triple(first.shape()));
        assert(all_writable(others)) by {
            assert forall|i: int| 0 <= i < others.len() implies writable_triple(
                #[trigger] others[i].shape(),
            ) by {
                assert(others[i] == statements[i + 1]);
            }
        }
        lemma_entry_reads(first, seen, rest);
        lemma_document_reads(others, seen_after_line(first, seen));
        assert(text.skip(line.len() as int) =~= rest);
        assert(shapes_of(statements) =~= seq![first.shape()] + shapes_of(others));
    }
}

/// The two datatypes that a literal gets by default can be written.
pub proof fn lemma_default_datatypes_writable()
    ensures
        writable_iri(XSD_STRING_IRI@),
        writable_iri(LANG_STRING_IRI@),
{
    reveal_strlit("http://www.w3.org/2001/XMLSchema#string");
    reveal_strlit("http://www.w3.org/1999/02/22-rdf-syntax-ns#langString");
    lemma_ascii_writable(XSD_STRING_IRI@);
    lemma_ascii_writable(LANG_STRING_IRI@);
}

/// Characters of ASCII without a `>` among them can be written as an IRI.
proof fn lemma_ascii_writable(value: Seq<char>)
    requires
        value.len() > 0,
        is_ascii_chars(value),
        forall|i: int| 0 <= i < value.len() ==> value[i] != '>',
    ensures
        writable_iri(value),
{
    is_ascii_chars_encode_utf8(value);
    let bytes = encode_utf8(value);
    assert forall|i: int| 0 <= i < bytes.len() implies bytes[i] != GREATER by {
        assert(bytes[i] == value[i] as u8);
        assert(value[i] != '>');
        assert('\0' <= value[i] <= '\u{7f}');
    }
}

/// A run is the run of every prefix that holds it.
pub proof fn lemma_run_len_take(bytes: Seq<u8>, class: ByteClass, k: int)
    requires
        run_len(bytes, class) <= k <= bytes.len(),
    ensures
        run_len(bytes.take(k), class) == run_len(bytes, class),
{
    lemma_run_len_is_run(bytes, class);
    let n = run_len(bytes, class);
    let prefix = bytes.take(k);
    assert forall|i: int| 0 <= i < n implies class.has(#[trigger] prefix[i]) by {
        assert(prefix[i] == bytes[i]);
    }
    if n < prefix.len() {
        assert(prefix[n] == bytes[n]);
    }
    lemma_run_unique(prefix, class, n);
}

/// The subtags that bytes begin with are subtags and nothing else.
pub proof fn lemma_subtags_take(bytes: Seq<u8>)
    ensures
        subtags_len(bytes.take(subtags_len(bytes))) == subtags_len(bytes),
        0 <= subtags_len(bytes) <= bytes.len(),
    decreases bytes.len(),
{
    lemma_subtags_within(bytes);
    let total = subtags_len(bytes);
    let taken = bytes.take(total);
    if bytes.len() > 0 {
        let r = run_len(bytes.skip(1), ByteClass::LetterOrDigit);
        lemma_run_len_is_run(bytes.skip(1), ByteClass::LetterOrDigit);
        if bytes[0] == HYPHEN && r > 0 {
            let tail = bytes.skip(1 + r);
            lemma_subtags_take(tail);
            assert(taken[0] == HYPHEN);
            assert(taken.skip(1) =~= bytes.skip(1).take(total - 1));
            lemma_run_len_take(bytes.skip(1), ByteClass::LetterOrDigit, total - 1);
            assert(taken.skip(1 + r) =~= tail.take(subtags_len(tail)));
        } else {
            assert(taken =~= Seq::<u8>::empty());
        }
    } else {
        assert(taken =~= Seq::<u8>::empty());
    }
}

/// What is read between two delimiters holds no closing delimiter, and is not empty where
/// that is not allowed.
pub proof fn lemma_delimited_free(
    s: Seq<u8>,
    open: u8,
    close: u8,
    unterminated: ErrorKind,
    allow_empty: bool,
)
    ensures
        delimited_spec(s, open, close, unterminated, allow_empty) matches Ok((n, body)) ==> {
            &&& free_of(body, close)
            &&& allow_empty || body.len() > 0
            &&& n == body.len() + 2
        },
{
    if s.len() > 0 {
        let inner = s.skip(1);
        lemma_run_len_is_run(inner, ByteClass::Except(close));
        let n = run_len(inner, ByteClass::Except(close));
        if n + 1 < s.len() {
            let body = s.subrange(1, n + 1);
            assert forall|i: int| 0 <= i < body.len() implies body[i] != close by {
                assert(body[i] == inner[i]);
            }
        }
    }
}

/// An IRI that is read can be written.
pub proof fn lemma_iri_writable(s: Seq<u8>)
    ensures
        iri_spec(s) matches Ok((_, shape)) ==> writable_term(shape) && shape is Iri,
{
    lemma_delimited_free(s, LESS, GREATER, ErrorKind::UnterminatedIri, false);
    if let Ok((n, bytes)) = iriref_spec(s) {
        if valid_utf8(bytes) {
            decode_utf8_encode_utf8(bytes);
        }
    }
}

/// A language tag that is read is a language tag.
pub proof fn lemma_language_is_tag(s: Seq<u8>)
    ensures
        language_spec(s) matches Ok((_, tag)) ==> is_language_tag(tag),
{
    if let Ok((end, tag)) = language_spec(s) {
        let inner = s.skip(1);
        let n = run_len(inner, ByteClass::Letter);
        lemma_run_len_is_run(inner, ByteClass::Letter);
        let tail = inner.skip(n);
        assert(tail =~= s.skip(1 + n));
        lemma_subtags_take(tail);
        let m = subtags_len(tail);
        assert(end == 1 + n + m);
        assert(tag =~= inner.take(n + m));
        lemma_run_len_take(inner, ByteClass::Letter, n + m);
        assert(tag.skip(n) =~= tail.take(m));
    }
}

/// A literal that is read can be written.
pub proof fn lemma_literal_writable(s: Seq<u8>)
    ensures
        literal_spec(s) matches Ok((_, shape)) ==> writable_term(shape),
{
    if let Ok((_, shape)) = literal_spec(s) {
        lemma_default_datatypes_writable();
        lemma_delimited_free(s, QUOTE, QUOTE, ErrorKind::UnterminatedLiteral, true);
        let (quoted, lexical) = literal_quote_spec(s)->Ok_0;
        let after_quote = s.skip(quoted);
        let (typed, datatype) = datatype_suffix_spec(after_quote)->Ok_0;
        let after_type = s.skip(quoted + typed);
        let (tagged, lang) = language_suffix_spec(after_type)->Ok_0;
        decode_utf8_encode_utf8(lexical);
        if let Some(bytes) = datatype {
            lemma_delimited_free(
                after_quote.skip(2),
                LESS,
                GREATER,
                ErrorKind::UnterminatedIri,
                false,
            );
            decode_utf8_encode_utf8(bytes);
        }
        if let Some(bytes) = lang {
            lemma_language_is_tag(after_type);
            decode_utf8_encode_utf8(bytes);
        }
    }
}

/// A triple that is read can be written.
pub proof fn lemma_ntriple_writable(s: Seq<u8>)
    ensures
        ntriple_spec(s) matches Ok((_, triple)) ==> writable_triple(triple),
{
    if let Ok((_, triple)) = ntriple_spec(s) {
        let a = past_blanks(s, 0);
        lemma_iri_writable(s.skip(a));
        let (n, subject) = subject_spec(s.skip(a))->Ok_0;
        let b = past_blanks(s, a + n);
        lemma_iri_writable(s.skip(b));
        let (n, predicate) = iri_spec(s.skip(b))->Ok_0;
        let c = past_blanks(s, b + n);
        lemma_iri_writable(s.skip(c));
        lemma_literal_writable(s.skip(c));
    }
}

/// Every triple of a document that is read can be written.
pub proof fn lemma_document_writable(s: Seq<u8>)
    ensures
        forall|i: int|
            0 <= i < document_spec(s).triples.len() ==> writable_triple(
                #[trigger] document_spec(s).triples[i],
            ),
    decreases s.len(),
{
    let entry = entry_spec(s);
    lemma_entry_within(s);
    lemma_ntriple_writable(s.skip(blank_lines_len(s)));
    if entry.more {
        lemma_document_writable(s.skip(entry.consumed));
    }
}

/// Reading a document, writing the graph that was read and reading what was written gives
/// the graph again, but for the identities of its blank nodes.
///
/// `input` is a document that is read without a failure and `graph` the statements of a
/// graph that was built from it, in the order in which the graph lists them. Then every
/// statement of the graph can be written, and reading the document of the statements finds,
/// line for line, a triple of the shape of each statement, uses the whole text and does not
/// fail: a graph that is read from it is built from the shapes of `graph`.
pub proof fn lemma_read_write_read(input: Seq<u8>, graph: Seq<StatementView>)
    requires
        document_spec(input).halt is None,
        built_from(graph.to_set(), document_spec(input).triples),
    ensures
        all_writable(graph),
        document_spec(document_text(graph, Seq::empty())) == (DocumentShape {
            triples: shapes_of(graph),
            consumed: document_text(graph, Seq::empty()).len() as int,
            halt: None,
        }),
{
    let triples = document_spec(input).triples;
    let made = choose|made: Seq<StatementView>|
        #[trigger] read_as(made, triples) && graph.to_set() == made.to_set();
    lemma_document_writable(input);
    assert forall|i: int| 0 <= i < graph.len() implies writable_triple(
        #[trigger] graph[i].shape(),
    ) by {
        assert(graph.to_set().contains(graph[i]));
        assert(made.to_set().contains(graph[i]));
        let j = choose|j: int| 0 <= j < made.len() && made[j] == graph[i];
        assert(shapes_of(made)[j] == made[j].shape());
        assert(triples[j] == graph[i].shape());
    }
    lemma_document_reads(graph, Seq::empty());
}

/// Where the blank nodes of the statement at `i` begin among the blank nodes of all the
/// statements.
pub open spec fn nodes_before(statements: Seq<StatementView>, i: int) -> int {
    all_nodes(statements.take(i)).len() as int
}

/// The blank nodes of the statements up to `i`, and with the statement at `i`.
proof fn lemma_nodes_before_next(statements: Seq<StatementView>, i: int)
    requires
        0 <= i < statements.len(),
    ensures
        all_nodes(statements.take(i + 1)) == all_nodes(statements.take(i))
            + statements[i].nodes(),
        nodes_before(statements, i + 1) == nodes_before(statements, i)
            + statements[i].nodes().len(),
{
    let upto = statements.take(i + 1);
    assert(upto.drop_last() =~= statements.take(i));
    assert(upto.last() == statements[i]);
}

/// The blank nodes of the first statements stand first among the blank nodes of all.
proof fn lemma_nodes_prefix(statements: Seq<StatementView>, i: int)
    requires
        0 <= i <= statements.len(),
    ensures
        all_nodes(statements.take(i)) == all_nodes(statements).take(nodes_before(statements, i)),
        nodes_before(statements, i) <= all_nodes(statements).len(),
    decreases statements.len() - i,
{
    if i == statements.len() {
        assert(statements.take(i) =~= statements);
        assert(all_nodes(statements).take(all_nodes(statements).len() as int) =~= all_nodes(
            statements,
        ));
    } else {
        lemma_nodes_prefix(statements, i + 1);
        lemma_nodes_before_next(statements, i);
        let next = all_nodes(statements.take(i + 1));
        assert(next.take(nodes_before(statements, i)) =~= all_nodes(statements.take(i)));
        assert(next.take(nodes_before(statements, i)) =~= all_nodes(statements).take(
            nodes_before(statements, i),
        ));
    }
}

/// The places of the blank nodes grow with the statements.
proof fn lemma_nodes_before_grows(statements: Seq<StatementView>, i: int, j: int)
    requires
        0 <= i < j <= statements.len(),
    ensures
        nodes_before(statements, i) + statements[i].nodes().len() <= nodes_before(statements, j),
    decreases j - i,
{
    lemma_nodes_before_next(statements, i);
    if i + 1 < j {
        lemma_nodes_before_grows(statements, i + 1, j);
    }
}

/// The `k`-th blank node of the statement at `i` has its place among the blank nodes of all
/// the statements.
pub proof fn lemma_node_at(statements: Seq<StatementView>, i: int, k: int)
    requires
        0 <= i < statements.len(),
        0 <= k < statements[i].nodes().len(),
    ensures
        0 <= nodes_before(statements, i) + k < all_nodes(statements).len(),
        all_nodes(statements)[nodes_before(statements, i) + k] == statements[i].nodes()[k],
{
    lemma_nodes_before_next(statements, i);
    lemma_nodes_prefix(statements, i + 1);
    let upto = all_nodes(statements.take(i + 1));
    let at = nodes_before(statements, i) + k;
    assert(upto[at] == statements[i].nodes()[k]);
    assert(upto[at] == all_nodes(statements).take(nodes_before(statements, i + 1))[at]);
}

/// Where every occurrence of a blank node is a node of its own, a statement that holds a
/// blank node is equal to no other of the statements.
pub proof fn lemma_statement_with_node_is_alone(statements: Seq<StatementView>, i: int, j: int)
    requires
        all_nodes(statements).no_duplicates(),
        0 <= i < statements.len(),
        0 <= j < statements.len(),
        i != j,
        statements[i].nodes().len() > 0,
    ensures
        statements[i] != statements[j],
{
    if statements[i] == statements[j] {
        lemma_node_at(statements, i, 0);
        lemma_node_at(statements, j, 0);
        if i < j {
            lemma_nodes_before_grows(statements, i, j);
        } else {
            lemma_nodes_before_grows(statements, j, i);
        }
    }
}

/// A triple holds a blank node: as its subject or as its object.
pub open spec fn holds_node(triple: TripleShape) -> bool {
    triple.subject is BNode || triple.object is BNode
}

/// A document in which every triple holds a blank node gives a graph of as many statements
/// as it has triples, also where two of its lines are the same: every occurrence of a label
/// is a node of its own.
pub proof fn lemma_triples_with_nodes_all_kept(graph: Set<StatementView>, triples: Seq<TripleShape>)
    requires
        built_from(graph, triples),
        forall|i: int| 0 <= i < triples.len() ==> holds_node(#[trigger] triples[i]),
    ensures
        graph.finite(),
        graph.len() == triples.len(),
{
    let statements = choose|statements: Seq<StatementView>|
        #[trigger] read_as(statements, triples) && graph == statements.to_set();
    assert forall|i: int, j: int|
        0 <= i < statements.len() && 0 <= j < statements.len() && i != j implies statements[i]
        != statements[j] by {
        assert(shapes_of(statements)[i] == statements[i].shape());
        assert(holds_node(triples[i]));
        lemma_statement_with_node_is_alone(statements, i, j);
    }
    statements.unique_seq_to_set();
    assert(shapes_of(statements).len() == statements.len());
}

/// A term that is no blank node is the term that its shape says.
proof fn lemma_shape_fixes_term(a: TermView, b: TermView)
    requires
        a.shape() == b.shape(),
        !(a is BNode),
    ensures
        a == b,
{
}

/// Statements of one shape that differ hold a blank node.
proof fn lemma_same_shape_differs_by_node(a: StatementView, b: StatementView)
    requires
        a.shape() == b.shape(),
        a.well_placed(),
        a != b,
    ensures
        a.nodes().len() > 0,
        b.nodes().len() > 0,
{
    lemma_shape_fixes_term(a.predicate, b.predicate);
    if !(a.subject is BNode) {
        lemma_shape_fixes_term(a.subject, b.subject);
    }
    if !(a.object is BNode) {
        lemma_shape_fixes_term(a.object, b.object);
    }
}

/// A graph that is read from the written form of statements without blank nodes holds those
/// statements and no others.
pub proof fn lemma_read_back_equal(graph: Seq<StatementView>, again: Set<StatementView>)
    requires
        forall|i: int|
            0 <= i < graph.len() ==> (#[trigger] graph[i]).well_placed() && !holds_node(
                graph[i].shape(),
            ),
        built_from(again, shapes_of(graph)),
    ensures
        again == graph.to_set(),
{
    let statements = choose|statements: Seq<StatementView>|
        #[trigger] read_as(statements, shapes_of(graph)) && again == statements.to_set();
    assert(shapes_of(statements).len() == statements.len());
    assert(shapes_of(graph).len() == graph.len());
    assert forall|i: int| 0 <= i < graph.len() implies statements[i] == graph[i] by {
        assert(shapes_of(statements)[i] == statements[i].shape());
        assert(shapes_of(graph)[i] == graph[i].shape());
        assert(graph[i].well_placed() && !holds_node(graph[i].shape()));
        lemma_shape_fixes_term(graph[i].subject, statements[i].subject);
        lemma_shape_fixes_term(graph[i].predicate, statements[i].predicate);
        lemma_shape_fixes_term(graph[i].object, statements[i].object);
    }
    assert(statements =~= graph);
}

/// A graph that is read from the written form of statements, each of which was written
/// once, holds as many statements as were written.
pub proof fn lemma_read_back_same_size(graph: Seq<StatementView>, again: Set<StatementView>)
    requires
        graph.no_duplicates(),
        forall|i: int| 0 <= i < graph.len() ==> (#[trigger] graph[i]).well_placed(),
        built_from(again, shapes_of(graph)),
    ensures
        again.finite(),
        again.len() == graph.len(),
{
    let statements = choose|statements: Seq<StatementView>|
        #[trigger] read_as(statements, shapes_of(graph)) && again == statements.to_set();
    assert(shapes_of(statements).len() == statements.len());
    assert(shapes_of(graph).len() == graph.len());
    assert forall|i: int, j: int|
        0 <= i < statements.len() && 0 <= j < statements.len() && i != j implies statements[i]
        != statements[j] by {
        assert(shapes_of(statements)[i] == statements[i].shape());
        assert(shapes_of(statements)[j] == statements[j].shape());
        assert(shapes_of(graph)[i] == graph[i].shape());
        assert(shapes_of(graph)[j] == graph[j].shape());
        if graph[i].shape() == graph[j].shape() {
            assert(graph[i].well_placed());
            lemma_same_shape_differs_by_node(graph[i], graph[j]);
            assert(statements[i].nodes().len() > 0) by {
                assert(statements[i].shape() == graph[i].shape());
                if graph[i].subject is BNode {
                    assert(statements[i].subject is BNode);
                } else {
                    assert(graph[i].object is BNode);
                    assert(statements[i].object is BNode);
                }
            }
            lemma_statement_with_node_is_alone(statements, i, j);
        }
    }
    statements.unique_seq_to_set();
}

/// The number of blank nodes of a statement is that of its shape.
proof fn lemma_shape_counts_nodes(a: StatementView, b: StatementView)
    requires
        a.shape() == b.shape(),
    ensures
        a.nodes().len() == b.nodes().len(),
        a.subject is BNode <==> b.subject is BNode,
        a.object is BNode <==> b.object is BNode,
        a.subject.node().len() == b.subject.node().len(),
{
}

/// Statements of the same shapes have their blank nodes at the same places.
proof fn lemma_same_shapes_same_places(a: Seq<StatementView>, b: Seq<StatementView>, i: int)
    requires
        shapes_of(a) == shapes_of(b),
        0 <= i <= a.len(),
    ensures
        a.len() == b.len(),
        nodes_before(a, i) == nodes_before(b, i),
    decreases i,
{
    assert(shapes_of(a).len() == a.len());
    assert(shapes_of(b).len() == b.len());
    if i == 0 {
        assert(a.take(0) =~= Seq::<StatementView>::empty());
        assert(b.take(0) =~= Seq::<StatementView>::empty());
    } else {
        lemma_same_shapes_same_places(a, b, i - 1);
        lemma_nodes_before_next(a, i - 1);
        lemma_nodes_before_next(b, i - 1);
        assert(shapes_of(a)[i - 1] == a[i - 1].shape());
        assert(shapes_of(b)[i - 1] == b[i - 1].shape());
        lemma_shape_counts_nodes(a[i - 1], b[i - 1]);
    }
}

/// Every place among the blank nodes of the statements is that of a blank node of one of
/// them.
proof fn lemma_place_of_node(statements: Seq<StatementView>, p: int) -> (at: (int, int))
    requires
        0 <= p < all_nodes(statements).len(),
    ensures
        0 <= at.0 < statements.len(),
        0 <= at.1 < statements[at.0].nodes().len(),
        p == nodes_before(statements, at.0) + at.1,
    decreases statements.len(),
{
    let n = statements.len() as int;
    assert(n > 0);
    lemma_nodes_before_next(statements, n - 1);
    assert(statements.take(n) =~= statements);
    if p >= nodes_before(statements, n - 1) {
        (n - 1, p - nodes_before(statements, n - 1))
    } else {
        let front = statements.take(n - 1);
        let at = lemma_place_of_node(front, p);
        assert(front.take(at.0) =~= statements.take(at.0));
        at
    }
}

/// The blank nodes of a term, a statement and a list of statements under new names.
pub open spec fn renamed_term(
    term: TermView,
    names: Map<ProcessUniqueId, ProcessUniqueId>,
) -> TermView {
    match term {
        TermView::BNode(id) => TermView::BNode(names[id]),
        _ => term,
    }
}

/// A statement with its blank nodes under new names.
pub open spec fn renamed(
    statement: StatementView,
    names: Map<ProcessUniqueId, ProcessUniqueId>,
) -> StatementView {
    StatementView {
        subject: renamed_term(statement.subject, names),
        predicate: renamed_term(statement.predicate, names),
        object: renamed_term(statement.object, names),
    }
}

/// `names` gives every blank node of `a` a name, no name twice, and `b` is `a`, statement
/// for statement, with its blank nodes under these names.
pub open spec fn renames(
    names: Map<ProcessUniqueId, ProcessUniqueId>,
    a: Seq<StatementView>,
    b: Seq<StatementView>,
) -> bool {
    &&& forall|p: int|
        0 <= p < all_nodes(a).len() ==> names.dom().contains(#[trigger] all_nodes(a)[p])
    &&& forall|x: ProcessUniqueId, y: ProcessUniqueId|
        names.dom().contains(x) && names.dom().contains(y) && x != y ==> #[trigger] names[x]
            != #[trigger] names[y]
    &&& a.len() == b.len()
    &&& forall|i: int| 0 <= i < a.len() ==> renamed(#[trigger] a[i], names) == b[i]
}

/// `b` is `a` but for the names of the blank nodes: one can be had from the other by
/// renaming the blank nodes one to one.
pub open spec fn same_but_for_nodes(a: Seq<StatementView>, b: Seq<StatementView>) -> bool {
    exists|names: Map<ProcessUniqueId, ProcessUniqueId>| #[trigger] renames(names, a, b)
}

/// The names that pair the blank nodes of `a` with those of `b`, occurrence by occurrence.
pub open spec fn paired(
    a: Seq<StatementView>,
    b: Seq<StatementView>,
) -> Map<ProcessUniqueId, ProcessUniqueId> {
    Map::new(
        |id: ProcessUniqueId| all_nodes(a).contains(id),
        |id: ProcessUniqueId| all_nodes(b)[all_nodes(a).index_of(id)],
    )
}

/// The name of the `k`-th blank node of the statement at `i` is the `k`-th blank node of the
/// statement at `i` of the other list.
proof fn lemma_paired_at(a: Seq<StatementView>, b: Seq<StatementView>, i: int, k: int)
    requires
        shapes_of(a) == shapes_of(b),
        all_nodes(a).no_duplicates(),
        0 <= i < a.len(),
        0 <= k < a[i].nodes().len(),
    ensures
        i < b.len(),
        k < b[i].nodes().len(),
        paired(a, b).dom().contains(a[i].nodes()[k]),
        paired(a, b)[a[i].nodes()[k]] == b[i].nodes()[k],
{
    lemma_same_shapes_same_places(a, b, i);
    assert(shapes_of(a)[i] == a[i].shape());
    assert(shapes_of(b)[i] == b[i].shape());
    lemma_shape_counts_nodes(a[i], b[i]);
    lemma_node_at(a, i, k);
    lemma_node_at(b, i, k);
    let id = a[i].nodes()[k];
    let p = nodes_before(a, i) + k;
    assert(all_nodes(a)[p] == id);
    assert(all_nodes(a).contains(id));
    let q = all_nodes(a).index_of(id);
    assert(0 <= q < all_nodes(a).len() && all_nodes(a)[q] == id);
    assert(q == p);
}

/// Statements of the same shapes, in each of which every occurrence of a blank node is a
/// node of its own, are the same but for the names of the blank nodes.
pub proof fn lemma_same_shapes_rename(a: Seq<StatementView>, b: Seq<StatementView>)
    requires
        shapes_of(a) == shapes_of(b),
        forall|i: int| 0 <= i < a.len() ==> (#[trigger] a[i]).well_placed(),
        all_nodes(a).no_duplicates(),
        all_nodes(b).no_duplicates(),
    ensures
        same_but_for_nodes(a, b),
{
    let names = paired(a, b);
    lemma_same_shapes_same_places(a, b, a.len() as int);
    assert(a.take(a.len() as int) =~= a);
    assert(b.take(b.len() as int) =~= b);
    assert(all_nodes(a).len() == all_nodes(b).len());
    assert forall|x: ProcessUniqueId, y: ProcessUniqueId|
        names.dom().contains(x) && names.dom().contains(y) && x != y implies #[trigger] names[x]
        != #[trigger] names[y] by {
        let p = all_nodes(a).index_of(x);
        let q = all_nodes(a).index_of(y);
        assert(all_nodes(a)[p] == x && all_nodes(a)[q] == y);
        assert(p != q);
    }
    assert forall|i: int| 0 <= i < a.len() implies renamed(#[trigger] a[i], names) == b[i] by {
        assert(shapes_of(a)[i] == a[i].shape());
        assert(shapes_of(b)[i] == b[i].shape());
        assert(a[i].well_placed());
        lemma_shape_counts_nodes(a[i], b[i]);
        lemma_shape_fixes_term(a[i].predicate, b[i].predicate);
        if a[i].subject is BNode {
            lemma_paired_at(a, b, i, 0);
            assert(a[i].nodes()[0] == a[i].subject->BNode_0);
            assert(b[i].nodes()[0] == b[i].subject->BNode_0);
        } else {
            lemma_shape_fixes_term(a[i].subject, b[i].subject);
        }
        if a[i].object is BNode {
            let k = a[i].subject.node().len() as int;
            lemma_paired_at(a, b, i, k);
            assert(a[i].nodes()[k] == a[i].object->BNode_0);
            assert(b[i].nodes()[k] == b[i].object->BNode_0);
        } else {
            lemma_shape_fixes_term(a[i].object, b[i].object);
        }
    }
    assert(renames(names, a, b));
}

/// A list that holds each of the statements that were read once holds every occurrence of a
/// blank node as a node of its own, as the statements that were read do.
pub proof fn lemma_listed_nodes_differ(listed: Seq<StatementView>, read: Seq<StatementView>)
    requires
        listed.no_duplicates(),
        listed.to_set() == read.to_set(),
        all_nodes(read).no_duplicates(),
    ensures
        all_nodes(listed).no_duplicates(),
{
    assert forall|p: int, q: int|
        0 <= p < all_nodes(listed).len() && 0 <= q < all_nodes(listed).len() && p
            != q implies all_nodes(listed)[p] != all_nodes(listed)[q] by {
        let (i, k) = lemma_place_of_node(listed, p);
        let (j, l) = lemma_place_of_node(listed, q);
        lemma_node_at(listed, i, k);
        lemma_node_at(listed, j, l);
        assert(listed.to_set().contains(listed[i]));
        assert(listed.to_set().contains(listed[j]));
        assert(read.to_set().contains(listed[i]));
        assert(read.to_set().contains(listed[j]));
        let m = choose|m: int| 0 <= m < read.len() && read[m] == listed[i];
        let n = choose|n: int| 0 <= n < read.len() && read[n] == listed[j];
        lemma_node_at(read, m, k);
        lemma_node_at(read, n, l);
        if i == j {
            assert(m == n);
            assert(k != l);
        } else {
            assert(listed[i] != listed[j]);
            assert(m != n);
            if m < n {
                lemma_nodes_before_grows(read, m, n);
            } else {
                lemma_nodes_before_grows(read, n, m);
            }
        }
    }
}

/// Reading a document, writing the graph that was read and reading what was written gives
/// the graph again but for the names of its blank nodes: a graph of the same size, whose
/// statements are those that were written with their blank nodes renamed one to one. Where
/// the document names no blank node, it is the same graph.
///
/// `input` is a document that is read without a failure, `graph` the statements of a graph
/// that was built from it, in the order in which the graph lists them, and `again` a graph
/// that was built from the written form of `graph`.
pub proof fn lemma_read_write_read_graph(
    input: Seq<u8>,
    graph: Seq<StatementView>,
    again: Set<StatementView>,
)
    requires
        document_spec(input).halt is None,
        built_from(graph.to_set(), document_spec(input).triples),
        graph.no_duplicates(),
        built_from(again, document_spec(document_text(graph, Seq::empty())).triples),
    ensures
        built_from(again, shapes_of(graph)),
        again.finite(),
        again.len() == graph.len(),
        exists|statements: Seq<StatementView>|
            #[trigger] same_but_for_nodes(graph, statements) && again == statements.to_set(),
        (forall|i: int|
            0 <= i < document_spec(input).triples.len() ==> !holds_node(
                #[trigger] document_spec(input).triples[i],
            )) ==> again == graph.to_set(),
{
    let triples = document_spec(input).triples;
    lemma_read_write_read(input, graph);
    let made = choose|made: Seq<StatementView>|
        #[trigger] read_as(made, triples) && graph.to_set() == made.to_set();
    assert forall|i: int| 0 <= i < graph.len() implies (#[trigger] graph[i]).well_placed() && (
    holds_node(graph[i].shape()) ==> exists|j: int|
        0 <= j < triples.len() && holds_node(#[trigger] triples[j])) by {
        assert(graph.to_set().contains(graph[i]));
        assert(made.to_set().contains(graph[i]));
        let j = choose|j: int| 0 <= j < made.len() && made[j] == graph[i];
        assert(shapes_of(made)[j] == made[j].shape());
        assert(triples[j] == graph[i].shape());
    }
    lemma_read_back_same_size(graph, again);
    if forall|i: int| 0 <= i < triples.len() ==> !holds_node(#[trigger] triples[i]) {
        lemma_read_back_equal(graph, again);
    }
    lemma_listed_nodes_differ(graph, made);
    let statements = choose|statements: Seq<StatementView>|
        #[trigger] read_as(statements, shapes_of(graph)) && again == statements.to_set();
    lemma_same_shapes_rename(graph, statements);
}

} // verus!
