//! The NTriples grammar, as functions from a byte sequence to what its beginning holds.
//!
//! Each production looks at the bytes from the start of the sequence it is given. It answers
//! with the number of bytes that it matched and what they stand for, or with the place where it
//! could not go on.

use vstd::prelude::*;
use vstd::utf8::*;
use crate::error::{ErrorKind, Failure};
use crate::lex::{eol_len, lemma_run_len_is_run, run_len, ByteClass};
use crate::statement::TripleShape;
use crate::term::{literal_of, LiteralView, TermShape};

verus! {

/// A line feed.
pub const NEWLINE: u8 = 0x0A;

/// A space.
pub const SPACE: u8 = 0x20;

/// `"`, which opens and closes a quoted string.
pub const QUOTE: u8 = 0x22;

/// `#`, which opens a comment.
pub const HASH: u8 = 0x23;

/// `-`, which opens a subtag of a language tag.
pub const HYPHEN: u8 = 0x2D;

/// `.`, which ends a triple.
pub const DOT: u8 = 0x2E;

/// The digit `0`.
pub const ZERO: u8 = 0x30;

/// `:`, the second byte of a blank node label.
pub const COLON: u8 = 0x3A;

/// `<`, which opens an IRI reference.
pub const LESS: u8 = 0x3C;

/// `>`, which closes an IRI reference.
pub const GREATER: u8 = 0x3E;

/// `@`, which opens a language tag.
pub const AT: u8 = 0x40;

/// `^`, twice before a datatype.
pub const CARET: u8 = 0x5E;

/// `_`, the first byte of a blank node label.
pub const UNDERSCORE: u8 = 0x5F;

/// The letter `b`, with which the labels that are written begin.
pub const LOWER_B: u8 = 0x62;

/// The failure of a production that cannot go on at `at`: the input is incomplete where it
/// ends there, and holds an unexpected byte otherwise.
pub open spec fn stuck(s: Seq<u8>, at: int) -> Failure {
    Failure {
        kind: if at >= s.len() {
            ErrorKind::IncompleteInput
        } else {
            ErrorKind::UnexpectedToken
        },
        offset: at,
    }
}

/// Whether `s` begins with the bytes `a`, `b`, and where it ceases to if it does not.
pub open spec fn pair_spec(s: Seq<u8>, a: u8, b: u8) -> Option<Failure> {
    if s.len() == 0 || s[0] != a {
        Some(stuck(s, 0))
    } else if s.len() == 1 || s[1] != b {
        Some(stuck(s, 1))
    } else {
        None
    }
}

/// `open`, then the bytes up to the next `close`, then `close`. The bytes between the two are
/// the match. An input that ends before `close` fails as `unterminated` at the opening
/// delimiter; an empty match fails where `allow_empty` is not set.
pub open spec fn delimited_spec(
    s: Seq<u8>,
    open: u8,
    close: u8,
    unterminated: ErrorKind,
    allow_empty: bool,
) -> Result<(int, Seq<u8>), Failure> {
    if s.len() == 0 || s[0] != open {
        Err(stuck(s, 0))
    } else {
        let n = run_len(s.skip(1), ByteClass::Except(close));
        if n + 1 >= s.len() {
            Err(Failure { kind: unterminated, offset: 0 })
        } else if n == 0 && !allow_empty {
            Err(Failure { kind: ErrorKind::UnexpectedToken, offset: 1 })
        } else {
            Ok((n + 2, s.subrange(1, n + 1)))
        }
    }
}

/// `IRIREF ::= '<' (any byte but '>')+ '>'`
pub open spec fn iriref_spec(s: Seq<u8>) -> Result<(int, Seq<u8>), Failure> {
    delimited_spec(s, LESS, GREATER, ErrorKind::UnterminatedIri, false)
}

/// `STRING_LITERAL_QUOTE ::= '"' (any byte but '"')* '"'`
pub open spec fn literal_quote_spec(s: Seq<u8>) -> Result<(int, Seq<u8>), Failure> {
    delimited_spec(s, QUOTE, QUOTE, ErrorKind::UnterminatedLiteral, true)
}

/// `BLANK_NODE_LABEL ::= '_:' (letter | digit)+`. The label is the match.
pub open spec fn bnode_label_spec(s: Seq<u8>) -> Result<(int, Seq<u8>), Failure> {
    match pair_spec(s, UNDERSCORE, COLON) {
        Some(failure) => Err(failure),
        None => {
            let n = run_len(s.skip(2), ByteClass::LetterOrDigit);
            if n == 0 {
                Err(stuck(s, 2))
            } else {
                Ok((n + 2, s.subrange(2, n + 2)))
            }
        },
    }
}

/// The length of `('-' (letter | digit)+)*` at the start of `s`. A hyphen that no letter or
/// digit follows is not part of it.
pub open spec fn subtags_len(s: Seq<u8>) -> int
    decreases s.len(),
{
    if s.len() > 0 && s[0] == HYPHEN && run_len(s.skip(1), ByteClass::LetterOrDigit) > 0 {
        let n = 1 + run_len(s.skip(1), ByteClass::LetterOrDigit);
        proof {
            lemma_run_len_is_run(s.skip(1), ByteClass::LetterOrDigit);
        }
        n + subtags_len(s.skip(n))
    } else {
        0
    }
}

/// `LANGTAG ::= '@' letter+ ('-' (letter | digit)+)*`. The tag without the `@` is the match.
pub open spec fn language_spec(s: Seq<u8>) -> Result<(int, Seq<u8>), Failure> {
    if s.len() == 0 || s[0] != AT {
        Err(stuck(s, 0))
    } else {
        let n = run_len(s.skip(1), ByteClass::Letter);
        if n == 0 {
            Err(stuck(s, 1))
        } else {
            let end = 1 + n + subtags_len(s.skip(1 + n));
            Ok((end, s.subrange(1, end)))
        }
    }
}

/// `'^^' IRIREF`. The IRI between the angle brackets is the match.
pub open spec fn datatype_spec(s: Seq<u8>) -> Result<(int, Seq<u8>), Failure> {
    match pair_spec(s, CARET, CARET) {
        Some(failure) => Err(failure),
        None => match iriref_spec(s.skip(2)) {
            Ok((n, iri)) => Ok((n + 2, iri)),
            Err(failure) => Err(failure.shifted(2)),
        },
    }
}

/// `comment ::= '#' (any byte but a line feed)*`. The text after the `#` is the match.
pub open spec fn comment_spec(s: Seq<u8>) -> Result<(int, Seq<u8>), Failure> {
    if s.len() == 0 || s[0] != HASH {
        Err(stuck(s, 0))
    } else {
        let n = run_len(s.skip(1), ByteClass::Except(NEWLINE));
        Ok((n + 1, s.subrange(1, n + 1)))
    }
}

/// An IRI reference as a term. Its bytes have to be UTF-8; where they are not, the failure is
/// at the first of them.
pub open spec fn iri_spec(s: Seq<u8>) -> Result<(int, TermShape), Failure> {
    match iriref_spec(s) {
        Ok((n, bytes)) => if valid_utf8(bytes) {
            Ok((n, TermShape::Iri(decode_utf8(bytes))))
        } else {
            Err(Failure { kind: ErrorKind::InvalidUtf8, offset: 1 })
        },
        Err(failure) => Err(failure),
    }
}

/// A blank node label as a term. Which node it is the text does not say.
pub open spec fn bnode_spec(s: Seq<u8>) -> Result<(int, TermShape), Failure> {
    match bnode_label_spec(s) {
        Ok((n, _)) => Ok((n, TermShape::BNode)),
        Err(failure) => Err(failure),
    }
}

/// The datatype that follows a quoted string: none unless `s` begins with `^`.
pub open spec fn datatype_suffix_spec(s: Seq<u8>) -> Result<(int, Option<Seq<u8>>), Failure> {
    if s.len() > 0 && s[0] == CARET {
        match datatype_spec(s) {
            Ok((n, iri)) => Ok((n, Some(iri))),
            Err(failure) => Err(failure),
        }
    } else {
        Ok((0, None))
    }
}

/// The language tag that follows a quoted string and its datatype: none unless `s` begins
/// with `@`.
pub open spec fn language_suffix_spec(s: Seq<u8>) -> Result<(int, Option<Seq<u8>>), Failure> {
    if s.len() > 0 && s[0] == AT {
        match language_spec(s) {
            Ok((n, tag)) => Ok((n, Some(tag))),
            Err(failure) => Err(failure),
        }
    } else {
        Ok((0, None))
    }
}

/// The characters that optional bytes encode.
pub open spec fn opt_decoded(bytes: Option<Seq<u8>>) -> Option<Seq<char>> {
    match bytes {
        Some(bytes) => Some(decode_utf8(bytes)),
        None => None,
    }
}

/// Whether optional bytes, where there are any, are UTF-8.
pub open spec fn opt_valid(bytes: Option<Seq<u8>>) -> bool {
    match bytes {
        Some(bytes) => valid_utf8(bytes),
        None => true,
    }
}

/// The literal of the three matched spans. `quoted` is the length of the quoted string with
/// its quotes, and `tagged` the offset at which the language tag begins. The spans are decoded
/// in the order in which they stand; the first that is not UTF-8 fails at its first byte. A
/// language tag in conflict with the datatype fails at the tag.
pub open spec fn literal_value_spec(
    lexical: Seq<u8>,
    datatype: Option<Seq<u8>>,
    lang: Option<Seq<u8>>,
    quoted: int,
    tagged: int,
) -> Result<LiteralView, Failure> {
    if !valid_utf8(lexical) {
        Err(Failure { kind: ErrorKind::InvalidUtf8, offset: 1 })
    } else if !opt_valid(datatype) {
        Err(Failure { kind: ErrorKind::InvalidUtf8, offset: quoted + 3 })
    } else if !opt_valid(lang) {
        Err(Failure { kind: ErrorKind::InvalidUtf8, offset: tagged + 1 })
    } else {
        match literal_of(decode_utf8(lexical), opt_decoded(datatype), opt_decoded(lang)) {
            Ok(literal) => Ok(literal),
            Err(kind) => Err(Failure { kind, offset: tagged }),
        }
    }
}

/// `literal ::= STRING_LITERAL_QUOTE ('^^' IRIREF)? LANGTAG?`
///
/// A `^` after the string commits to a datatype and an `@` after that to a language tag.
pub open spec fn literal_spec(s: Seq<u8>) -> Result<(int, TermShape), Failure> {
    match literal_quote_spec(s) {
        Err(failure) => Err(failure),
        Ok((quoted, lexical)) => match datatype_suffix_spec(s.skip(quoted)) {
            Err(failure) => Err(failure.shifted(quoted)),
            Ok((typed, datatype)) => match language_suffix_spec(s.skip(quoted + typed)) {
                Err(failure) => Err(failure.shifted(quoted + typed)),
                Ok((tagged, lang)) => match literal_value_spec(
                    lexical,
                    datatype,
                    lang,
                    quoted,
                    quoted + typed,
                ) {
                    Err(failure) => Err(failure),
                    Ok(literal) => Ok((quoted + typed + tagged, TermShape::Literal(literal))),
                },
            },
        },
    }
}

/// `subject ::= IRIREF | BLANK_NODE_LABEL`, chosen by the first byte.
pub open spec fn subject_spec(s: Seq<u8>) -> Result<(int, TermShape), Failure> {
    if s.len() > 0 && s[0] == LESS {
        iri_spec(s)
    } else if s.len() > 0 && s[0] == UNDERSCORE {
        bnode_spec(s)
    } else {
        Err(stuck(s, 0))
    }
}

/// `object ::= IRIREF | BLANK_NODE_LABEL | literal`, chosen by the first byte.
pub open spec fn object_spec(s: Seq<u8>) -> Result<(int, TermShape), Failure> {
    if s.len() > 0 && s[0] == QUOTE {
        literal_spec(s)
    } else {
        subject_spec(s)
    }
}

/// The length of the blanks that `s` has from `at` on, added to `at`.
pub open spec fn past_blanks(s: Seq<u8>, at: int) -> int {
    at + run_len(s.skip(at), ByteClass::Blank)
}

/// The length of the comment that `s` begins with, 0 where it begins with none.
pub open spec fn comment_len(s: Seq<u8>) -> int {
    match comment_spec(s) {
        Ok((n, _)) => n,
        Err(_) => 0,
    }
}

/// `triple ::= WS subject WS IRIREF WS object WS '.' WS comment?` with `WS ::= (' ' | '\t')*`
pub open spec fn ntriple_spec(s: Seq<u8>) -> Result<(int, TripleShape), Failure> {
    let a = past_blanks(s, 0);
    match subject_spec(s.skip(a)) {
        Err(failure) => Err(failure.shifted(a)),
        Ok((n, subject)) => {
            let b = past_blanks(s, a + n);
            match iri_spec(s.skip(b)) {
                Err(failure) => Err(failure.shifted(b)),
                Ok((n, predicate)) => {
                    let c = past_blanks(s, b + n);
                    match object_spec(s.skip(c)) {
                        Err(failure) => Err(failure.shifted(c)),
                        Ok((n, object)) => {
                            let d = past_blanks(s, c + n);
                            if d >= s.len() || s[d] != DOT {
                                Err(stuck(s, d))
                            } else {
                                let e = past_blanks(s, d + 1);
                                Ok(
                                    (
                                        e + comment_len(s.skip(e)),
                                        TripleShape { subject, predicate, object },
                                    ),
                                )
                            }
                        },
                    }
                },
            }
        },
    }
}

/// A production stays inside its input: a match is not empty and no longer than the input,
/// and a failure lies at an offset of the input or at its end.
pub open spec fn within<V>(s: Seq<u8>, r: Result<(int, V), Failure>) -> bool {
    match r {
        Ok((n, _)) => 0 < n <= s.len(),
        Err(failure) => 0 <= failure.offset <= s.len(),
    }
}

/// A delimited span stays inside its input.
pub proof fn lemma_delimited_within(
    s: Seq<u8>,
    open: u8,
    close: u8,
    unterminated: ErrorKind,
    allow_empty: bool,
)
    ensures
        within(s, delimited_spec(s, open, close, unterminated, allow_empty)),
{
    if s.len() > 0 {
        lemma_run_len_is_run(s.skip(1), ByteClass::Except(close));
    }
}

/// A blank node label stays inside its input.
pub proof fn lemma_bnode_label_within(s: Seq<u8>)
    ensures
        within(s, bnode_label_spec(s)),
{
    if s.len() >= 2 {
        lemma_run_len_is_run(s.skip(2), ByteClass::LetterOrDigit);
    }
}

/// The subtags of a language tag stay inside their input.
pub proof fn lemma_subtags_within(s: Seq<u8>)
    ensures
        0 <= subtags_len(s) <= s.len(),
    decreases s.len(),
{
    if s.len() > 0 {
        lemma_run_len_is_run(s.skip(1), ByteClass::LetterOrDigit);
        let n = 1 + run_len(s.skip(1), ByteClass::LetterOrDigit);
        if s[0] == HYPHEN && n > 1 {
            lemma_subtags_within(s.skip(n));
        }
    }
}

/// A language tag stays inside its input.
pub proof fn lemma_language_within(s: Seq<u8>)
    ensures
        within(s, language_spec(s)),
{
    if s.len() > 0 {
        lemma_run_len_is_run(s.skip(1), ByteClass::Letter);
        let n = run_len(s.skip(1), ByteClass::Letter);
        lemma_subtags_within(s.skip(1 + n));
    }
}

/// A datatype stays inside its input.
pub proof fn lemma_datatype_within(s: Seq<u8>)
    ensures
        within(s, datatype_spec(s)),
{
    if s.len() >= 2 {
        lemma_delimited_within(s.skip(2), LESS, GREATER, ErrorKind::UnterminatedIri, false);
    }
}

/// A comment stays inside its input.
pub proof fn lemma_comment_within(s: Seq<u8>)
    ensures
        within(s, comment_spec(s)),
        0 <= comment_len(s) <= s.len(),
{
    if s.len() > 0 {
        lemma_run_len_is_run(s.skip(1), ByteClass::Except(NEWLINE));
    }
}

/// A literal stays inside its input.
pub proof fn lemma_literal_within(s: Seq<u8>)
    ensures
        within(s, literal_spec(s)),
{
    lemma_delimited_within(s, QUOTE, QUOTE, ErrorKind::UnterminatedLiteral, true);
    if let Ok((quoted, lexical)) = literal_quote_spec(s) {
        let after = s.skip(quoted);
        lemma_datatype_within(after);
        if let Ok((typed, datatype)) = datatype_suffix_spec(after) {
            lemma_language_within(s.skip(quoted + typed));
        }
    }
}

/// A subject and a predicate stay inside their input, and are of the kinds that a statement
/// allows.
pub proof fn lemma_subject_within(s: Seq<u8>)
    ensures
        within(s, subject_spec(s)),
        within(s, iri_spec(s)),
        subject_spec(s) matches Ok((_, shape)) ==> shape is Iri || shape is BNode,
        iri_spec(s) matches Ok((_, shape)) ==> shape is Iri,
{
    lemma_delimited_within(s, LESS, GREATER, ErrorKind::UnterminatedIri, false);
    lemma_bnode_label_within(s);
}

/// An object stays inside its input.
pub proof fn lemma_object_within(s: Seq<u8>)
    ensures
        within(s, object_spec(s)),
{
    lemma_subject_within(s);
    lemma_literal_within(s);
}

/// The blanks at an offset of the input end inside the input.
pub proof fn lemma_past_blanks_within(s: Seq<u8>, at: int)
    requires
        0 <= at <= s.len(),
    ensures
        at <= past_blanks(s, at) <= s.len(),
{
    lemma_run_len_is_run(s.skip(at), ByteClass::Blank);
}

/// A triple that matches has a subject and a predicate of the kinds that a statement allows.
pub proof fn lemma_ntriple_within(s: Seq<u8>)
    ensures
        within(s, ntriple_spec(s)),
        ntriple_spec(s) matches Ok((_, triple)) ==> {
            &&& triple.subject is Iri || triple.subject is BNode
            &&& triple.predicate is Iri
        },
{
    lemma_past_blanks_within(s, 0);
    let a = past_blanks(s, 0);
    lemma_subject_within(s.skip(a));
    if let Ok((n, subject)) = subject_spec(s.skip(a)) {
        lemma_past_blanks_within(s, a + n);
        let b = past_blanks(s, a + n);
        lemma_subject_within(s.skip(b));
        if let Ok((n, predicate)) = iri_spec(s.skip(b)) {
            lemma_past_blanks_within(s, b + n);
            let c = past_blanks(s, b + n);
            lemma_object_within(s.skip(c));
            if let Ok((n, object)) = object_spec(s.skip(c)) {
                lemma_past_blanks_within(s, c + n);
                let d = past_blanks(s, c + n);
                if d < s.len() {
                    lemma_past_blanks_within(s, d + 1);
                    let e = past_blanks(s, d + 1);
                    lemma_comment_within(s.skip(e));
                }
            }
        }
    }
}

/// The length of the blank material that `s` begins with: lines that hold nothing but blanks
/// and a comment, each with its line ending, and the blanks and the comment of a last line
/// without a line ending.
pub open spec fn blank_lines_len(s: Seq<u8>) -> int
    decreases s.len(),
{
    let b = past_blanks(s, 0);
    let c = b + comment_len(s.skip(b));
    let e = eol_len(s.skip(c));
    if e > 0 {
        proof {
            lemma_past_blanks_within(s, 0);
            lemma_comment_within(s.skip(b));
        }
        c + e + blank_lines_len(s.skip(c + e))
    } else {
        c
    }
}

/// Blank material stays inside its input.
pub proof fn lemma_blank_lines_within(s: Seq<u8>)
    ensures
        0 <= blank_lines_len(s) <= s.len(),
    decreases s.len(),
{
    lemma_past_blanks_within(s, 0);
    let b = past_blanks(s, 0);
    lemma_comment_within(s.skip(b));
    let c = b + comment_len(s.skip(b));
    let e = eol_len(s.skip(c));
    if e > 0 {
        lemma_blank_lines_within(s.skip(c + e));
    }
}

/// The blank material of `s` from `at` on, by its first line: `b` is the offset after the
/// blanks at `at`, `c` the offset after the comment at `b`, and `e` the length of the line
/// ending at `c`.
pub proof fn lemma_blank_lines_from(s: Seq<u8>, at: int, b: int, c: int, e: int)
    requires
        0 <= at <= s.len(),
        b == past_blanks(s, at),
        c == b + comment_len(s.skip(b)),
        e == eol_len(s.skip(c)),
    ensures
        at <= b <= c <= c + e <= s.len(),
        blank_lines_len(s.skip(at)) == if e > 0 {
            c + e - at + blank_lines_len(s.skip(c + e))
        } else {
            c - at
        },
{
    let here = s.skip(at);
    lemma_past_blanks_within(s, at);
    lemma_comment_within(s.skip(b));
    assert(here.skip(0) =~= here);
    assert(here.skip(b - at) =~= s.skip(b));
    assert(here.skip(c - at) =~= s.skip(c));
    assert(here.skip(c - at + e) =~= s.skip(c + e));
}

/// What the next entry of a document holds: the blank material before a triple, the triple,
/// and the line ending after it.
pub struct EntryShape {
    /// The triple, unless the input ended or failed before one was read.
    pub triple: Option<TripleShape>,
    /// The number of bytes that belong to the entry.
    pub consumed: int,
    /// The failure that ends the reading here, if one does.
    pub halt: Option<Failure>,
    /// Whether another entry may follow: a line ending came after the triple.
    pub more: bool,
}

/// `entry ::= blank* triple EOL?` where `blank` is the blank material of `blank_lines_len`.
///
/// The reading ends without a failure where the input is used up, before or after the triple.
/// It ends with the failure of the triple where what follows the blank material is none, and
/// with an unexpected token where something other than a line ending follows the triple.
pub open spec fn entry_spec(s: Seq<u8>) -> EntryShape {
    let k = blank_lines_len(s);
    if k >= s.len() {
        EntryShape { triple: None, consumed: k, halt: None, more: false }
    } else {
        match ntriple_spec(s.skip(k)) {
            Err(failure) => EntryShape {
                triple: None,
                consumed: k,
                halt: Some(failure.shifted(k)),
                more: false,
            },
            Ok((n, triple)) => {
                let m = k + n;
                let e = eol_len(s.skip(m));
                if m >= s.len() {
                    EntryShape { triple: Some(triple), consumed: m, halt: None, more: false }
                } else if e == 0 {
                    EntryShape {
                        triple: Some(triple),
                        consumed: m,
                        halt: Some(Failure { kind: ErrorKind::UnexpectedToken, offset: m }),
                        more: false,
                    }
                } else {
                    EntryShape { triple: Some(triple), consumed: m + e, halt: None, more: true }
                }
            },
        }
    }
}

/// The entry of `s` at `at` with the offsets of `s`, where `k` is the offset after the blank
/// material at `at`.
pub proof fn lemma_entry_from(s: Seq<u8>, at: int, k: int)
    requires
        0 <= at <= s.len(),
        k == at + blank_lines_len(s.skip(at)),
    ensures
        at <= k <= s.len(),
        entry_spec(s.skip(at)) == if k >= s.len() {
            EntryShape { triple: None, consumed: k - at, halt: None, more: false }
        } else {
            match ntriple_spec(s.skip(k)) {
                Err(failure) => EntryShape {
                    triple: None,
                    consumed: k - at,
                    halt: Some(failure.shifted(k - at)),
                    more: false,
                },
                Ok((n, triple)) => {
                    let m = k + n;
                    let e = eol_len(s.skip(m));
                    if m >= s.len() {
                        EntryShape {
                            triple: Some(triple),
                            consumed: m - at,
                            halt: None,
                            more: false,
                        }
                    } else if e == 0 {
                        EntryShape {
                            triple: Some(triple),
                            consumed: m - at,
                            halt: Some(
                                Failure { kind: ErrorKind::UnexpectedToken, offset: m - at },
                            ),
                            more: false,
                        }
                    } else {
                        EntryShape {
                            triple: Some(triple),
                            consumed: m + e - at,
                            halt: None,
                            more: true,
                        }
                    }
                },
            }
        },
{
    let here = s.skip(at);
    lemma_blank_lines_within(here);
    assert(here.skip(k - at) =~= s.skip(k));
    if k < s.len() {
        lemma_ntriple_within(s.skip(k));
        if let Ok((n, triple)) = ntriple_spec(s.skip(k)) {
            assert(here.skip(k - at + n) =~= s.skip(k + n));
        }
    }
}

/// An entry stays inside its input, and one that another may follow is not empty. The
/// reading ends without a failure only at the end of the input.
pub proof fn lemma_entry_within(s: Seq<u8>)
    ensures
        0 <= entry_spec(s).consumed <= s.len(),
        entry_spec(s).more ==> entry_spec(s).consumed > 0 && entry_spec(s).halt is None,
        !entry_spec(s).more && entry_spec(s).halt is None ==> entry_spec(s).consumed == s.len(),
        entry_spec(s).triple matches Some(triple) ==> {
            &&& triple.subject is Iri || triple.subject is BNode
            &&& triple.predicate is Iri
        },
{
    lemma_blank_lines_within(s);
    let k = blank_lines_len(s);
    if k < s.len() {
        lemma_ntriple_within(s.skip(k));
    }
}

/// What a document holds: its triples in the order of the text, the number of bytes that
/// belong to them and to the blank material around them, and the failure that ended the
/// reading, if one did.
pub struct DocumentShape {
    pub triples: Seq<TripleShape>,
    pub consumed: int,
    pub halt: Option<Failure>,
}

/// An optional failure seen from `by` bytes further left.
pub open spec fn shifted_halt(halt: Option<Failure>, by: int) -> Option<Failure> {
    match halt {
        Some(failure) => Some(failure.shifted(by)),
        None => None,
    }
}

/// The document that begins with the triples `done` in its first `at` bytes and goes on as
/// `tail`.
pub open spec fn resumed(done: Seq<TripleShape>, at: int, tail: DocumentShape) -> DocumentShape {
    DocumentShape {
        triples: done + tail.triples,
        consumed: at + tail.consumed,
        halt: shifted_halt(tail.halt, at),
    }
}

/// The triple of an entry as a sequence of one or none.
pub open spec fn triple_seq(triple: Option<TripleShape>) -> Seq<TripleShape> {
    match triple {
        Some(triple) => seq![triple],
        None => Seq::empty(),
    }
}

/// `document ::= entry*`: the entries one after the other, up to the first that ends the
/// reading.
pub open spec fn document_spec(s: Seq<u8>) -> DocumentShape
    decreases s.len(),
{
    let entry = entry_spec(s);
    if entry.more {
        proof {
            lemma_entry_within(s);
        }
        resumed(triple_seq(entry.triple), entry.consumed, document_spec(s.skip(entry.consumed)))
    } else {
        DocumentShape {
            triples: triple_seq(entry.triple),
            consumed: entry.consumed,
            halt: entry.halt,
        }
    }
}

/// Reading on from `at`, where `done` was read before: one entry further.
pub proof fn lemma_document_resumes(done: Seq<TripleShape>, at: int, s: Seq<u8>)
    ensures
        resumed(done, at, document_spec(s)) == if entry_spec(s).more {
            resumed(
                done + triple_seq(entry_spec(s).triple),
                at + entry_spec(s).consumed,
                document_spec(s.skip(entry_spec(s).consumed)),
            )
        } else {
            DocumentShape {
                triples: done + triple_seq(entry_spec(s).triple),
                consumed: at + entry_spec(s).consumed,
                halt: shifted_halt(entry_spec(s).halt, at),
            }
        },
{
    let entry = entry_spec(s);
    let first = triple_seq(entry.triple);
    if entry.more {
        let tail = document_spec(s.skip(entry.consumed));
        assert(done + (first + tail.triples) =~= done + first + tail.triples);
        lemma_entry_within(s);
    }
}

/// Reading on from `at` in `s`, where `done` was read before: one entry further, with the
/// offsets of `s`.
pub proof fn lemma_document_resumes_at(done: Seq<TripleShape>, s: Seq<u8>, at: int)
    requires
        0 <= at <= s.len(),
    ensures
        ({
            let entry = entry_spec(s.skip(at));
            let end = at + entry.consumed;
            &&& at <= end <= s.len()
            &&& entry.more ==> at < end
            &&& resumed(done, at, document_spec(s.skip(at))) == if entry.more {
                resumed(done + triple_seq(entry.triple), end, document_spec(s.skip(end)))
            } else {
                DocumentShape {
                    triples: done + triple_seq(entry.triple),
                    consumed: end,
                    halt: shifted_halt(entry.halt, at),
                }
            }
        }),
{
    let here = s.skip(at);
    let entry = entry_spec(here);
    lemma_document_resumes(done, at, here);
    lemma_entry_within(here);
    assert(here.skip(entry.consumed) =~= s.skip(at + entry.consumed));
}

/// A document stays inside its input, and the reading ends without a failure only at the end
/// of the input.
pub proof fn lemma_document_within(s: Seq<u8>)
    ensures
        0 <= document_spec(s).consumed <= s.len(),
        document_spec(s).halt is None ==> document_spec(s).consumed == s.len(),
        document_spec(s).halt matches Some(failure) ==> document_spec(s).consumed
            <= failure.offset <= s.len(),
    decreases s.len(),
{
    lemma_entry_within(s);
    let entry = entry_spec(s);
    if entry.more {
        lemma_document_within(s.skip(entry.consumed));
    } else {
        lemma_blank_lines_within(s);
        let k = blank_lines_len(s);
        if k < s.len() {
            lemma_ntriple_within(s.skip(k));
        }
    }
}

} // verus!
