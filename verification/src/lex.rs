//! Byte classes and runs of bytes: the lexical layer under the NTriples grammar.

use vstd::prelude::*;

verus! {

/// A set of bytes that a run is made of.
#[derive(Debug, Clone, Copy, PartialEq, Eq, Structural)]
pub enum ByteClass {
    /// The ASCII letters.
    Letter,
    /// The ASCII letters and digits.
    LetterOrDigit,
    /// Space and tab.
    Blank,
    /// Every byte but the given one.
    Except(u8),
}

/// An ASCII letter.
pub open spec fn is_letter(b: u8) -> bool {
    (0x41 <= b && b <= 0x5A) || (0x61 <= b && b <= 0x7A)
}

/// An ASCII digit.
pub open spec fn is_digit(b: u8) -> bool {
    0x30 <= b && b <= 0x39
}

impl ByteClass {
    /// Whether `b` belongs to the class.
    pub open spec fn has(self, b: u8) -> bool {
        match self {
            ByteClass::Letter => is_letter(b),
            ByteClass::LetterOrDigit => is_letter(b) || is_digit(b),
            ByteClass::Blank => b == 0x20 || b == 0x09,
            ByteClass::Except(stop) => b != stop,
        }
    }
}

/// The length of the longest prefix of `s` whose bytes all belong to `class`.
pub open spec fn run_len(s: Seq<u8>, class: ByteClass) -> int
    decreases s.len(),
{
    if s.len() > 0 && class.has(s[0]) {
        1 + run_len(s.skip(1), class)
    } else {
        0
    }
}

/// The first `n` bytes of `s` belong to `class`, and the byte after them, if there is one, does
/// not.
pub open spec fn is_run(s: Seq<u8>, class: ByteClass, n: int) -> bool {
    &&& 0 <= n <= s.len()
    &&& forall|i: int| 0 <= i < n ==> class.has(#[trigger] s[i])
    &&& n < s.len() ==> !class.has(s[n])
}

/// `run_len` is a run.
pub proof fn lemma_run_len_is_run(s: Seq<u8>, class: ByteClass)
    ensures
        is_run(s, class, run_len(s, class)),
    decreases s.len(),
{
    if s.len() > 0 && class.has(s[0]) {
        let tail = s.skip(1);
        lemma_run_len_is_run(tail, class);
        let n = run_len(tail, class);
        assert forall|i: int| 0 <= i < n + 1 implies class.has(#[trigger] s[i]) by {
            if i > 0 {
                assert(s[i] == tail[i - 1]);
            }
        }
        if n + 1 < s.len() {
            assert(s[n + 1] == tail[n]);
        }
    }
}

/// There is one run only, the one that `run_len` measures.
pub proof fn lemma_run_unique(s: Seq<u8>, class: ByteClass, n: int)
    requires
        is_run(s, class, n),
    ensures
        n == run_len(s, class),
    decreases s.len(),
{
    if s.len() > 0 && class.has(s[0]) {
        let tail = s.skip(1);
        assert(n > 0);
        assert forall|i: int| 0 <= i < n - 1 implies class.has(#[trigger] tail[i]) by {
            assert(tail[i] == s[i + 1]);
        }
        if n - 1 < tail.len() {
            assert(tail[n - 1] == s[n]);
        }
        lemma_run_unique(tail, class, n - 1);
    } else if s.len() > 0 {
        if n > 0 {
            assert(class.has(s[0]));
        }
    }
}

/// `run` is a non-empty prefix of `input` made of bytes of `class`, `rest` is what follows it,
/// and `rest` does not begin with a byte of `class`.
pub open spec fn splits_at_run(
    input: Seq<u8>,
    class: ByteClass,
    run: Seq<u8>,
    rest: Seq<u8>,
) -> bool {
    &&& run.len() > 0
    &&& run + rest == input
    &&& forall|i: int| 0 <= i < run.len() ==> class.has(#[trigger] run[i])
    &&& rest.len() > 0 ==> !class.has(rest[0])
}

/// `input` does not begin with a byte of `class`.
pub open spec fn no_run(input: Seq<u8>, class: ByteClass) -> bool {
    input.len() == 0 || !class.has(input[0])
}

/// Calls `nom::alpha`. nom returns the longest prefix of ASCII letters together with the
/// remaining input, and an error when the input is empty or begins with another byte.
#[verifier::external_body]
fn alpha<'a>(input: &'a [u8]) -> (r: Option<(&'a [u8], &'a [u8])>)
    ensures
        match r {
            Some((rest, run)) => splits_at_run(input@, ByteClass::Letter, run@, rest@),
            None => no_run(input@, ByteClass::Letter),
        },
{
    match nom::alpha(input) {
        nom::IResult::Done(rest, run) => Some((rest, run)),
        nom::IResult::Error(_) => None,
        nom::IResult::Incomplete(_) => None,
    }
}

/// Calls `nom::alphanumeric`. nom returns the longest prefix of ASCII letters and digits
/// together with the remaining input, and an error when the input is empty or begins with
/// another byte.
#[verifier::external_body]
fn alphanumeric<'a>(input: &'a [u8]) -> (r: Option<(&'a [u8], &'a [u8])>)
    ensures
        match r {
            Some((rest, run)) => splits_at_run(input@, ByteClass::LetterOrDigit, run@, rest@),
            None => no_run(input@, ByteClass::LetterOrDigit),
        },
{
    match nom::alphanumeric(input) {
        nom::IResult::Done(rest, run) => Some((rest, run)),
        nom::IResult::Error(_) => None,
        nom::IResult::Incomplete(_) => None,
    }
}

/// Calls `nom::space`. nom returns the longest prefix of spaces and tabs together with the
/// remaining input, and an error when the input is empty or begins with another byte.
#[verifier::external_body]
fn space<'a>(input: &'a [u8]) -> (r: Option<(&'a [u8], &'a [u8])>)
    ensures
        match r {
            Some((rest, run)) => splits_at_run(input@, ByteClass::Blank, run@, rest@),
            None => no_run(input@, ByteClass::Blank),
        },
{
    match nom::space(input) {
        nom::IResult::Done(rest, run) => Some((rest, run)),
        nom::IResult::Error(_) => None,
        nom::IResult::Incomplete(_) => None,
    }
}

/// What `nom::eol` makes of an input.
enum LineEnd<'a> {
    /// A line ending, and what follows it.
    Done(&'a [u8]),
    /// No line ending.
    Error,
    /// Too few bytes to tell.
    Incomplete,
}

/// Calls `nom::eol`. nom asks for two bytes before it decides: with fewer the answer is
/// `Incomplete`. Otherwise it takes a carriage return and a line feed, or else a line feed
/// alone, and reports an error on anything else.
#[verifier::external_body]
fn eol<'a>(input: &'a [u8]) -> (r: LineEnd<'a>)
    ensures
        match r {
            LineEnd::Done(rest) => input@.len() >= 2 && (if input@[0] == 0x0D {
                input@[1] == 0x0A && rest@ == input@.skip(2)
            } else {
                input@[0] == 0x0A && rest@ == input@.skip(1)
            }),
            LineEnd::Error => input@.len() >= 2 && input@[0] != 0x0A && !(input@[0] == 0x0D
                && input@[1] == 0x0A),
            LineEnd::Incomplete => input@.len() < 2,
        },
{
    match nom::eol(input) {
        nom::IResult::Done(rest, _) => LineEnd::Done(rest),
        nom::IResult::Error(_) => LineEnd::Error,
        nom::IResult::Incomplete(_) => LineEnd::Incomplete,
    }
}

/// From what nom split off to the length of the run.
proof fn lemma_split_is_run(input: Seq<u8>, class: ByteClass, run: Seq<u8>, rest: Seq<u8>)
    requires
        splits_at_run(input, class, run, rest),
    ensures
        run.len() == run_len(input, class),
        run.len() + rest.len() == input.len(),
{
    assert((run + rest).len() == run.len() + rest.len());
    assert forall|i: int| 0 <= i < run.len() implies class.has(#[trigger] input[i]) by {
        assert(input[i] == (run + rest)[i]);
        assert(input[i] == run[i]);
    }
    if run.len() < input.len() {
        assert(input[run.len() as int] == (run + rest)[run.len() as int]);
        assert(input[run.len() as int] == rest[0]);
    }
    lemma_run_unique(input, class, run.len() as int);
}

/// The number of ASCII letters that `input` begins with.
pub fn letters(input: &[u8]) -> (n: usize)
    ensures
        n == run_len(input@, ByteClass::Letter),
        n <= input@.len(),
{
    match alpha(input) {
        Some((rest, run)) => {
            proof {
                lemma_split_is_run(input@, ByteClass::Letter, run@, rest@);
            }
            run.len()
        },
        None => {
            proof {
                lemma_run_len_is_run(input@, ByteClass::Letter);
            }
            0
        },
    }
}

/// The number of ASCII letters and digits that `input` begins with.
pub fn letters_or_digits(input: &[u8]) -> (n: usize)
    ensures
        n == run_len(input@, ByteClass::LetterOrDigit),
        n <= input@.len(),
{
    match alphanumeric(input) {
        Some((rest, run)) => {
            proof {
                lemma_split_is_run(input@, ByteClass::LetterOrDigit, run@, rest@);
            }
            run.len()
        },
        None => {
            proof {
                lemma_run_len_is_run(input@, ByteClass::LetterOrDigit);
            }
            0
        },
    }
}

/// The number of spaces and tabs that `input` begins with.
pub fn blanks(input: &[u8]) -> (n: usize)
    ensures
        n == run_len(input@, ByteClass::Blank),
        n <= input@.len(),
{
    match space(input) {
        Some((rest, run)) => {
            proof {
                lemma_split_is_run(input@, ByteClass::Blank, run@, rest@);
            }
            run.len()
        },
        None => {
            proof {
                lemma_run_len_is_run(input@, ByteClass::Blank);
            }
            0
        },
    }
}

/// The number of bytes before the first `stop`, or the length of `input` where there is none.
pub fn bytes_before(input: &[u8], stop: u8) -> (n: usize)
    ensures
        n == run_len(input@, ByteClass::Except(stop)),
        n <= input@.len(),
{
    let mut n: usize = 0;
    while n < input.len() && input[n] != stop
        invariant
            n <= input@.len(),
            forall|i: int| 0 <= i < n ==> input@[i] != stop,
        decreases input@.len() - n,
    {
        n += 1;
    }
    proof {
        lemma_run_unique(input@, ByteClass::Except(stop), n as int);
    }
    n
}

/// The length of the line ending that `s` begins with: 2 for a carriage return and a line
/// feed, 1 for a line feed, 0 where `s` begins with neither.
pub open spec fn eol_len(s: Seq<u8>) -> int {
    if s.len() >= 1 && s[0] == 0x0A {
        1
    } else if s.len() >= 2 && s[0] == 0x0D && s[1] == 0x0A {
        2
    } else {
        0
    }
}

/// The length of the line ending that `input` begins with.
pub fn line_end(input: &[u8]) -> (n: usize)
    ensures
        n == eol_len(input@),
{
    match eol(input) {
        LineEnd::Done(rest) => input.len() - rest.len(),
        LineEnd::Error => 0,
        LineEnd::Incomplete => if input.len() == 1 && input[0] == 0x0A {
            1
        } else {
            0
        },
    }
}

} // verus!
