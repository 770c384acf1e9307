use rdf::lex::{blanks, bytes_before, letters, letters_or_digits, line_end};
use rdf::text::decode;

#[test]
fn letters_counts_the_leading_letters() {
    assert_eq!(letters(b""), 0);
    assert_eq!(letters(b"1a"), 0);
    assert_eq!(letters(b"abcXYZ"), 6);
    assert_eq!(letters(b"de-AT"), 2);
    assert_eq!(letters(b"az@"), 2);
    assert_eq!(letters(b"AZ["), 2);
    assert_eq!(letters(b"a`"), 1);
    assert_eq!(letters(b"a{"), 1);
}

#[test]
fn letters_or_digits_counts_the_leading_letters_and_digits() {
    assert_eq!(letters_or_digits(b""), 0);
    assert_eq!(letters_or_digits(b"-a"), 0);
    assert_eq!(letters_or_digits(b"node1 <p>"), 5);
    assert_eq!(letters_or_digits(b"09azAZ"), 6);
    assert_eq!(letters_or_digits(b"0/"), 1);
    assert_eq!(letters_or_digits(b"9:"), 1);
}

#[test]
fn blanks_counts_the_leading_spaces_and_tabs() {
    assert_eq!(blanks(b""), 0);
    assert_eq!(blanks(b"a "), 0);
    assert_eq!(blanks(b" \t \ta"), 4);
    assert_eq!(blanks(b"  \n "), 2);
    assert_eq!(blanks(b"\t\t"), 2);
}

#[test]
fn bytes_before_finds_the_first_stop() {
    assert_eq!(bytes_before(b"", b'>'), 0);
    assert_eq!(bytes_before(b"ab>cd>", b'>'), 2);
    assert_eq!(bytes_before(b">", b'>'), 0);
    assert_eq!(bytes_before(b"abc", b'>'), 3);
}

#[test]
fn line_end_measures_the_line_ending() {
    assert_eq!(line_end(b""), 0);
    assert_eq!(line_end(b"\n"), 1);
    assert_eq!(line_end(b"\nx"), 1);
    assert_eq!(line_end(b"\n\n"), 1);
    assert_eq!(line_end(b"\r\n"), 2);
    assert_eq!(line_end(b"\r\nx"), 2);
    assert_eq!(line_end(b"\r"), 0);
    assert_eq!(line_end(b"\rx"), 0);
    assert_eq!(line_end(b"x\n"), 0);
    assert_eq!(line_end(b" "), 0);
}

#[test]
fn decode_gives_the_text_of_well_formed_bytes() {
    assert_eq!(decode(b""), Some(""));
    assert_eq!(decode(b"moomin"), Some("moomin"));
    assert_eq!(decode("gr\u{fc}n \u{1f600}".as_bytes()), Some("gr\u{fc}n \u{1f600}"));
    assert_eq!(decode(b"\xff"), None);
    assert_eq!(decode(b"ab\xc3"), None);
    assert_eq!(decode(b"\xed\xa0\x80"), None);
}
