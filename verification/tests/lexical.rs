use callgrind::classes::{alpha_run, alphanumeric_run, digit_run, hex_digit_run, space_run};
use callgrind::error::{ErrorKind, ParseError, Rule};
use callgrind::lexical::{
    comment_or_empty, find_newline, name, no_newline_chars, number, skipped_line, space0, space1,
    tag,
};

fn malformed(rule: Rule, offset: usize) -> ParseError {
    ParseError { kind: ErrorKind::Malformed, rule, offset }
}

#[test]
fn decimal_text_parses_to_its_number() {
    assert_eq!(number(b"0", 0), Ok((0, 1)));
    assert_eq!(number(b"7", 0), Ok((7, 1)));
    assert_eq!(number(b"12345", 0), Ok((12345, 5)));
    assert_eq!(number(b"4294967295", 0), Ok((u32::MAX, 10)));
    for n in [1u32, 9, 10, 99, 100, 65535, 65536, 1_000_000_007, u32::MAX - 1] {
        let text = n.to_string();
        assert_eq!(number(text.as_bytes(), 0), Ok((n, text.len())));
    }
}

#[test]
fn hexadecimal_text_parses_to_its_number() {
    assert_eq!(number(b"0x0", 0), Ok((0, 3)));
    assert_eq!(number(b"0x3039", 0), Ok((12345, 6)));
    assert_eq!(number(b"0xffffffff", 0), Ok((u32::MAX, 10)));
    assert_eq!(number(b"0xFFFFFFFF", 0), Ok((u32::MAX, 10)));
    assert_eq!(number(b"0xAbCd", 0), Ok((0xabcd, 6)));
    for n in [1u32, 15, 16, 255, 256, 0xdead_beef, u32::MAX - 1] {
        let lower = format!("0x{:x}", n);
        assert_eq!(number(lower.as_bytes(), 0), Ok((n, lower.len())));
        let upper = format!("0x{:X}", n);
        assert_eq!(number(upper.as_bytes(), 0), Ok((n, upper.len())));
    }
}

#[test]
fn number_takes_the_whole_run_of_digits() {
    assert_eq!(number(b"007 1", 0), Ok((7, 3)));
    assert_eq!(number(b"12ab", 0), Ok((12, 2)));
    assert_eq!(number(b"x 42\n", 2), Ok((42, 4)));
    assert_eq!(number(b"0x1G", 0), Ok((1, 3)));
}

#[test]
fn hex_prefix_without_digits_is_a_decimal_zero() {
    assert_eq!(number(b"0x", 0), Ok((0, 1)));
    assert_eq!(number(b"0xg", 0), Ok((0, 1)));
    assert_eq!(number(b"0X10", 0), Ok((0, 1)));
}

#[test]
fn number_overflow_is_malformed() {
    assert_eq!(number(b"4294967296", 0), Err(malformed(Rule::Number, 0)));
    assert_eq!(number(b"99999999999999999999", 0), Err(malformed(Rule::Number, 0)));
    assert_eq!(number(b"0x100000000", 0), Err(malformed(Rule::Number, 0)));
    assert_eq!(number(b"  4294967296", 2), Err(malformed(Rule::Number, 2)));
}

#[test]
fn number_needs_a_digit() {
    assert_eq!(number(b"", 0), Err(malformed(Rule::Number, 0)));
    assert_eq!(number(b"abc", 0), Err(malformed(Rule::Number, 0)));
    assert_eq!(number(b"+1", 0), Err(malformed(Rule::Number, 0)));
    assert_eq!(number(b"12", 2), Err(malformed(Rule::Number, 2)));
}

#[test]
fn identifier_is_a_letter_then_letters_and_digits() {
    assert_eq!(name(b"Ir", 0), Ok(("Ir".to_string(), 2)));
    assert_eq!(name(b"Ir2 Dr", 0), Ok(("Ir2".to_string(), 3)));
    assert_eq!(name(b"a_b", 0), Ok(("a".to_string(), 1)));
    assert_eq!(name(b"x9y8:", 0), Ok(("x9y8".to_string(), 4)));
    assert_eq!(name(b"  Zed\n", 2), Ok(("Zed".to_string(), 5)));
    assert_eq!(name(b"2Ir", 0), Err(malformed(Rule::Name, 0)));
    assert_eq!(name(b"_a", 0), Err(malformed(Rule::Name, 0)));
    assert_eq!(name(b"", 0), Err(malformed(Rule::Name, 0)));
}

#[test]
fn runs_end_at_the_first_byte_outside_the_class() {
    assert_eq!(digit_run(b"123abc", 0), 3);
    assert_eq!(digit_run(b"abc", 0), 0);
    assert_eq!(digit_run(b"abc", 3), 3);
    assert_eq!(digit_run(b"a12", 1), 3);
    assert_eq!(hex_digit_run(b"12afAFg", 0), 6);
    assert_eq!(hex_digit_run(b"g", 0), 0);
    assert_eq!(alpha_run(b"abZ1", 0), 3);
    assert_eq!(alpha_run(b"1ab", 0), 0);
    assert_eq!(alphanumeric_run(b"ab12_", 0), 4);
    assert_eq!(alphanumeric_run(b"_", 0), 0);
    assert_eq!(space_run(b" \t x", 0), 3);
    assert_eq!(space_run(b"\n", 0), 0);
    assert_eq!(space_run(b"a  ", 1), 3);
}

#[test]
fn horizontal_space_is_spaces_and_tabs() {
    assert_eq!(space0(b"  \tx", 0), 3);
    assert_eq!(space0(b"x", 0), 0);
    assert_eq!(space0(b" \n", 0), 1);
    assert_eq!(space0(b"", 0), 0);
    assert_eq!(space1(b" x", 0), Ok(1));
    assert_eq!(space1(b"\t\t", 0), Ok(2));
    assert_eq!(space1(b"x", 0), Err(malformed(Rule::Space, 0)));
    assert_eq!(space1(b"\n", 0), Err(malformed(Rule::Space, 0)));
}

#[test]
fn literal_matches_its_bytes_only() {
    assert_eq!(tag(b"cmd: x", 0, "cmd:"), Some(4));
    assert_eq!(tag(b"cmd", 0, "cmd:"), None);
    assert_eq!(tag(b"cmx:", 0, "cmd:"), None);
    assert_eq!(tag(b"a=b", 1, "="), Some(2));
    assert_eq!(tag(b"abc", 3, "a"), None);
    assert_eq!(tag(b"abc", 1, ""), Some(1));
}

#[test]
fn rest_of_line_stops_before_the_newline() {
    assert_eq!(no_newline_chars(b"./a b\nnext", 0), Ok(("./a b".to_string(), 5)));
    assert_eq!(no_newline_chars(b"\n", 0), Ok((String::new(), 0)));
    assert_eq!(no_newline_chars(b"ab\ncd\n", 3), Ok(("cd".to_string(), 5)));
    assert_eq!(find_newline(b"ab\ncd\n", 0), Some(2));
    assert_eq!(find_newline(b"ab\ncd\n", 3), Some(5));
    assert_eq!(find_newline(b"ab", 0), None);
}

#[test]
fn rest_of_line_decodes_utf8() {
    let input = "caf\u{e9} \u{4e16}\u{754c}\n".as_bytes();
    assert_eq!(
        no_newline_chars(input, 0),
        Ok(("caf\u{e9} \u{4e16}\u{754c}".to_string(), input.len() - 1))
    );
}

#[test]
fn rest_of_line_without_newline_is_incomplete() {
    assert_eq!(
        no_newline_chars(b"no newline", 0),
        Err(ParseError { kind: ErrorKind::Incomplete, rule: Rule::RestOfLine, offset: 0 })
    );
    assert_eq!(
        no_newline_chars(b"", 0),
        Err(ParseError { kind: ErrorKind::Incomplete, rule: Rule::RestOfLine, offset: 0 })
    );
}

#[test]
fn rest_of_line_that_is_not_utf8_is_malformed() {
    assert_eq!(
        no_newline_chars(b"a\xffb\n", 0),
        Err(ParseError { kind: ErrorKind::Malformed, rule: Rule::RestOfLine, offset: 0 })
    );
    assert_eq!(
        no_newline_chars(b"ok\n\xc3\n", 3),
        Err(ParseError { kind: ErrorKind::Malformed, rule: Rule::RestOfLine, offset: 3 })
    );
}

#[test]
fn blank_and_comment_lines_are_skipped() {
    assert_eq!(comment_or_empty(b"", 0), 0);
    assert_eq!(comment_or_empty(b"cmd: a\n", 0), 0);
    assert_eq!(comment_or_empty(b"\n\n  \t\n# note\ncmd: a\n", 0), 13);
    assert_eq!(comment_or_empty(b"# a\n#b\n", 0), 7);
    assert_eq!(comment_or_empty(b"# no newline", 0), 0);
    assert_eq!(comment_or_empty(b"   ", 0), 0);
    assert_eq!(comment_or_empty(b" # not a comment\n", 0), 0);
    assert_eq!(comment_or_empty(b"#\xff\n0 1\n", 0), 3);
    assert_eq!(skipped_line(b"  \nx", 0), Some(3));
    assert_eq!(skipped_line(b"#c\nx", 0), Some(3));
    assert_eq!(skipped_line(b"x\n", 0), None);
}

#[test]
fn a_position_behind_the_buffer_matches_nothing() {
    assert_eq!(number(b"12", 5), Err(malformed(Rule::Number, 5)));
    assert_eq!(name(b"ab", 3), Err(malformed(Rule::Name, 3)));
    assert_eq!(tag(b"ab", 3, "a"), None);
    assert_eq!(tag(b"ab", 3, ""), None);
    assert_eq!(space0(b" ", 3), 3);
    assert_eq!(space1(b" ", 3), Err(malformed(Rule::Space, 3)));
    assert_eq!(digit_run(b"1", 2), 2);
    assert_eq!(hex_digit_run(b"1", 2), 2);
    assert_eq!(alpha_run(b"a", 2), 2);
    assert_eq!(alphanumeric_run(b"a", 2), 2);
    assert_eq!(space_run(b" ", 2), 2);
    assert_eq!(find_newline(b"\n", 2), None);
    assert_eq!(skipped_line(b"\n", 2), None);
    assert_eq!(comment_or_empty(b"\n", 9), 9);
    assert_eq!(
        no_newline_chars(b"a\n", 3),
        Err(ParseError { kind: ErrorKind::Incomplete, rule: Rule::RestOfLine, offset: 3 })
    );
}
