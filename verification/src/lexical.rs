//! Lexical rules: literals, horizontal space, integers, identifiers, the rest
//! of a line, and runs of blank and comment lines.

use crate::classes::{
    alpha_run, alphanumeric_run, digit_run, hex_digit_run, is_alpha_byte, is_digit_byte,
    lemma_run_end, lemma_run_end_unique, run_end, space_run, ByteClass,
};
use crate::error::{agrees, malformed, malformed_at, ErrorKind, ParseError, Rule};
use vstd::prelude::*;
use vstd::slice::slice_subrange;
use vstd::utf8::*;

verus! {

/// The bytes of a literal of the grammar.
pub open spec fn bytes_of(lit: &str) -> Seq<u8> {
    encode_utf8(lit@)
}

/// The newline byte that ends every line.
pub open spec fn newline() -> u8 {
    0x0A
}

/// Whether the bytes `lit` stand at `pos`.
pub open spec fn tag_at(s: Seq<u8>, pos: int, lit: Seq<u8>) -> bool {
    &&& 0 <= pos
    &&& pos + lit.len() <= s.len()
    &&& forall|i: int| 0 <= i < lit.len() ==> s[pos + i] == #[trigger] lit[i]
}

/// A literal: matches where its bytes stand at `pos`, and ends behind them.
pub open spec fn spec_tag(s: Seq<u8>, pos: int, lit: Seq<u8>) -> Option<int> {
    if tag_at(s, pos, lit) {
        Some(pos + lit.len())
    } else {
        None
    }
}

/// Matches the literal `lit` at `pos`.
pub fn tag(input: &[u8], pos: usize, lit: &str) -> (r: Option<usize>)
    ensures
        match r {
            Some(end) => spec_tag(input@, pos as int, bytes_of(lit)) == Some(end as int),
            None => spec_tag(input@, pos as int, bytes_of(lit)) is None,
        },
{
    let b = lit.as_bytes();
    let n: usize = b.len();
    if pos > input.len() || n > input.len() - pos {
        return None;
    }
    let mut i: usize = 0;
    while i < n
        invariant
            i <= n,
            n == b@.len(),
            b@ == bytes_of(lit),
            pos + n <= input@.len() <= usize::MAX,
            forall|j: int| 0 <= j < i ==> input@[pos + j] == #[trigger] b@[j],
        decreases n - i,
    {
        if input[pos + i] != b[i] {
            assert(input@[pos + i] != b@[i as int]);
            return None;
        }
        i += 1;
    }
    Some(pos + n)
}

/// Zero or more spaces and tabs.
pub open spec fn spec_space0(s: Seq<u8>, pos: int) -> int {
    run_end(s, pos, ByteClass::Space)
}

/// One or more spaces and tabs.
pub open spec fn spec_space1(s: Seq<u8>, pos: int) -> Option<int> {
    if run_end(s, pos, ByteClass::Space) > pos {
        Some(run_end(s, pos, ByteClass::Space))
    } else {
        None
    }
}

/// Skips the spaces and tabs at `pos`, if any.
pub fn space0(input: &[u8], pos: usize) -> (end: usize)
    ensures
        end as int == spec_space0(input@, pos as int),
        pos <= end,
        end <= input@.len() || end == pos,
{
    space_run(input, pos)
}

/// Skips the spaces and tabs at `pos`, of which there must be one at least.
pub fn space1(input: &[u8], pos: usize) -> (r: Result<usize, ParseError>)
    ensures
        match r {
            Ok(end) => spec_space1(input@, pos as int) == Some(end as int) && pos < end
                <= input@.len(),
            Err(e) => spec_space1(input@, pos as int) is None && e == malformed_at(
                Rule::Space,
                pos,
            ),
        },
{
    let end = space_run(input, pos);
    if end > pos {
        Ok(end)
    } else {
        Err(malformed(Rule::Space, pos))
    }
}

/// The value of one digit; of a letter `a` to `f`, in either case, ten and
/// more.
pub open spec fn digit_value(b: u8) -> nat {
    if is_digit_byte(b) {
        (b - 0x30) as nat
    } else if 0x61 <= b <= 0x66 {
        (b - 0x61 + 10) as nat
    } else if 0x41 <= b <= 0x46 {
        (b - 0x41 + 10) as nat
    } else {
        0
    }
}

/// The number that a string of digits denotes in the given radix.
pub open spec fn digits_value(digits: Seq<u8>, radix: nat) -> nat
    decreases digits.len(),
{
    if digits.len() == 0 {
        0
    } else {
        digits_value(digits.drop_last(), radix) * radix + digit_value(digits.last())
    }
}

/// The value of the digits from `from` to `to`, where it fits in 32 bits.
pub open spec fn spec_literal(s: Seq<u8>, from: int, to: int, radix: nat) -> Option<(u32, int)> {
    let v = digits_value(s.subrange(from, to), radix);
    if v <= u32::MAX {
        Some((v as u32, to))
    } else {
        None
    }
}

/// An unsigned integer: `0x` and one or more hexadecimal digits, or one or
/// more decimal digits. All digits of the run belong to the literal, and a
/// literal whose value does not fit in 32 bits does not match.
pub open spec fn spec_number(s: Seq<u8>, pos: int) -> Option<(u32, int)> {
    let hex = spec_tag(s, pos, bytes_of("0x"));
    if hex is Some && run_end(s, hex->0, ByteClass::HexDigit) > hex->0 {
        spec_literal(s, hex->0, run_end(s, hex->0, ByteClass::HexDigit), 16)
    } else if run_end(s, pos, ByteClass::Digit) > pos {
        spec_literal(s, pos, run_end(s, pos, ByteClass::Digit), 10)
    } else {
        None
    }
}

/// The value of one digit.
fn digit_of(b: u8) -> (d: u32)
    ensures
        d == digit_value(b),
        d < 16,
{
    if b >= 0x30 && b <= 0x39 {
        (b - 0x30) as u32
    } else if b >= 0x61 && b <= 0x66 {
        (b - 0x61 + 10) as u32
    } else if b >= 0x41 && b <= 0x46 {
        (b - 0x41 + 10) as u32
    } else {
        0
    }
}

/// A longer string of digits denotes no smaller number.
proof fn lemma_digits_value_grows(s: Seq<u8>, from: int, mid: int, to: int, radix: nat)
    requires
        0 <= from <= mid <= to <= s.len(),
        radix >= 1,
    ensures
        digits_value(s.subrange(from, mid), radix) <= digits_value(s.subrange(from, to), radix),
    decreases to - mid,
{
    if mid < to {
        lemma_digits_value_grows(s, from, mid, to - 1, radix);
        assert(s.subrange(from, to).drop_last() =~= s.subrange(from, to - 1));
        let shorter = digits_value(s.subrange(from, to - 1), radix);
        assert(shorter <= shorter * radix) by (nonlinear_arith)
            requires
                radix >= 1,
        ;
    }
}

/// Computes the value of the digits from `from` to `to`, or finds that it
/// does not fit in 32 bits.
fn literal(input: &[u8], from: usize, to: usize, radix: u32) -> (r: Option<u32>)
    requires
        from <= to <= input@.len(),
        radix == 10 || radix == 16,
    ensures
        match r {
            Some(v) => spec_literal(input@, from as int, to as int, radix as nat) == Some(
                (v, to as int),
            ),
            None => spec_literal(input@, from as int, to as int, radix as nat) is None,
        },
{
    let mut acc: u32 = 0;
    let mut i: usize = from;
    while i < to
        invariant
            from <= i <= to <= input@.len(),
            radix == 10 || radix == 16,
            acc as nat == digits_value(input@.subrange(from as int, i as int), radix as nat),
        decreases to - i,
    {
        let d: u32 = digit_of(input[i]);
        proof {
            assert(input@.subrange(from as int, i + 1).drop_last() =~= input@.subrange(
                from as int,
                i as int,
            ));
            assert(input@.subrange(from as int, i + 1).last() == input@[i as int]);
        }
        if acc > (u32::MAX - d) / radix {
            proof {
                lemma_digits_value_grows(input@, from as int, i + 1, to as int, radix as nat);
                assert(acc * radix + d > u32::MAX) by (nonlinear_arith)
                    requires
                        acc > (u32::MAX - d) / (radix as int),
                        radix == 10 || radix == 16,
                        d < 16,
                ;
            }
            return None;
        }
        assert(acc * radix + d <= u32::MAX) by (nonlinear_arith)
            requires
                acc <= (u32::MAX - d) / (radix as int),
                radix == 10 || radix == 16,
                d < 16,
        ;
        acc = acc * radix + d;
        i += 1;
    }
    Some(acc)
}

/// Parses an unsigned integer at `pos`.
pub fn number(input: &[u8], pos: usize) -> (r: Result<(u32, usize), ParseError>)
    ensures
        agrees(r, spec_number(input@, pos as int), Rule::Number, pos),
        r matches Ok((_, end)) ==> pos < end <= input@.len(),
{
    if let Some(start) = tag(input, pos, "0x") {
        let end = hex_digit_run(input, start);
        if end > start {
            return match literal(input, start, end, 16) {
                Some(v) => Ok((v, end)),
                None => Err(malformed(Rule::Number, pos)),
            };
        }
    }
    let end = digit_run(input, pos);
    if end > pos {
        match literal(input, pos, end, 10) {
            Some(v) => Ok((v, end)),
            None => Err(malformed(Rule::Number, pos)),
        }
    } else {
        Err(malformed(Rule::Number, pos))
    }
}

/// The text that ASCII bytes spell.
pub open spec fn ascii_text(bytes: Seq<u8>) -> Seq<char> {
    Seq::new(bytes.len(), |i: int| bytes[i] as char)
}

/// An identifier: a letter, then letters and digits as far as they go.
pub open spec fn spec_name(s: Seq<u8>, pos: int) -> Option<(Seq<char>, int)> {
    if 0 <= pos < s.len() && is_alpha_byte(s[pos]) {
        let end = run_end(s, pos + 1, ByteClass::Alphanumeric);
        Some((ascii_text(s.subrange(pos, end)), end))
    } else {
        None
    }
}

/// std's `from_utf8` accepts exactly the byte strings that are valid UTF-8,
/// and answers the text that they encode.
#[verifier::external_body]
pub(crate) fn from_utf8<'a>(bytes: &'a [u8]) -> (r: Option<&'a str>)
    ensures
        match r {
            Some(text) => valid_utf8(bytes@) && text@ == decode_utf8(bytes@),
            None => !valid_utf8(bytes@),
        },
{
    match std::str::from_utf8(bytes) {
        Ok(text) => Some(text),
        Err(_) => None,
    }
}

/// Bytes below 128 are valid UTF-8 and encode themselves.
pub proof fn lemma_ascii_is_utf8(bytes: Seq<u8>)
    requires
        forall|i: int| 0 <= i < bytes.len() ==> #[trigger] bytes[i] < 128,
    ensures
        valid_utf8(bytes),
        decode_utf8(bytes) == ascii_text(bytes),
        encode_utf8(ascii_text(bytes)) == bytes,
{
    let chars = ascii_text(bytes);
    assert(is_ascii_chars(chars));
    is_ascii_chars_encode_utf8(chars);
    assert forall|i: int| 0 <= i < bytes.len() implies encode_utf8(chars)[i] == bytes[i] by {
        assert(chars[i] as u8 == encode_utf8(chars)[i]);
        assert(chars[i] == bytes[i] as char);
    }
    assert(encode_utf8(chars) =~= bytes);
    encode_utf8_valid_utf8(chars);
    encode_utf8_decode_utf8(chars);
}

/// Parses an identifier at `pos`.
pub fn name(input: &[u8], pos: usize) -> (r: Result<(String, usize), ParseError>)
    ensures
        agrees(r, spec_name(input@, pos as int), Rule::Name, pos),
        r matches Ok((_, end)) ==> pos < end <= input@.len(),
{
    let letters = alpha_run(input, pos);
    if letters == pos {
        proof {
            if pos <= input@.len() {
                lemma_run_end(input@, pos as int, ByteClass::Alpha);
            }
        }
        return Err(malformed(Rule::Name, pos));
    }
    let end = alphanumeric_run(input, letters);
    let bytes = slice_subrange(input, pos, end);
    proof {
        let s = input@;
        lemma_run_end(s, pos as int, ByteClass::Alpha);
        lemma_run_end(s, letters as int, ByteClass::Alphanumeric);
        assert forall|i: int| pos + 1 <= i < end implies ByteClass::Alphanumeric.holds(
            #[trigger] s[i],
        ) by {
            if i < letters {
                assert(ByteClass::Alpha.holds(s[i]));
            }
        }
        lemma_run_end_unique(s, pos + 1, ByteClass::Alphanumeric, end as int);
        assert(ByteClass::Alpha.holds(s[pos as int]));
        assert forall|i: int| 0 <= i < bytes@.len() implies #[trigger] bytes@[i] < 128 by {
            assert(ByteClass::Alphanumeric.holds(s[pos + i]) || i == 0);
        }
        lemma_ascii_is_utf8(bytes@);
    }
    match from_utf8(bytes) {
        Some(text) => Ok((text.to_owned(), end)),
        None => Err(malformed(Rule::Name, pos)),
    }
}

/// The place of the first newline at or behind `pos`.
pub open spec fn line_end(s: Seq<u8>, pos: int) -> Option<int>
    decreases s.len() - pos,
{
    if pos < 0 || pos >= s.len() {
        None
    } else if s[pos] == newline() {
        Some(pos)
    } else {
        line_end(s, pos + 1)
    }
}

/// The end of a line is a newline at or behind `pos` with none between.
pub proof fn lemma_line_end(s: Seq<u8>, pos: int)
    requires
        0 <= pos <= s.len(),
    ensures
        match line_end(s, pos) {
            Some(end) => pos <= end < s.len() && s[end] == newline() && forall|i: int|
                pos <= i < end ==> #[trigger] s[i] != newline(),
            None => forall|i: int| pos <= i < s.len() ==> #[trigger] s[i] != newline(),
        },
    decreases s.len() - pos,
{
    if pos < s.len() && s[pos] != newline() {
        lemma_line_end(s, pos + 1);
    }
}

/// The rest of the line: the text from `pos` to the next newline, which is not
/// taken. There is none where no newline follows or where the bytes are not
/// valid UTF-8.
pub open spec fn spec_no_newline_chars(s: Seq<u8>, pos: int) -> Option<(Seq<char>, int)> {
    match line_end(s, pos) {
        Some(end) => if valid_utf8(s.subrange(pos, end)) {
            Some((decode_utf8(s.subrange(pos, end)), end))
        } else {
            None
        },
        None => None,
    }
}

/// Finds the first newline at or behind `pos`.
pub fn find_newline(input: &[u8], pos: usize) -> (r: Option<usize>)
    ensures
        match r {
            Some(end) => line_end(input@, pos as int) == Some(end as int) && pos <= end
                < input@.len(),
            None => line_end(input@, pos as int) is None,
        },
{
    if pos > input.len() {
        return None;
    }
    let mut i: usize = pos;
    while i < input.len()
        invariant
            pos <= i <= input@.len(),
            line_end(input@, pos as int) == line_end(input@, i as int),
        decreases input@.len() - i,
    {
        if input[i] == 0x0A {
            return Some(i);
        }
        i += 1;
    }
    None
}

/// Captures the rest of the line at `pos`. A line without its newline is
/// `Incomplete`; one that is not valid UTF-8 is `Malformed`.
pub fn no_newline_chars(input: &[u8], pos: usize) -> (r: Result<(String, usize), ParseError>)
    ensures
        match r {
            Ok((text, end)) => spec_no_newline_chars(input@, pos as int) == Some(
                (text@, end as int),
            ) && pos <= end < input@.len() && input@[end as int] == newline(),
            Err(e) => spec_no_newline_chars(input@, pos as int) is None && e == (ParseError {
                kind: if line_end(input@, pos as int) is None {
                    ErrorKind::Incomplete
                } else {
                    ErrorKind::Malformed
                },
                rule: Rule::RestOfLine,
                offset: pos,
            }),
        },
{
    match find_newline(input, pos) {
        Some(end) => {
            proof {
                lemma_line_end(input@, pos as int);
            }
            match from_utf8(slice_subrange(input, pos, end)) {
                Some(text) => Ok((text.to_owned(), end)),
                None => Err(
                    ParseError { kind: ErrorKind::Malformed, rule: Rule::RestOfLine, offset: pos },
                ),
            }
        },
        None => Err(
            ParseError { kind: ErrorKind::Incomplete, rule: Rule::RestOfLine, offset: pos },
        ),
    }
}

/// A blank line: spaces and tabs, if any, and the newline.
pub open spec fn spec_blank_line(s: Seq<u8>, pos: int) -> Option<int> {
    let end = run_end(s, pos, ByteClass::Space);
    if 0 <= end < s.len() && s[end] == newline() {
        Some(end + 1)
    } else {
        None
    }
}

/// A comment line: `#`, anything up to the newline, and the newline.
pub open spec fn spec_comment_line(s: Seq<u8>, pos: int) -> Option<int> {
    if 0 <= pos < s.len() && s[pos] == 0x23 {
        match line_end(s, pos + 1) {
            Some(end) => Some(end + 1),
            None => None,
        }
    } else {
        None
    }
}

/// A line that carries nothing: blank, or a comment.
pub open spec fn spec_skipped_line(s: Seq<u8>, pos: int) -> Option<int> {
    if spec_blank_line(s, pos) is Some {
        spec_blank_line(s, pos)
    } else {
        spec_comment_line(s, pos)
    }
}

/// A skipped line ends behind its start and inside the buffer.
pub proof fn lemma_skipped_line(s: Seq<u8>, pos: int)
    requires
        0 <= pos <= s.len(),
    ensures
        spec_skipped_line(s, pos) matches Some(end) ==> pos < end <= s.len() && s[end - 1]
            == newline(),
{
    lemma_run_end(s, pos, ByteClass::Space);
    if pos < s.len() {
        lemma_line_end(s, pos + 1);
    }
}

/// The end of the run of blank and comment lines at `pos`; `pos` itself
/// where there is none.
pub open spec fn spec_comment_or_empty(s: Seq<u8>, pos: int) -> int
    decreases s.len() - pos,
    via spec_comment_or_empty_decreases
{
    if 0 <= pos <= s.len() {
        match spec_skipped_line(s, pos) {
            Some(end) => spec_comment_or_empty(s, end),
            None => pos,
        }
    } else {
        pos
    }
}

/// Each further skipped line starts behind the one before.
#[via_fn]
proof fn spec_comment_or_empty_decreases(s: Seq<u8>, pos: int) {
    if 0 <= pos <= s.len() {
        lemma_skipped_line(s, pos);
    }
}

/// Skips one blank or comment line at `pos`, if there is one.
pub fn skipped_line(input: &[u8], pos: usize) -> (r: Option<usize>)
    ensures
        match r {
            Some(end) => spec_skipped_line(input@, pos as int) == Some(end as int) && pos < end
                <= input@.len(),
            None => spec_skipped_line(input@, pos as int) is None,
        },
{
    let blank = space_run(input, pos);
    if blank < input.len() && input[blank] == 0x0A {
        return Some(blank + 1);
    }
    if pos < input.len() && input[pos] == 0x23 {
        match find_newline(input, pos + 1) {
            Some(end) => Some(end + 1),
            None => None,
        }
    } else {
        None
    }
}

/// Skips the blank and comment lines at `pos`, as many as there are.
pub fn comment_or_empty(input: &[u8], pos: usize) -> (end: usize)
    ensures
        end as int == spec_comment_or_empty(input@, pos as int),
        pos <= end,
        end <= input@.len() || end == pos,
{
    let mut at: usize = pos;
    loop
        invariant
            pos <= at,
            at <= input@.len() || at == pos,
            spec_comment_or_empty(input@, pos as int) == spec_comment_or_empty(
                input@,
                at as int,
            ),
        decreases input@.len() - at,
    {
        match skipped_line(input, at) {
            Some(next) => {
                at = next;
            },
            None => {
                return at;
            },
        }
    }
}

/// An integer takes one byte at least and ends inside the buffer.
pub proof fn lemma_number_bounds(s: Seq<u8>, pos: int)
    requires
        0 <= pos <= s.len(),
    ensures
        spec_number(s, pos) matches Some((_, end)) ==> pos < end <= s.len(),
{
    lemma_run_end(s, pos, ByteClass::Digit);
    let hex = spec_tag(s, pos, bytes_of("0x"));
    if hex is Some {
        lemma_run_end(s, hex->0, ByteClass::HexDigit);
    }
}

/// An identifier takes one byte at least and ends inside the buffer.
pub proof fn lemma_name_bounds(s: Seq<u8>, pos: int)
    requires
        0 <= pos <= s.len(),
    ensures
        spec_name(s, pos) matches Some((_, end)) ==> pos < end <= s.len(),
{
    if pos < s.len() {
        lemma_run_end(s, pos + 1, ByteClass::Alphanumeric);
    }
}

/// The rest of a line ends at a newline inside the buffer.
pub proof fn lemma_no_newline_chars_bounds(s: Seq<u8>, pos: int)
    requires
        0 <= pos <= s.len(),
    ensures
        spec_no_newline_chars(s, pos) matches Some((_, end)) ==> pos <= end < s.len() && s[end]
            == newline(),
{
    lemma_line_end(s, pos);
}

/// A run of skipped lines ends inside the buffer, behind its start or at it.
pub proof fn lemma_comment_or_empty_bounds(s: Seq<u8>, pos: int)
    requires
        0 <= pos <= s.len(),
    ensures
        pos <= spec_comment_or_empty(s, pos) <= s.len(),
    decreases s.len() - pos,
{
    lemma_skipped_line(s, pos);
    match spec_skipped_line(s, pos) {
        Some(end) => lemma_comment_or_empty_bounds(s, end),
        None => {},
    }
}

/// The bytes of an ASCII literal are its characters.
pub proof fn lemma_ascii_literal(lit: &str)
    requires
        is_ascii_chars(lit@),
    ensures
        bytes_of(lit).len() == lit@.len(),
        forall|i: int| 0 <= i < lit@.len() ==> #[trigger] bytes_of(lit)[i] == lit@[i] as u8,
{
    is_ascii_chars_encode_utf8(lit@);
}

} // verus!
