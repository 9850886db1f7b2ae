//! Laws of the lexical rules: what they make of text that was written from a
//! value.

use crate::classes::{
    is_alpha_byte, is_alphanumeric_byte, is_digit_byte, is_hex_digit_byte, is_space_byte,
    lemma_run_end_unique, ByteClass,
};
use crate::lexical::{
    ascii_text, bytes_of, digit_value, digits_value, lemma_ascii_literal, line_end, newline,
    spec_comment_or_empty, spec_name, spec_no_newline_chars, spec_number, spec_skipped_line,
    spec_space0, spec_space1, spec_tag, tag_at,
};
use crate::render::{
    decimal_digits, hex_digit, hex_digits, is_identifier, is_line_text, is_trimmed_text, sp,
};
use vstd::prelude::*;
use vstd::utf8::{
    char_u32_cast, encode_scalar, encode_utf8, encode_utf8_decode_utf8, encode_utf8_valid_utf8,
    is_ascii_chars, is_ascii_chars_encode_utf8,
};

verus! {

/// Text stands at `pos` exactly where its two halves stand one behind the
/// other.
pub proof fn lemma_tag_at_concat(s: Seq<u8>, pos: int, a: Seq<u8>, b: Seq<u8>)
    ensures
        tag_at(s, pos, a + b) <==> tag_at(s, pos, a) && tag_at(s, pos + a.len(), b),
{
    if tag_at(s, pos, a + b) {
        assert forall|i: int| 0 <= i < a.len() implies s[pos + i] == #[trigger] a[i] by {
            assert((a + b)[i] == a[i]);
        }
        assert forall|i: int| 0 <= i < b.len() implies s[pos + a.len() + i] == #[trigger] b[i] by {
            assert((a + b)[a.len() + i] == b[i]);
        }
    }
    if tag_at(s, pos, a) && tag_at(s, pos + a.len(), b) {
        assert forall|i: int| 0 <= i < (a + b).len() implies s[pos + i] == #[trigger] (a + b)[i] by {
            if i < a.len() {
                assert((a + b)[i] == a[i]);
            } else {
                assert((a + b)[i] == b[i - a.len()]);
                assert(s[pos + a.len() + (i - a.len())] == b[i - a.len()]);
            }
        }
    }
}

/// The bytes at which text stands are the text.
pub proof fn lemma_tag_at_subrange(s: Seq<u8>, pos: int, text: Seq<u8>)
    requires
        tag_at(s, pos, text),
    ensures
        s.subrange(pos, pos + text.len()) == text,
{
    assert(s.subrange(pos, pos + text.len()) =~= text);
}

/// The value of digits with one more digit behind them.
pub proof fn lemma_digits_value_push(digits: Seq<u8>, last: u8, radix: nat)
    ensures
        digits_value(digits.push(last), radix) == digits_value(digits, radix) * radix
            + digit_value(last),
{
    assert(digits.push(last).drop_last() =~= digits);
}

/// The decimal text of a number is made of decimal digits, starts with `0`
/// for zero alone, and denotes the number.
pub proof fn lemma_decimal_digits(n: nat)
    ensures
        decimal_digits(n).len() >= 1,
        forall|i: int|
            0 <= i < decimal_digits(n).len() ==> is_digit_byte(#[trigger] decimal_digits(n)[i]),
        n > 0 ==> decimal_digits(n)[0] != 0x30,
        digits_value(decimal_digits(n), 10) == n,
    decreases n,
{
    if n < 10 {
        lemma_digits_value_push(Seq::empty(), (0x30 + n) as u8, 10);
        assert(decimal_digits(n) =~= Seq::<u8>::empty().push((0x30 + n) as u8));
    } else {
        lemma_decimal_digits(n / 10);
        lemma_digits_value_push(decimal_digits(n / 10), (0x30 + n % 10) as u8, 10);
    }
}

/// The hexadecimal text of a number is made of hexadecimal digits and
/// denotes the number.
pub proof fn lemma_hex_digits(n: nat, upper: bool)
    ensures
        hex_digits(n, upper).len() >= 1,
        forall|i: int|
            0 <= i < hex_digits(n, upper).len() ==> is_hex_digit_byte(
                #[trigger] hex_digits(n, upper)[i],
            ),
        digits_value(hex_digits(n, upper), 16) == n,
    decreases n,
{
    if n < 16 {
        lemma_digits_value_push(Seq::empty(), hex_digit(n, upper), 16);
        assert(hex_digits(n, upper) =~= Seq::<u8>::empty().push(hex_digit(n, upper)));
    } else {
        lemma_hex_digits(n / 16, upper);
        lemma_digits_value_push(hex_digits(n / 16, upper), hex_digit(n % 16, upper), 16);
    }
}

/// The bytes of the literal that starts a hexadecimal integer.
pub proof fn lemma_hex_prefix()
    ensures
        bytes_of("0x") == seq![0x30u8, 0x78u8],
{
    reveal_strlit("0x");
    lemma_ascii_literal("0x");
    assert(bytes_of("0x") =~= seq![0x30u8, 0x78u8]);
}

/// Where the decimal text of `n` stands, and no letter or digit behind it,
/// an integer is read: it is `n`, and ends where the text ends.
pub proof fn lemma_number_decimal_at(s: Seq<u8>, pos: int, n: u32)
    requires
        tag_at(s, pos, decimal_digits(n as nat)),
        pos + decimal_digits(n as nat).len() < s.len() ==> !is_alphanumeric_byte(
            s[pos + decimal_digits(n as nat).len()],
        ),
    ensures
        spec_number(s, pos) == Some((n, pos + decimal_digits(n as nat).len())),
{
    let text = decimal_digits(n as nat);
    let end = pos + text.len();
    lemma_decimal_digits(n as nat);
    lemma_hex_prefix();
    assert forall|i: int| pos <= i < end implies ByteClass::Digit.holds(#[trigger] s[i]) by {
        assert(s[pos + (i - pos)] == text[i - pos]);
    }
    lemma_run_end_unique(s, pos, ByteClass::Digit, end);
    lemma_tag_at_subrange(s, pos, text);
    if spec_tag(s, pos, bytes_of("0x")) is Some {
        assert(s[pos + 0] == bytes_of("0x")[0]);
        assert(s[pos + 1] == bytes_of("0x")[1]);
        assert(s[pos + 0] == text[0]);
        assert(n == 0);
        assert(false);
    }
}

/// Where `0x` and the hexadecimal text of `n` stand, and no letter or digit
/// behind them, an integer is read: it is `n`, and ends where the text ends.
pub proof fn lemma_number_hex_at(s: Seq<u8>, pos: int, n: u32, upper: bool)
    requires
        tag_at(s, pos, bytes_of("0x") + hex_digits(n as nat, upper)),
        pos + 2 + hex_digits(n as nat, upper).len() < s.len() ==> !is_alphanumeric_byte(
            s[pos + 2 + hex_digits(n as nat, upper).len()],
        ),
    ensures
        spec_number(s, pos) == Some((n, pos + 2 + hex_digits(n as nat, upper).len())),
{
    let text = hex_digits(n as nat, upper);
    let end = pos + 2 + text.len();
    lemma_hex_digits(n as nat, upper);
    lemma_hex_prefix();
    lemma_tag_at_concat(s, pos, bytes_of("0x"), text);
    assert forall|i: int| pos + 2 <= i < end implies ByteClass::HexDigit.holds(#[trigger] s[i]) by {
        assert(s[pos + 2 + (i - pos - 2)] == text[i - pos - 2]);
    }
    lemma_run_end_unique(s, pos + 2, ByteClass::HexDigit, end);
    lemma_tag_at_subrange(s, pos + 2, text);
}

/// Parsing the decimal text of an integer gives that integer and takes all of
/// the text.
pub proof fn lemma_number_parses_decimal(n: u32)
    ensures
        spec_number(decimal_digits(n as nat), 0) == Some(
            (n, decimal_digits(n as nat).len() as int),
        ),
{
    lemma_number_decimal_at(decimal_digits(n as nat), 0, n);
}

/// Parsing `0x` and the hexadecimal text of an integer, in either case, gives
/// that integer and takes all of the text.
pub proof fn lemma_number_parses_hex(n: u32, upper: bool)
    ensures
        spec_number(bytes_of("0x") + hex_digits(n as nat, upper), 0) == Some(
            (n, (bytes_of("0x") + hex_digits(n as nat, upper)).len() as int),
        ),
{
    lemma_hex_prefix();
    lemma_number_hex_at(bytes_of("0x") + hex_digits(n as nat, upper), 0, n, upper);
}

/// A literal does not match where one of its bytes does not stand.
pub proof fn lemma_tag_mismatch(s: Seq<u8>, pos: int, lit: Seq<u8>, i: int)
    requires
        0 <= i < lit.len(),
        pos + i >= s.len() || s[pos + i] != lit[i],
    ensures
        spec_tag(s, pos, lit) is None,
{
}

/// Where no space stands, optional space takes nothing and required space
/// does not match.
pub proof fn lemma_no_space_at(s: Seq<u8>, pos: int)
    requires
        0 <= pos <= s.len(),
        pos < s.len() ==> !is_space_byte(s[pos]),
    ensures
        spec_space0(s, pos) == pos,
        spec_space1(s, pos) is None,
{
    lemma_run_end_unique(s, pos, ByteClass::Space, pos);
}

/// Where one space stands and no second one behind it, space ends behind
/// it.
pub proof fn lemma_one_space_at(s: Seq<u8>, pos: int)
    requires
        tag_at(s, pos, sp()),
        pos + 1 < s.len() ==> !is_space_byte(s[pos + 1]),
    ensures
        spec_space0(s, pos) == pos + 1,
        spec_space1(s, pos) == Some(pos + 1),
{
    assert(s[pos + 0] == sp()[0]);
    lemma_run_end_unique(s, pos, ByteClass::Space, pos + 1);
}

/// The bytes of an identifier are its characters: a letter, then letters and
/// digits.
pub proof fn lemma_identifier_bytes(name: Seq<char>)
    requires
        is_identifier(name),
    ensures
        encode_utf8(name).len() == name.len(),
        is_alpha_byte(encode_utf8(name)[0]),
        forall|i: int|
            0 <= i < name.len() ==> is_alphanumeric_byte(#[trigger] encode_utf8(name)[i]),
        ascii_text(encode_utf8(name)) == name,
{
    assert(is_ascii_chars(name)) by {
        assert forall|i: int| 0 <= i < name.len() implies '\0' <= #[trigger] name[i] <= '\u{7f}' by {
            assert(crate::render::is_alphanumeric_char(name[i]));
        }
    }
    is_ascii_chars_encode_utf8(name);
    let bytes = encode_utf8(name);
    assert forall|i: int| 0 <= i < name.len() implies is_alphanumeric_byte(#[trigger] bytes[i]) by {
        assert(crate::render::is_alphanumeric_char(name[i]));
        assert(name[i] as u8 == bytes[i]);
    }
    assert(name[0] as u8 == bytes[0]);
    assert forall|i: int| 0 <= i < name.len() implies ascii_text(bytes)[i] == name[i] by {
        assert(crate::render::is_alphanumeric_char(name[i]));
        assert(name[i] as u8 == bytes[i]);
    }
    assert(ascii_text(bytes) =~= name);
}

/// Where an identifier stands, and no letter or digit behind it, it is
/// read, and ends where its text ends.
pub proof fn lemma_name_at(s: Seq<u8>, pos: int, name: Seq<char>)
    requires
        is_identifier(name),
        tag_at(s, pos, encode_utf8(name)),
        pos + encode_utf8(name).len() < s.len() ==> !is_alphanumeric_byte(
            s[pos + encode_utf8(name).len()],
        ),
    ensures
        spec_name(s, pos) == Some((name, pos + encode_utf8(name).len())),
        is_alpha_byte(s[pos]),
        encode_utf8(name).len() > 0,
{
    let bytes = encode_utf8(name);
    let end = pos + bytes.len();
    lemma_identifier_bytes(name);
    assert(s[pos + 0] == bytes[0]);
    assert forall|i: int| pos + 1 <= i < end implies ByteClass::Alphanumeric.holds(
        #[trigger] s[i],
    ) by {
        assert(s[pos + (i - pos)] == bytes[i - pos]);
    }
    lemma_run_end_unique(s, pos + 1, ByteClass::Alphanumeric, end);
    lemma_tag_at_subrange(s, pos, bytes);
}

/// A line ends at the first newline.
pub proof fn lemma_line_end_at(s: Seq<u8>, pos: int, end: int)
    requires
        0 <= pos <= end < s.len(),
        s[end] == newline(),
        forall|i: int| pos <= i < end ==> #[trigger] s[i] != newline(),
    ensures
        line_end(s, pos) == Some(end),
    decreases end - pos,
{
    if pos < end {
        lemma_line_end_at(s, pos + 1, end);
    }
}

/// The bytes of one character: the character itself where it is ASCII, and
/// bytes above all of ASCII where it is not.
pub proof fn lemma_scalar_bytes(c: u32)
    ensures
        encode_scalar(c).len() >= 1,
        c <= 0x7F ==> encode_scalar(c).len() == 1 && encode_scalar(c)[0] == c,
        c > 0x7F ==> forall|i: int|
            0 <= i < encode_scalar(c).len() ==> #[trigger] encode_scalar(c)[i] >= 0x80,
{
    if c <= 0x7F {
        assert((c & 0x7F) as u8 == c) by (bit_vector)
            requires
                c <= 0x7F,
        ;
    } else {
        let a = ((c >> 6) & 0x1F) as u8;
        assert(0xC0u8 | a >= 0x80u8) by (bit_vector);
        let b = ((c >> 12) & 0x0F) as u8;
        assert(0xE0u8 | b >= 0x80u8) by (bit_vector);
        let d = ((c >> 18) & 0x7) as u8;
        assert(0xF0u8 | d >= 0x80u8) by (bit_vector);
        let l = (c & 0x3F) as u8;
        assert(0x80u8 | l >= 0x80u8) by (bit_vector);
        let m = ((c >> 6) & 0x3F) as u8;
        assert(0x80u8 | m >= 0x80u8) by (bit_vector);
        let n = ((c >> 12) & 0x3F) as u8;
        assert(0x80u8 | n >= 0x80u8) by (bit_vector);
    }
}

/// Characters with the same number are the same character.
pub proof fn lemma_char_of(a: char, b: char)
    ensures
        a as u32 == b as u32 ==> a == b,
{
    char_u32_cast(a, a as u32);
    char_u32_cast(b, b as u32);
}

/// What the bytes of text show of the text: they hold a newline only where
/// the text does, and start with an ASCII byte only where the text starts
/// with that character.
pub proof fn lemma_text_bytes(text: Seq<char>)
    ensures
        is_line_text(text) ==> forall|i: int|
            0 <= i < encode_utf8(text).len() ==> #[trigger] encode_utf8(text)[i] != newline(),
        text.len() == 0 ==> encode_utf8(text).len() == 0,
        text.len() > 0 ==> encode_utf8(text).len() > 0 && (encode_utf8(text)[0] < 0x80
            ==> text[0] as u32 == encode_utf8(text)[0]),
    decreases text.len(),
{
    if text.len() > 0 {
        let first = encode_scalar(text[0] as u32);
        let rest = encode_utf8(text.drop_first());
        lemma_scalar_bytes(text[0] as u32);
        lemma_text_bytes(text.drop_first());
        assert(encode_utf8(text) == first + rest);
        assert(encode_utf8(text)[0] == first[0]);
        if is_line_text(text) {
            assert(text[0] != '\n');
            lemma_char_of(text[0], '\n');
            assert forall|i: int| 0 <= i < text.drop_first().len() implies #[trigger] text.drop_first()[i]
                != '\n' by {
                assert(text.drop_first()[i] == text[i + 1]);
            }
            assert forall|i: int| 0 <= i < encode_utf8(text).len() implies #[trigger] encode_utf8(
                text,
            )[i] != newline() by {
                if i < first.len() {
                    assert(encode_utf8(text)[i] == first[i]);
                } else {
                    assert(encode_utf8(text)[i] == rest[i - first.len()]);
                }
            }
        }
    }
}

/// Where text that fits in a line stands, and a newline behind it, the rest
/// of the line is that text.
pub proof fn lemma_text_at(s: Seq<u8>, pos: int, text: Seq<char>)
    requires
        is_line_text(text),
        tag_at(s, pos, encode_utf8(text)),
        pos + encode_utf8(text).len() < s.len(),
        s[pos + encode_utf8(text).len()] == newline(),
    ensures
        spec_no_newline_chars(s, pos) == Some((text, pos + encode_utf8(text).len())),
{
    let bytes = encode_utf8(text);
    let end = pos + bytes.len();
    lemma_text_bytes(text);
    assert forall|i: int| pos <= i < end implies #[trigger] s[i] != newline() by {
        assert(s[pos + (i - pos)] == bytes[i - pos]);
    }
    lemma_line_end_at(s, pos, end);
    lemma_tag_at_subrange(s, pos, bytes);
    encode_utf8_valid_utf8(text);
    encode_utf8_decode_utf8(text);
}

/// Where text that does not start with space stands before a newline, no
/// space stands at its start, be the text empty or not.
pub proof fn lemma_trimmed_text_at(s: Seq<u8>, pos: int, text: Seq<char>)
    requires
        is_trimmed_text(text),
        tag_at(s, pos, encode_utf8(text)),
        pos + encode_utf8(text).len() < s.len(),
        s[pos + encode_utf8(text).len()] == newline(),
    ensures
        !is_space_byte(s[pos]),
        text.len() > 0 && text[0] != '(' ==> s[pos] != 0x28,
        text.len() > 0 ==> s[pos] != newline(),
{
    lemma_text_bytes(text);
    if text.len() > 0 {
        assert(s[pos + 0] == encode_utf8(text)[0]);
        lemma_char_of(text[0], ' ');
        lemma_char_of(text[0], '\t');
        lemma_char_of(text[0], '(');
        lemma_char_of(text[0], '\n');
    }
}

/// Where neither a blank line nor a comment starts, no line is skipped.
pub proof fn lemma_not_skipped(s: Seq<u8>, pos: int)
    requires
        0 <= pos <= s.len(),
        pos < s.len() ==> !is_space_byte(s[pos]) && s[pos] != newline() && s[pos] != 0x23,
    ensures
        spec_skipped_line(s, pos) is None,
        spec_comment_or_empty(s, pos) == pos,
{
    lemma_no_space_at(s, pos);
}

} // verus!
