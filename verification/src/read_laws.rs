//! The law of what is read: every profile that the rules read is one that
//! the grammar can produce, so writing it and parsing the text gives it back.

use crate::body::{
    cost_count, spec_body_alternatives, spec_body_line, spec_call_line, spec_position,
    spec_position_id, spec_position_spec, spec_sub_position_list, split_columns_spec,
    trailing_absolutes,
};
use crate::classes::{lemma_run_end, ByteClass};
use crate::document::{
    lemma_body_line_nl_bounds, lemma_header_line_nl_bounds, lemma_header_lines_bounds,
    lemma_part_data_bounds, spec_body_line_nl, spec_body_lines, spec_callgrind, spec_creator,
    spec_format_spec, spec_format_version, spec_header_line_nl, spec_header_lines,
    spec_part_data, spec_parts,
};
use crate::document_laws::lemma_round_trip;
use crate::header::{
    lemma_inherited_term_bounds, spec_event_specification, spec_header_alternatives,
    spec_header_line, spec_inherited_def, spec_inherited_more, spec_inherited_term,
    spec_names_more,
};
use crate::lexical::{
    bytes_of, lemma_comment_or_empty_bounds, lemma_line_end, lemma_name_bounds,
    lemma_number_bounds, newline, spec_comment_or_empty, spec_name, spec_no_newline_chars,
    spec_number, spec_space0, spec_space1, spec_tag,
};
use crate::model::SubPosition;
use crate::render::{
    body_line_generated, cost_line_generated, file_generated, header_line_generated,
    inherited_term_generated, is_alphanumeric_char, is_identifier, is_line_text,
    is_trimmed_text, part_generated, render_file,
};
use crate::shift::lemma_position_id_shift;
use crate::tokens::{lemma_char_of, lemma_scalar_bytes};
use vstd::prelude::*;
use vstd::utf8::{decode_utf8_encode_utf8, encode_scalar, encode_utf8};

verus! {

/// An identifier that is read is made as identifiers are: of a letter, then
/// letters and digits.
pub proof fn lemma_name_read(s: Seq<u8>, pos: int)
    requires
        0 <= pos <= s.len(),
    ensures
        spec_name(s, pos) matches Some((name, _)) ==> is_identifier(name),
{
    if let Some((name, end)) = spec_name(s, pos) {
        lemma_run_end(s, pos + 1, ByteClass::Alphanumeric);
        let bytes = s.subrange(pos, end);
        assert forall|i: int| 0 <= i < name.len() implies is_alphanumeric_char(
            #[trigger] name[i],
        ) by {
            assert(bytes[i] == s[pos + i]);
            if i > 0 {
                assert(ByteClass::Alphanumeric.holds(s[pos + i]));
            }
        }
        assert(bytes[0] == s[pos]);
    }
}

/// What the text shows of its bytes: text whose bytes hold no newline holds
/// none, and text that starts with an ASCII character has that character as
/// its first byte.
pub proof fn lemma_bytes_show_text(text: Seq<char>)
    ensures
        (forall|i: int| 0 <= i < encode_utf8(text).len() ==> #[trigger] encode_utf8(text)[i]
            != newline()) ==> is_line_text(text),
        text.len() > 0 && text[0] as u32 <= 0x7F ==> encode_utf8(text).len() > 0 && encode_utf8(
            text,
        )[0] == text[0] as u32,
    decreases text.len(),
{
    if text.len() > 0 {
        let first = encode_scalar(text[0] as u32);
        let rest = encode_utf8(text.drop_first());
        lemma_scalar_bytes(text[0] as u32);
        lemma_bytes_show_text(text.drop_first());
        assert(encode_utf8(text) == first + rest);
        assert(encode_utf8(text)[0] == first[0]);
        if forall|i: int| 0 <= i < encode_utf8(text).len() ==> #[trigger] encode_utf8(text)[i]
            != newline() {
            assert forall|i: int| 0 <= i < rest.len() implies #[trigger] rest[i] != newline() by {
                assert(encode_utf8(text)[first.len() + i] == rest[i]);
            }
            assert(is_line_text(text.drop_first()));
            assert forall|i: int| 0 <= i < text.len() implies #[trigger] text[i] != '\n' by {
                if i == 0 {
                    if text[0] == '\n' {
                        assert(encode_utf8(text)[0] == newline());
                    }
                } else {
                    assert(text[i] == text.drop_first()[i - 1]);
                }
            }
        }
    }
}

/// The rest of a line that is read is text that fits in a line, and its
/// bytes are the bytes that were read. Behind optional space it does not
/// start with space.
pub proof fn lemma_text_read(s: Seq<u8>, pos: int)
    requires
        0 <= pos <= s.len(),
    ensures
        spec_no_newline_chars(s, pos) matches Some((text, end)) ==> {
            &&& is_line_text(text)
            &&& pos <= end < s.len()
            &&& s[end] == newline()
            &&& encode_utf8(text) == s.subrange(pos, end)
            &&& !crate::classes::is_space_byte(s[pos]) ==> is_trimmed_text(text)
        },
{
    if let Some((text, end)) = spec_no_newline_chars(s, pos) {
        lemma_line_end(s, pos);
        let bytes = s.subrange(pos, end);
        decode_utf8_encode_utf8(bytes);
        lemma_bytes_show_text(text);
        assert forall|i: int| 0 <= i < bytes.len() implies #[trigger] bytes[i] != newline() by {
            assert(bytes[i] == s[pos + i]);
        }
        if text.len() > 0 {
            lemma_char_of(text[0], ' ');
            lemma_char_of(text[0], '\t');
            if text[0] as u32 <= 0x7F {
                assert(bytes[0] == s[pos]);
            }
        }
    }
}

/// A term of an inherited event that is read names its event by an
/// identifier.
pub proof fn lemma_inherited_term_read(s: Seq<u8>, pos: int)
    requires
        0 <= pos <= s.len(),
    ensures
        spec_inherited_term(s, pos) matches Some((term, _)) ==> inherited_term_generated(term),
{
    lemma_name_read(s, pos);
    lemma_number_bounds(s, pos);
    if let Some((_, p)) = spec_number(s, pos) {
        lemma_run_end(s, p, ByteClass::Space);
        let q = spec_space0(s, p);
        let r = match spec_tag(s, q, bytes_of("*")) {
            Some(t) => {
                lemma_run_end(s, t, ByteClass::Space);
                spec_space0(s, t)
            },
            None => q,
        };
        lemma_name_read(s, r);
    }
}

/// The terms behind the first that are read name their events by
/// identifiers.
pub proof fn lemma_inherited_more_read(s: Seq<u8>, pos: int)
    requires
        0 <= pos <= s.len(),
    ensures
        forall|i: int|
            0 <= i < spec_inherited_more(s, pos).0.len() ==> inherited_term_generated(
                #[trigger] spec_inherited_more(s, pos).0[i],
            ),
    decreases s.len() - pos,
{
    lemma_run_end(s, pos, ByteClass::Space);
    if let Some(p) = spec_tag(s, spec_space0(s, pos), bytes_of("+")) {
        lemma_run_end(s, p, ByteClass::Space);
        let q = spec_space0(s, p);
        lemma_inherited_term_bounds(s, q);
        lemma_inherited_term_read(s, q);
        if let Some((term, end)) = spec_inherited_term(s, q) {
            lemma_inherited_more_read(s, end);
            let rest = spec_inherited_more(s, end).0;
            assert forall|i: int|
                0 <= i < (seq![term] + rest).len() implies inherited_term_generated(
                #[trigger] (seq![term] + rest)[i],
            ) by {
                if i > 0 {
                    assert((seq![term] + rest)[i] == rest[i - 1]);
                }
            }
        }
    }
}

/// The identifiers behind the first that are read are identifiers.
pub proof fn lemma_names_more_read(s: Seq<u8>, pos: int)
    requires
        0 <= pos <= s.len(),
    ensures
        forall|i: int|
            0 <= i < spec_names_more(s, pos).0.len() ==> is_identifier(
                #[trigger] spec_names_more(s, pos).0[i],
            ),
    decreases s.len() - pos,
{
    lemma_run_end(s, pos, ByteClass::Space);
    if let Some(p) = spec_space1(s, pos) {
        lemma_name_bounds(s, p);
        lemma_name_read(s, p);
        if let Some((name, end)) = spec_name(s, p) {
            lemma_names_more_read(s, end);
            let rest = spec_names_more(s, end).0;
            assert forall|i: int| 0 <= i < (seq![name] + rest).len() implies is_identifier(
                #[trigger] (seq![name] + rest)[i],
            ) by {
                if i > 0 {
                    assert((seq![name] + rest)[i] == rest[i - 1]);
                }
            }
        }
    }
}

/// An `event:` line that is read is one that the grammar can produce.
proof fn lemma_event_specification_read(s: Seq<u8>, pos: int)
    requires
        0 <= pos <= s.len(),
    ensures
        spec_event_specification(s, pos) matches Some((line, _)) ==> header_line_generated(line),
{
    if let Some(p) = spec_tag(s, pos, bytes_of("event:")) {
        lemma_run_end(s, p, ByteClass::Space);
        lemma_name_bounds(s, spec_space0(s, p));
        lemma_name_read(s, spec_space0(s, p));
        if let Some((_, q)) = spec_name(s, spec_space0(s, p)) {
            lemma_run_end(s, q, ByteClass::Space);
            let q = spec_space0(s, q);
            let r = match spec_inherited_def(s, q) {
                Some((terms, r)) => {
                    let t = spec_tag(s, q, bytes_of("="))->0;
                    lemma_run_end(s, t, ByteClass::Space);
                    let at = spec_space0(s, t);
                    lemma_inherited_term_bounds(s, at);
                    lemma_inherited_term_read(s, at);
                    let first = spec_inherited_term(s, at)->0;
                    lemma_inherited_more_read(s, first.1);
                    crate::header::lemma_inherited_more_bounds(s, first.1);
                    let rest = spec_inherited_more(s, first.1).0;
                    assert forall|i: int| 0 <= i < terms.len() implies inherited_term_generated(
                        #[trigger] terms[i],
                    ) by {
                        if i > 0 {
                            assert((seq![first.0] + rest)[i] == rest[i - 1]);
                        }
                    }
                    r
                },
                None => q,
            };
            if let Some(t) = spec_tag(s, r, bytes_of(":")) {
                lemma_run_end(s, t, ByteClass::Space);
                lemma_text_read(s, spec_space0(s, t));
            }
        }
    }
}

/// A header line that is read is one that the grammar can produce.
pub proof fn lemma_header_line_read(s: Seq<u8>, pos: int)
    requires
        0 <= pos <= s.len(),
    ensures
        spec_header_line(s, pos) matches Some((line, _)) ==> header_line_generated(line),
{
    reveal(spec_header_line);
    reveal(spec_header_alternatives);
    lemma_comment_or_empty_bounds(s, pos);
    let at = spec_comment_or_empty(s, pos);
    if let Some(p) = spec_tag(s, at, bytes_of("cmd:")) {
        lemma_run_end(s, p, ByteClass::Space);
        lemma_text_read(s, spec_space0(s, p));
    }
    if let Some(p) = spec_tag(s, at, bytes_of("desc:")) {
        lemma_run_end(s, p, ByteClass::Space);
        lemma_name_bounds(s, spec_space0(s, p));
        lemma_name_read(s, spec_space0(s, p));
        if let Some((_, q)) = spec_name(s, spec_space0(s, p)) {
            lemma_run_end(s, q, ByteClass::Space);
            if let Some(r) = spec_tag(s, spec_space0(s, q), bytes_of(":")) {
                lemma_text_read(s, r);
            }
        }
    }
    lemma_event_specification_read(s, at);
    if let Some(p) = spec_tag(s, at, bytes_of("events:")) {
        lemma_run_end(s, p, ByteClass::Space);
        lemma_name_bounds(s, spec_space0(s, p));
        lemma_name_read(s, spec_space0(s, p));
        if let Some((name, q)) = spec_name(s, spec_space0(s, p)) {
            lemma_names_more_read(s, q);
            let rest = spec_names_more(s, q).0;
            assert forall|i: int| 0 <= i < (seq![name] + rest).len() implies is_identifier(
                #[trigger] (seq![name] + rest)[i],
            ) by {
                if i > 0 {
                    assert((seq![name] + rest)[i] == rest[i - 1]);
                }
            }
        }
    }
    if let Some(p) = spec_tag(s, at, bytes_of("positions:")) {
        lemma_run_end(s, p, ByteClass::Space);
        let q = spec_space0(s, p);
        lemma_run_end(s, q, ByteClass::Space);
    }
}

/// The columns of a line, told apart, are a cost line that the grammar can
/// produce.
pub proof fn lemma_split_read(items: Seq<SubPosition>)
    requires
        items.len() > 0,
    ensures
        cost_line_generated(split_columns_spec(items)),
{
    let k = cost_count(items);
    let n = items.len() as int;
    let kept = items.take(n - k);
    if kept.len() > 1 {
        lemma_trailing_absolutes_cut(items, k);
    }
}

/// Behind fewer columns than end in plain integers, cut from the end, a
/// plain integer stands.
proof fn lemma_trailing_absolutes_cut(items: Seq<SubPosition>, k: int)
    requires
        0 <= k < items.len(),
        trailing_absolutes(items) == k,
    ensures
        !(items.take(items.len() - k).last() is Absolute),
    decreases k,
{
    if k > 0 {
        assert(items.drop_last().take(items.len() - k) =~= items.take(items.len() - k));
        lemma_trailing_absolutes_cut(items.drop_last(), k - 1);
    } else {
        assert(items.take(items.len() as int) =~= items);
    }
}

/// A position line that is read is one that the grammar can produce.
proof fn lemma_position_spec_read(s: Seq<u8>, pos: int)
    requires
        0 <= pos <= s.len(),
    ensures
        spec_position_spec(s, pos) matches Some((line, _)) ==> body_line_generated(line),
{
    if let Some((_, p)) = spec_position(s, pos) {
        if let Some(q) = spec_tag(s, p, bytes_of("=")) {
            lemma_run_end(s, q, ByteClass::Space);
            let at = spec_space0(s, q);
            let after = match spec_position_id(s, at) {
                Some((_, after)) => {
                    let open = spec_tag(s, at, bytes_of("("))->0;
                    lemma_number_bounds(s, open);
                    after
                },
                None => at,
            };
            lemma_run_end(s, after, ByteClass::Space);
            let start = spec_space0(s, after);
            lemma_text_read(s, start);
            if let Some((text, end)) = spec_no_newline_chars(s, start) {
                if spec_position_id(s, at) is None {
                    let bytes = encode_utf8(text);
                    assert forall|i: int| 0 <= i < bytes.len() implies s[at + i]
                        == #[trigger] bytes[i] by {
                        assert(s.subrange(at, end)[i] == s[at + i]);
                    }
                    lemma_position_id_shift(s, at, bytes);
                }
            }
        }
    }
}

/// A body line that is read is one that the grammar can produce.
pub proof fn lemma_body_line_read(s: Seq<u8>, pos: int)
    requires
        0 <= pos <= s.len(),
    ensures
        spec_body_line(s, pos) matches Some((line, _)) ==> body_line_generated(line),
{
    reveal(spec_body_line);
    reveal(spec_body_alternatives);
    lemma_comment_or_empty_bounds(s, pos);
    let at = spec_comment_or_empty(s, pos);
    lemma_position_spec_read(s, at);
    if let Some(((_, _), p)) = spec_call_line(s, at) {
        if let Some(q) = spec_tag(s, p, bytes_of("\n")) {
            if let Some((items, _)) = spec_sub_position_list(s, q) {
                lemma_split_read(items);
            }
        }
    }
    if let Some((items, _)) = spec_sub_position_list(s, at) {
        lemma_split_read(items);
    }
}

/// The header lines that are read are lines that the grammar can produce.
proof fn lemma_header_lines_read(s: Seq<u8>, pos: int)
    requires
        0 <= pos <= s.len(),
    ensures
        forall|i: int|
            0 <= i < spec_header_lines(s, pos).0.len() ==> header_line_generated(
                #[trigger] spec_header_lines(s, pos).0[i],
            ),
    decreases s.len() - pos,
{
    lemma_header_line_nl_bounds(s, pos);
    lemma_header_line_read(s, pos);
    if let Some((line, end)) = spec_header_line_nl(s, pos) {
        lemma_header_lines_read(s, end);
        let rest = spec_header_lines(s, end).0;
        assert forall|i: int| 0 <= i < (seq![line] + rest).len() implies header_line_generated(
            #[trigger] (seq![line] + rest)[i],
        ) by {
            if i > 0 {
                assert((seq![line] + rest)[i] == rest[i - 1]);
            }
        }
    }
}

/// The body lines that are read are lines that the grammar can produce.
proof fn lemma_body_lines_read(s: Seq<u8>, pos: int)
    requires
        0 <= pos <= s.len(),
    ensures
        forall|i: int|
            0 <= i < spec_body_lines(s, pos).0.len() ==> body_line_generated(
                #[trigger] spec_body_lines(s, pos).0[i],
            ),
    decreases s.len() - pos,
{
    lemma_body_line_nl_bounds(s, pos);
    lemma_body_line_read(s, pos);
    if let Some((line, end)) = spec_body_line_nl(s, pos) {
        lemma_body_lines_read(s, end);
        let rest = spec_body_lines(s, end).0;
        assert forall|i: int| 0 <= i < (seq![line] + rest).len() implies body_line_generated(
            #[trigger] (seq![line] + rest)[i],
        ) by {
            if i > 0 {
                assert((seq![line] + rest)[i] == rest[i - 1]);
            }
        }
    }
}

/// The parts that are read are parts that the grammar can produce.
proof fn lemma_parts_read(s: Seq<u8>, pos: int)
    requires
        0 <= pos <= s.len(),
    ensures
        forall|i: int|
            0 <= i < spec_parts(s, pos).0.len() ==> part_generated(
                #[trigger] spec_parts(s, pos).0[i],
            ),
    decreases s.len() - pos,
{
    lemma_part_data_bounds(s, pos);
    lemma_header_lines_bounds(s, pos);
    lemma_header_lines_read(s, pos);
    lemma_body_lines_read(s, spec_header_lines(s, pos).1);
    if let Some((part, end)) = spec_part_data(s, pos) {
        lemma_parts_read(s, end);
        let rest = spec_parts(s, end).0;
        assert forall|i: int| 0 <= i < (seq![part] + rest).len() implies part_generated(
            #[trigger] (seq![part] + rest)[i],
        ) by {
            if i > 0 {
                assert((seq![part] + rest)[i] == rest[i - 1]);
            }
        }
    }
}

/// Every profile that is read is one that the grammar can produce.
pub proof fn lemma_profile_read(s: Seq<u8>)
    ensures
        file_generated(spec_callgrind(s).0),
{
    let p = match spec_format_spec(s, 0) {
        Some(p) => p,
        None => 0,
    };
    let q = match spec_format_version(s, p) {
        Some((_, q)) => {
            let before = spec_tag(s, p, bytes_of("version:"))->0;
            lemma_run_end(s, before, ByteClass::Space);
            lemma_number_bounds(s, spec_space0(s, before));
            q
        },
        None => p,
    };
    let r = match spec_creator(s, q) {
        Some((_, r)) => {
            lemma_text_read(s, spec_tag(s, q, bytes_of("creator:"))->0);
            r
        },
        None => q,
    };
    lemma_parts_read(s, r);
}

/// Writing a profile that was read, and parsing what was written, gives the
/// same profile, and takes all of the text.
pub proof fn lemma_read_profile_parses_back(s: Seq<u8>)
    ensures
        spec_callgrind(render_file(spec_callgrind(s).0)) == (
            spec_callgrind(s).0,
            render_file(spec_callgrind(s).0).len() as int,
        ),
{
    lemma_profile_read(s);
    lemma_round_trip(spec_callgrind(s).0);
}

} // verus!
