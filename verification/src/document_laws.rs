//! The law of the written profile: parsing what was written from a profile
//! gives that profile back.

use crate::body::spec_body_line;
use crate::body_laws::{
    body_start, lemma_body_line_at, lemma_body_stops, lemma_header_stops, lemma_not_number,
    lemma_not_position,
};
use crate::document::{
    spec_body_line_nl, spec_body_lines, spec_callgrind, spec_creator, spec_format_spec,
    spec_format_version, spec_header_lines, spec_part_data, spec_parts,
};
use crate::header::{spec_header_alternatives, spec_header_line};
use crate::header_laws::{header_start, lemma_header_line_at};
use crate::lexical::{bytes_of, newline, spec_comment_or_empty, tag_at};
use crate::classes::{is_digit_byte, is_space_byte};
use crate::literals::{lemma_body_literals, lemma_document_literals, lemma_header_literals};
use crate::tokens::lemma_not_skipped;
use crate::model::{BodyLineView, CallgrindEntryView, CallgrindFileView, HeaderLineView};
use crate::render::{
    body_line_generated, file_generated, header_line_generated, is_line_text, part_generated,
    render_body_line, render_body_lines, render_creator, render_file, render_header_line,
    render_header_lines, render_number, render_part, render_parts, render_version, sp,
};
use crate::tokens::{
    lemma_decimal_digits, lemma_number_decimal_at, lemma_one_space_at, lemma_tag_at_concat,
    lemma_tag_mismatch, lemma_text_at,
};
use vstd::prelude::*;
use vstd::utf8::encode_utf8;

verus! {

/// The bytes at which a line of a profile can start: those of blank and
/// comment lines, of sub-positions, and the first letters of the keywords.
pub open spec fn can_start_line(b: u8) -> bool {
    ||| is_space_byte(b)
    ||| b == newline()
    ||| b == '#' as u8
    ||| is_digit_byte(b)
    ||| b == '+' as u8
    ||| b == '-' as u8
    ||| b == '*' as u8
    ||| b == 'c' as u8
    ||| b == 'd' as u8
    ||| b == 'e' as u8
    ||| b == 'f' as u8
    ||| b == 'j' as u8
    ||| b == 'o' as u8
    ||| b == 'p' as u8
    ||| b == 't' as u8
    ||| b == 'v' as u8
}

/// Where nothing more of a profile can be read: no header line, no body
/// line, none of the lines before the first part, and no line to skip.
pub open spec fn profile_stops(s: Seq<u8>, pos: int) -> bool {
    &&& spec_header_line(s, pos) is None
    &&& spec_body_line(s, pos) is None
    &&& spec_format_spec(s, pos) is None
    &&& spec_format_version(s, pos) is None
    &&& spec_creator(s, pos) is None
    &&& spec_comment_or_empty(s, pos) == pos
}

/// Nothing more of a profile is read at the end of the buffer, nor at a byte
/// at which no line can start.
#[verifier::rlimit(40)]
pub proof fn lemma_profile_stops(s: Seq<u8>, pos: int)
    requires
        0 <= pos <= s.len(),
        pos < s.len() ==> !can_start_line(s[pos]),
    ensures
        profile_stops(s, pos),
{
    reveal(spec_header_line);
    reveal(spec_body_line);
    reveal(spec_header_alternatives);
    lemma_header_literals();
    lemma_not_skipped(s, pos);
    lemma_tag_mismatch(s, pos, bytes_of("cmd:"), 0);
    lemma_tag_mismatch(s, pos, bytes_of("pid"), 0);
    lemma_tag_mismatch(s, pos, bytes_of("thread"), 0);
    lemma_tag_mismatch(s, pos, bytes_of("part"), 0);
    lemma_tag_mismatch(s, pos, bytes_of("desc:"), 0);
    lemma_tag_mismatch(s, pos, bytes_of("event:"), 0);
    lemma_tag_mismatch(s, pos, bytes_of("events:"), 0);
    lemma_tag_mismatch(s, pos, bytes_of("positions:"), 0);
    lemma_garbage_is_no_body_line(s, pos);
    lemma_document_literals();
    lemma_tag_mismatch(s, pos, bytes_of("creator:"), 0);
    lemma_tag_mismatch(s, pos, bytes_of("version:"), 0);
    lemma_tag_mismatch(s, pos, bytes_of("# callgrind format\n"), 0);
}

/// No alternative of the body rule matches at the end of the buffer, nor at
/// a byte at which no line can start.
#[verifier::rlimit(40)]
proof fn lemma_garbage_is_no_body_line(s: Seq<u8>, pos: int)
    requires
        0 <= pos <= s.len(),
        pos < s.len() ==> !can_start_line(s[pos]),
    ensures
        crate::body::spec_body_alternatives(s, pos) is None,
{
    reveal(crate::body::spec_body_alternatives);
    lemma_body_literals();
    lemma_not_position(s, pos);
    lemma_tag_mismatch(s, pos, bytes_of("calls="), 0);
    lemma_tag_mismatch(s, pos, bytes_of("jump="), 0);
    lemma_tag_mismatch(s, pos, bytes_of("jcnd="), 0);
    lemma_not_number(s, pos);
    lemma_tag_mismatch(s, pos, bytes_of("+"), 0);
    lemma_tag_mismatch(s, pos, bytes_of("-"), 0);
    lemma_tag_mismatch(s, pos, bytes_of("*"), 0);
}

/// Where header lines that the grammar can produce stand, each with its
/// newline, and no header line behind them, the run of header lines is those
/// lines.
pub proof fn lemma_header_lines_at(s: Seq<u8>, pos: int, lines: Seq<HeaderLineView>)
    requires
        forall|i: int| 0 <= i < lines.len() ==> header_line_generated(#[trigger] lines[i]),
        tag_at(s, pos, render_header_lines(lines)),
        spec_header_line(s, pos + render_header_lines(lines).len()) is None,
    ensures
        spec_header_lines(s, pos) == (lines, pos + render_header_lines(lines).len()),
        lines.len() > 0 ==> header_start(s, pos),
    decreases lines.len(),
{
    lemma_document_literals();
    if lines.len() == 0 {
        assert(lines =~= Seq::empty());
    } else {
        let first = render_header_line(lines[0]);
        let rest = render_header_lines(lines.drop_first());
        lemma_tag_at_concat(s, pos, first, bytes_of("\n") + rest);
        let p = pos + first.len();
        lemma_tag_at_concat(s, p, bytes_of("\n"), rest);
        assert(s[p + 0] == bytes_of("\n")[0]);
        lemma_header_line_at(s, pos, lines[0]);
        assert forall|i: int| 0 <= i < lines.drop_first().len() implies header_line_generated(
            #[trigger] lines.drop_first()[i],
        ) by {
            assert(lines.drop_first()[i] == lines[i + 1]);
        }
        lemma_header_lines_at(s, p + 1, lines.drop_first());
        assert(seq![lines[0]] + lines.drop_first() =~= lines);
    }
}

/// Where body lines that the grammar can produce stand, each with its
/// newline, and no body line behind them, the run of body lines is those
/// lines.
pub proof fn lemma_body_lines_at(s: Seq<u8>, pos: int, lines: Seq<BodyLineView>)
    requires
        forall|i: int| 0 <= i < lines.len() ==> body_line_generated(#[trigger] lines[i]),
        tag_at(s, pos, render_body_lines(lines)),
        spec_body_line(s, pos + render_body_lines(lines).len()) is None,
    ensures
        spec_body_lines(s, pos) == (lines, pos + render_body_lines(lines).len()),
        lines.len() > 0 ==> body_start(s, pos),
    decreases lines.len(),
{
    lemma_document_literals();
    if lines.len() == 0 {
        assert(lines =~= Seq::empty());
    } else {
        let first = render_body_line(lines[0]);
        let rest = render_body_lines(lines.drop_first());
        lemma_tag_at_concat(s, pos, first, bytes_of("\n") + rest);
        let p = pos + first.len();
        lemma_tag_at_concat(s, p, bytes_of("\n"), rest);
        assert(s[p + 0] == bytes_of("\n")[0]);
        lemma_body_line_at(s, pos, lines[0]);
        assert forall|i: int| 0 <= i < lines.drop_first().len() implies body_line_generated(
            #[trigger] lines.drop_first()[i],
        ) by {
            assert(lines.drop_first()[i] == lines[i + 1]);
        }
        lemma_body_lines_at(s, p + 1, lines.drop_first());
        assert(seq![lines[0]] + lines.drop_first() =~= lines);
    }
}

/// Where a part that the grammar can produce stands, and behind it neither
/// a body line nor a line to skip, the part is read.
pub proof fn lemma_part_at(s: Seq<u8>, pos: int, part: CallgrindEntryView)
    requires
        part_generated(part),
        tag_at(s, pos, render_part(part)),
        spec_body_line(s, pos + render_part(part).len()) is None,
        spec_comment_or_empty(s, pos + render_part(part).len()) == pos + render_part(part).len(),
    ensures
        spec_part_data(s, pos) == Some((part, pos + render_part(part).len())),
        header_start(s, pos),
{
    let header = render_header_lines(part.header);
    let body = render_body_lines(part.body);
    lemma_tag_at_concat(s, pos, header, body);
    lemma_body_lines_at(s, pos + header.len(), part.body);
    lemma_header_stops(s, pos + header.len());
    lemma_header_lines_at(s, pos, part.header);
}

/// Where parts that the grammar can produce stand, and nothing more of a
/// profile can be read behind them, the parts are read.
pub proof fn lemma_parts_at(s: Seq<u8>, pos: int, parts: Seq<CallgrindEntryView>)
    requires
        forall|i: int| 0 <= i < parts.len() ==> part_generated(#[trigger] parts[i]),
        tag_at(s, pos, render_parts(parts)),
        profile_stops(s, pos + render_parts(parts).len()),
    ensures
        spec_parts(s, pos) == (parts, pos + render_parts(parts).len()),
        parts.len() > 0 ==> header_start(s, pos),
    decreases parts.len(),
{
    if parts.len() == 0 {
        assert(parts =~= Seq::empty());
    } else {
        let first = render_part(parts[0]);
        let rest = render_parts(parts.drop_first());
        lemma_tag_at_concat(s, pos, first, rest);
        assert forall|i: int| 0 <= i < parts.drop_first().len() implies part_generated(
            #[trigger] parts.drop_first()[i],
        ) by {
            assert(parts.drop_first()[i] == parts[i + 1]);
        }
        lemma_parts_at(s, pos + first.len(), parts.drop_first());
        if parts.len() == 1 {
            assert(parts.drop_first() =~= Seq::empty());
        } else {
            lemma_body_stops(s, pos + first.len());
        }
        lemma_part_at(s, pos, parts[0]);
        assert(seq![parts[0]] + parts.drop_first() =~= parts);
    }
}

/// No creator line is read where a header line starts.
proof fn lemma_not_creator(s: Seq<u8>, pos: int)
    requires
        header_start(s, pos),
    ensures
        spec_creator(s, pos) is None,
{
    lemma_document_literals();
    let i: int = if s[pos] == 'c' as u8 {
        1
    } else {
        0
    };
    lemma_tag_mismatch(s, pos, bytes_of("creator:"), i);
}

/// Where a creator line stands whose text fits in a line, it is read.
proof fn lemma_creator_at(s: Seq<u8>, pos: int, text: Seq<char>)
    requires
        is_line_text(text),
        tag_at(s, pos, render_creator(Some(text))),
    ensures
        spec_creator(s, pos) == Some((text, pos + render_creator(Some(text)).len())),
{
    lemma_document_literals();
    let t = encode_utf8(text);
    lemma_tag_at_concat(s, pos, bytes_of("creator:"), t + bytes_of("\n"));
    lemma_tag_at_concat(s, pos + 8, t, bytes_of("\n"));
    assert(s[pos + 8 + t.len() + 0] == bytes_of("\n")[0]);
    lemma_text_at(s, pos + 8, text);
}

/// Where the creator line and the parts of a profile that the grammar can
/// produce stand, and nothing more of a profile can be read behind them,
/// they are read.
proof fn lemma_creator_and_parts_at(s: Seq<u8>, pos: int, file: CallgrindFileView)
    requires
        file_generated(file),
        tag_at(s, pos, render_creator(file.creator) + render_parts(file.data)),
        profile_stops(s, pos + (render_creator(file.creator) + render_parts(file.data)).len()),
    ensures
        match file.creator {
            Some(text) => spec_creator(s, pos) == Some(
                (text, pos + render_creator(file.creator).len()),
            ),
            None => spec_creator(s, pos) is None,
        },
        spec_parts(s, pos + render_creator(file.creator).len()) == (
            file.data,
            pos + (render_creator(file.creator) + render_parts(file.data)).len(),
        ),
{
    let line = render_creator(file.creator);
    lemma_tag_at_concat(s, pos, line, render_parts(file.data));
    lemma_parts_at(s, pos + line.len(), file.data);
    match file.creator {
        Some(text) => {
            lemma_creator_at(s, pos, text);
        },
        None => {
            if file.data.len() > 0 {
                lemma_not_creator(s, pos);
            } else {
                assert(file.data =~= Seq::empty());
                assert(render_parts(file.data).len() == 0);
            }
        },
    }
}

/// Where the version line stands, it is read, and no format marker.
proof fn lemma_version_at(s: Seq<u8>, pos: int, version: u32)
    requires
        tag_at(s, pos, render_version(version)),
    ensures
        spec_format_spec(s, pos) is None,
        spec_format_version(s, pos) == Some((version, pos + render_version(version).len())),
{
    lemma_document_literals();
    let digits = render_number(version);
    lemma_decimal_digits(version as nat);
    lemma_tag_at_concat(s, pos, bytes_of("version:"), sp() + (digits + bytes_of("\n")));
    lemma_tag_at_concat(s, pos + 8, sp(), digits + bytes_of("\n"));
    lemma_tag_at_concat(s, pos + 9, digits, bytes_of("\n"));
    let p = pos + 9 + digits.len();
    assert(s[pos + 0] == bytes_of("version:")[0]);
    assert(s[pos + 9 + 0] == digits[0]);
    assert(s[p + 0] == bytes_of("\n")[0]);
    lemma_tag_mismatch(s, pos, bytes_of("# callgrind format\n"), 0);
    lemma_one_space_at(s, pos + 8);
    lemma_number_decimal_at(s, pos + 9, version);
}

/// Where the text of a profile that the grammar can produce starts a
/// buffer, and nothing more of a profile can be read behind it, the profile
/// is read, and the rule ends where the text ends.
pub proof fn lemma_written_profile_at_start(s: Seq<u8>, file: CallgrindFileView)
    requires
        file_generated(file),
        tag_at(s, 0, render_file(file)),
        profile_stops(s, render_file(file).len() as int),
    ensures
        spec_callgrind(s) == (file, render_file(file).len() as int),
{
    let line = render_version(file.version);
    let tail = render_creator(file.creator) + render_parts(file.data);
    lemma_tag_at_concat(s, 0, line, tail);
    lemma_version_at(s, 0, file.version);
    lemma_creator_and_parts_at(s, line.len() as int, file);
}

/// Parsing the text that was written from a profile which the grammar can
/// produce gives that profile, and takes all of the text.
pub proof fn lemma_round_trip(file: CallgrindFileView)
    requires
        file_generated(file),
    ensures
        spec_callgrind(render_file(file)) == (file, render_file(file).len() as int),
{
    let s = render_file(file);
    assert(tag_at(s, 0, s));
    lemma_profile_stops(s, s.len() as int);
    lemma_written_profile_at_start(s, file);
}

/// Whether `pos` is the start of the buffer or stands behind a newline.
pub open spec fn at_line_start(s: Seq<u8>, pos: int) -> bool {
    pos == 0 || (0 < pos <= s.len() && s[pos - 1] == newline())
}

/// A run of skipped lines ends where it starts or behind a newline.
proof fn lemma_comment_or_empty_ends_line(s: Seq<u8>, pos: int)
    requires
        0 <= pos <= s.len(),
    ensures
        spec_comment_or_empty(s, pos) == pos || at_line_start(s, spec_comment_or_empty(s, pos)),
    decreases s.len() - pos,
{
    crate::lexical::lemma_skipped_line(s, pos);
    match crate::lexical::spec_skipped_line(s, pos) {
        Some(end) => {
            lemma_comment_or_empty_ends_line(s, end);
        },
        None => {},
    }
}

/// A run of body lines that is not empty ends behind a newline.
proof fn lemma_body_lines_end_line(s: Seq<u8>, pos: int)
    requires
        0 <= pos <= s.len(),
    ensures
        spec_body_lines(s, pos).0.len() > 0 ==> at_line_start(s, spec_body_lines(s, pos).1)
            && spec_body_lines(s, pos).1 > 0,
        spec_body_lines(s, pos).0.len() == 0 ==> spec_body_lines(s, pos).1 == pos,
    decreases s.len() - pos,
{
    lemma_document_literals();
    crate::document::lemma_body_line_nl_bounds(s, pos);
    match spec_body_line_nl(s, pos) {
        Some((_, end)) => {
            let read = spec_body_line(s, pos)->0;
            assert(s[read.1 + 0] == bytes_of("\n")[0]);
            lemma_body_lines_end_line(s, end);
        },
        None => {},
    }
}

/// A part ends behind a newline.
proof fn lemma_part_data_ends_line(s: Seq<u8>, pos: int)
    requires
        0 <= pos <= s.len(),
    ensures
        spec_part_data(s, pos) matches Some((_, end)) ==> at_line_start(s, end) && end > 0,
{
    crate::document::lemma_header_lines_bounds(s, pos);
    let p = spec_header_lines(s, pos).1;
    crate::document::lemma_body_lines_bounds(s, p);
    lemma_body_lines_end_line(s, p);
    lemma_comment_or_empty_ends_line(s, spec_body_lines(s, p).1);
    crate::lexical::lemma_comment_or_empty_bounds(s, spec_body_lines(s, p).1);
}

/// A run of parts ends where it starts or behind a newline.
proof fn lemma_parts_end_line(s: Seq<u8>, pos: int)
    requires
        0 <= pos <= s.len(),
    ensures
        pos <= spec_parts(s, pos).1 <= s.len(),
        spec_parts(s, pos).1 == pos || at_line_start(s, spec_parts(s, pos).1),
    decreases s.len() - pos,
{
    crate::document::lemma_part_data_bounds(s, pos);
    lemma_part_data_ends_line(s, pos);
    match spec_part_data(s, pos) {
        Some((_, end)) => {
            lemma_parts_end_line(s, end);
        },
        None => {},
    }
}

/// What is read as a profile ends inside the buffer, at its start or behind
/// a newline: a profile is made of whole lines.
pub proof fn lemma_profile_ends_line(s: Seq<u8>)
    ensures
        0 <= spec_callgrind(s).1 <= s.len(),
        at_line_start(s, spec_callgrind(s).1),
{
    lemma_document_literals();
    let p = match spec_format_spec(s, 0) {
        Some(p) => {
            assert(s[0int + 18] == bytes_of("# callgrind format\n")[18]);
            p
        },
        None => 0,
    };
    let q = match spec_format_version(s, p) {
        Some((_, q)) => {
            assert(s[q - 1 + 0] == bytes_of("\n")[0]);
            q
        },
        None => p,
    };
    let r = match spec_creator(s, q) {
        Some((_, r)) => {
            assert(s[r - 1 + 0] == bytes_of("\n")[0]);
            r
        },
        None => q,
    };
    lemma_parts_end_line(s, r);
}

} // verus!
