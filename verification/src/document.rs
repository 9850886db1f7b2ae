//! Document assembly: the lines before the first part, the parts, and the
//! whole profile.

use crate::body::{body_line, lemma_body_line_bounds, spec_body_line};
use crate::document_laws::{
    can_start_line, lemma_profile_ends_line, lemma_round_trip, profile_stops,
};
use crate::prefix_laws::{lemma_garbage_behind_profile, lemma_garbage_by_first_byte};
use crate::read_laws::{lemma_profile_read, lemma_read_profile_parses_back};
use crate::error::{agrees, malformed, malformed_at, ErrorKind, ParseError, Rule};
use crate::render::{file_generated, render_file};
use crate::header::{header_line, lemma_header_line_bounds, spec_header_line};
use crate::lexical::{
    bytes_of, comment_or_empty, lemma_ascii_literal, lemma_comment_or_empty_bounds, newline,
    no_newline_chars, number, space0, spec_comment_or_empty, spec_no_newline_chars, spec_number,
    spec_space0, spec_tag, tag,
};
use crate::model::{
    lemma_deep_view_empty, lemma_deep_view_push, BodyLine, BodyLineView, CallgrindEntry,
    CallgrindEntryView, CallgrindFile, CallgrindFileView, HeaderLine, HeaderLineView,
};
use vstd::prelude::*;

verus! {

/// The literal that ends a line is the one newline byte.
pub proof fn lemma_newline_literal()
    ensures
        bytes_of("\n") == seq![newline()],
{
    reveal_strlit("\n");
    lemma_ascii_literal("\n");
    assert(bytes_of("\n") =~= seq![newline()]);
}

/// The version of a profile that does not state one.
pub open spec fn default_version_spec(version: Option<u32>) -> u32 {
    match version {
        Some(v) => v,
        None => 1,
    }
}

/// The version that was read, or 1 where none was.
pub fn default_version(version: Option<u32>) -> (v: u32)
    ensures
        v == default_version_spec(version),
{
    match version {
        Some(v) => v,
        None => 1,
    }
}

/// The format marker: the line `# callgrind format`, newline included.
pub open spec fn spec_format_spec(s: Seq<u8>, pos: int) -> Option<int> {
    spec_tag(s, pos, bytes_of("# callgrind format\n"))
}

/// Matches the format marker at `pos`.
pub fn format_spec(input: &[u8], pos: usize) -> (r: Result<usize, ParseError>)
    ensures
        match r {
            Ok(end) => spec_format_spec(input@, pos as int) == Some(end as int) && pos <= end
                <= input@.len(),
            Err(e) => spec_format_spec(input@, pos as int) is None && e == malformed_at(
                Rule::FormatSpec,
                pos,
            ),
        },
{
    match tag(input, pos, "# callgrind format\n") {
        Some(end) => Ok(end),
        None => Err(malformed(Rule::FormatSpec, pos)),
    }
}

/// The version line: `version:`, optional space, an integer, and the
/// newline.
pub open spec fn spec_format_version(s: Seq<u8>, pos: int) -> Option<(u32, int)> {
    match spec_tag(s, pos, bytes_of("version:")) {
        Some(p) => match spec_number(s, spec_space0(s, p)) {
            Some((version, q)) => match spec_tag(s, q, bytes_of("\n")) {
                Some(end) => Some((version, end)),
                None => None,
            },
            None => None,
        },
        None => None,
    }
}

/// Parses the version line at `pos`.
pub fn format_version(input: &[u8], pos: usize) -> (r: Result<(u32, usize), ParseError>)
    ensures
        agrees(r, spec_format_version(input@, pos as int), Rule::FormatVersion, pos),
        r matches Ok((_, end)) ==> pos <= end <= input@.len(),
{
    let Some(p) = tag(input, pos, "version:") else {
        return Err(malformed(Rule::FormatVersion, pos));
    };
    let p = space0(input, p);
    let Ok((version, q)) = number(input, p) else {
        return Err(malformed(Rule::FormatVersion, pos));
    };
    match tag(input, q, "\n") {
        Some(end) => Ok((version, end)),
        None => Err(malformed(Rule::FormatVersion, pos)),
    }
}

/// The creator line: `creator:`, the rest of the line as the creator, and
/// the newline.
pub open spec fn spec_creator(s: Seq<u8>, pos: int) -> Option<(Seq<char>, int)> {
    match spec_tag(s, pos, bytes_of("creator:")) {
        Some(p) => match spec_no_newline_chars(s, p) {
            Some((text, q)) => match spec_tag(s, q, bytes_of("\n")) {
                Some(end) => Some((text, end)),
                None => None,
            },
            None => None,
        },
        None => None,
    }
}

/// Parses the creator line at `pos`.
pub fn creator(input: &[u8], pos: usize) -> (r: Result<(String, usize), ParseError>)
    ensures
        agrees(r, spec_creator(input@, pos as int), Rule::Creator, pos),
        r matches Ok((_, end)) ==> pos <= end <= input@.len(),
{
    let Some(p) = tag(input, pos, "creator:") else {
        return Err(malformed(Rule::Creator, pos));
    };
    let Ok((text, q)) = no_newline_chars(input, p) else {
        return Err(malformed(Rule::Creator, pos));
    };
    match tag(input, q, "\n") {
        Some(end) => Ok((text, end)),
        None => Err(malformed(Rule::Creator, pos)),
    }
}

/// A header line and its newline.
pub open spec fn spec_header_line_nl(s: Seq<u8>, pos: int) -> Option<(HeaderLineView, int)> {
    match spec_header_line(s, pos) {
        Some((line, p)) => match spec_tag(s, p, bytes_of("\n")) {
            Some(end) => Some((line, end)),
            None => None,
        },
        None => None,
    }
}

/// A header line with its newline takes one byte at least and ends inside the
/// buffer.
pub proof fn lemma_header_line_nl_bounds(s: Seq<u8>, pos: int)
    requires
        0 <= pos <= s.len(),
    ensures
        spec_header_line_nl(s, pos) matches Some((_, end)) ==> pos < end <= s.len(),
{
    lemma_header_line_bounds(s, pos);
    lemma_newline_literal();
}

/// The header lines at `pos`, each with its newline, as many as there are.
pub open spec fn spec_header_lines(s: Seq<u8>, pos: int) -> (Seq<HeaderLineView>, int)
    decreases s.len() - pos,
    via spec_header_lines_decreases
{
    if 0 <= pos <= s.len() {
        match spec_header_line_nl(s, pos) {
            Some((line, end)) => (
                seq![line] + spec_header_lines(s, end).0,
                spec_header_lines(s, end).1,
            ),
            None => (Seq::empty(), pos),
        }
    } else {
        (Seq::empty(), pos)
    }
}

/// Each further header line starts behind the one before.
#[via_fn]
proof fn spec_header_lines_decreases(s: Seq<u8>, pos: int) {
    if 0 <= pos <= s.len() {
        lemma_header_line_nl_bounds(s, pos);
    }
}

/// A body line and its newline.
pub open spec fn spec_body_line_nl(s: Seq<u8>, pos: int) -> Option<(BodyLineView, int)> {
    match spec_body_line(s, pos) {
        Some((line, p)) => match spec_tag(s, p, bytes_of("\n")) {
            Some(end) => Some((line, end)),
            None => None,
        },
        None => None,
    }
}

/// A body line with its newline takes one byte at least and ends inside the
/// buffer.
pub proof fn lemma_body_line_nl_bounds(s: Seq<u8>, pos: int)
    requires
        0 <= pos <= s.len(),
    ensures
        spec_body_line_nl(s, pos) matches Some((_, end)) ==> pos < end <= s.len(),
{
    lemma_body_line_bounds(s, pos);
    lemma_newline_literal();
}

/// The body lines at `pos`, each with its newline, as many as there are.
pub open spec fn spec_body_lines(s: Seq<u8>, pos: int) -> (Seq<BodyLineView>, int)
    decreases s.len() - pos,
    via spec_body_lines_decreases
{
    if 0 <= pos <= s.len() {
        match spec_body_line_nl(s, pos) {
            Some((line, end)) => (
                seq![line] + spec_body_lines(s, end).0,
                spec_body_lines(s, end).1,
            ),
            None => (Seq::empty(), pos),
        }
    } else {
        (Seq::empty(), pos)
    }
}

/// Each further body line starts behind the one before.
#[via_fn]
proof fn spec_body_lines_decreases(s: Seq<u8>, pos: int) {
    if 0 <= pos <= s.len() {
        lemma_body_line_nl_bounds(s, pos);
    }
}

/// A part: one or more header lines, one or more body lines, and the blank
/// and comment lines behind them.
pub open spec fn spec_part_data(s: Seq<u8>, pos: int) -> Option<(CallgrindEntryView, int)> {
    let (header, p) = spec_header_lines(s, pos);
    let (body, q) = spec_body_lines(s, p);
    if header.len() > 0 && body.len() > 0 {
        Some((CallgrindEntryView { header, body }, spec_comment_or_empty(s, q)))
    } else {
        None
    }
}

/// Runs of header lines end inside the buffer, and behind their start where
/// there is a line.
pub proof fn lemma_header_lines_bounds(s: Seq<u8>, pos: int)
    requires
        0 <= pos <= s.len(),
    ensures
        pos <= spec_header_lines(s, pos).1 <= s.len(),
        spec_header_lines(s, pos).0.len() > 0 ==> pos < spec_header_lines(s, pos).1,
    decreases s.len() - pos,
{
    lemma_header_line_nl_bounds(s, pos);
    if let Some((_, end)) = spec_header_line_nl(s, pos) {
        lemma_header_lines_bounds(s, end);
    }
}

/// Runs of body lines end inside the buffer, behind their start or at it.
pub proof fn lemma_body_lines_bounds(s: Seq<u8>, pos: int)
    requires
        0 <= pos <= s.len(),
    ensures
        pos <= spec_body_lines(s, pos).1 <= s.len(),
    decreases s.len() - pos,
{
    lemma_body_line_nl_bounds(s, pos);
    if let Some((_, end)) = spec_body_line_nl(s, pos) {
        lemma_body_lines_bounds(s, end);
    }
}

/// A part takes one byte at least and ends inside the buffer.
pub proof fn lemma_part_data_bounds(s: Seq<u8>, pos: int)
    requires
        0 <= pos <= s.len(),
    ensures
        spec_part_data(s, pos) matches Some((_, end)) ==> pos < end <= s.len(),
{
    lemma_header_lines_bounds(s, pos);
    lemma_body_lines_bounds(s, spec_header_lines(s, pos).1);
    lemma_comment_or_empty_bounds(s, spec_body_lines(s, spec_header_lines(s, pos).1).1);
}

/// Parses the header lines at `pos`, as many as there are.
fn header_lines(input: &[u8], pos: usize) -> (r: (Vec<HeaderLine>, usize))
    ensures
        spec_header_lines(input@, pos as int) == (r.0.deep_view(), r.1 as int),
        pos <= r.1,
        r.1 <= input@.len() || r.1 == pos,
{
    let mut lines: Vec<HeaderLine> = Vec::new();
    proof {
        lemma_deep_view_empty(lines);
    }
    let mut at: usize = pos;
    loop
        invariant
            pos <= at,
            at <= input@.len() || at == pos,
            spec_header_lines(input@, pos as int) == (
                lines.deep_view() + spec_header_lines(input@, at as int).0,
                spec_header_lines(input@, at as int).1,
            ),
        decreases input@.len() - at,
    {
        let Ok((line, p)) = header_line(input, at) else {
            assert(lines.deep_view() + Seq::<HeaderLineView>::empty() =~= lines.deep_view());
            return (lines, at);
        };
        let Some(end) = tag(input, p, "\n") else {
            assert(lines.deep_view() + Seq::<HeaderLineView>::empty() =~= lines.deep_view());
            return (lines, at);
        };
        let ghost before = lines;
        let ghost rest = spec_header_lines(input@, end as int).0;
        lines.push(line);
        proof {
            lemma_newline_literal();
            lemma_deep_view_push(before, lines, line);
            assert(lines.deep_view() + rest =~= before.deep_view() + (seq![line.deep_view()]
                + rest));
        }
        at = end;
    }
}

/// Parses the body lines at `pos`, as many as there are.
fn body_lines(input: &[u8], pos: usize) -> (r: (Vec<BodyLine>, usize))
    ensures
        spec_body_lines(input@, pos as int) == (r.0.deep_view(), r.1 as int),
        pos <= r.1,
        r.1 <= input@.len() || r.1 == pos,
{
    let mut lines: Vec<BodyLine> = Vec::new();
    proof {
        lemma_deep_view_empty(lines);
    }
    let mut at: usize = pos;
    loop
        invariant
            pos <= at,
            at <= input@.len() || at == pos,
            spec_body_lines(input@, pos as int) == (
                lines.deep_view() + spec_body_lines(input@, at as int).0,
                spec_body_lines(input@, at as int).1,
            ),
        decreases input@.len() - at,
    {
        let Ok((line, p)) = body_line(input, at) else {
            assert(lines.deep_view() + Seq::<BodyLineView>::empty() =~= lines.deep_view());
            return (lines, at);
        };
        let Some(end) = tag(input, p, "\n") else {
            assert(lines.deep_view() + Seq::<BodyLineView>::empty() =~= lines.deep_view());
            return (lines, at);
        };
        let ghost before = lines;
        let ghost rest = spec_body_lines(input@, end as int).0;
        lines.push(line);
        proof {
            lemma_newline_literal();
            lemma_deep_view_push(before, lines, line);
            assert(lines.deep_view() + rest =~= before.deep_view() + (seq![line.deep_view()]
                + rest));
        }
        at = end;
    }
}

/// Parses one part at `pos`.
pub fn part_data(input: &[u8], pos: usize) -> (r: Result<(CallgrindEntry, usize), ParseError>)
    ensures
        agrees(r, spec_part_data(input@, pos as int), Rule::PartData, pos),
        r matches Ok((_, end)) ==> pos < end <= input@.len(),
{
    let (header, p) = header_lines(input, pos);
    if header.len() == 0 {
        return Err(malformed(Rule::PartData, pos));
    }
    let (body, q) = body_lines(input, p);
    if body.len() == 0 {
        return Err(malformed(Rule::PartData, pos));
    }
    proof {
        lemma_header_lines_bounds(input@, pos as int);
    }
    let end = comment_or_empty(input, q);
    Ok((CallgrindEntry { header, body }, end))
}

/// The parts at `pos`, as many as there are.
pub open spec fn spec_parts(s: Seq<u8>, pos: int) -> (Seq<CallgrindEntryView>, int)
    decreases s.len() - pos,
    via spec_parts_decreases
{
    if 0 <= pos <= s.len() {
        match spec_part_data(s, pos) {
            Some((part, end)) => (seq![part] + spec_parts(s, end).0, spec_parts(s, end).1),
            None => (Seq::empty(), pos),
        }
    } else {
        (Seq::empty(), pos)
    }
}

/// Each further part starts behind the one before.
#[via_fn]
proof fn spec_parts_decreases(s: Seq<u8>, pos: int) {
    if 0 <= pos <= s.len() {
        lemma_part_data_bounds(s, pos);
    }
}

/// A profile: the format marker, the version line and the creator line, each
/// where it stands, and then the parts, as many as there are. The rule
/// matches every buffer; the place where it ends tells how much of the buffer
/// is a profile.
pub open spec fn spec_callgrind(s: Seq<u8>) -> (CallgrindFileView, int) {
    let p = match spec_format_spec(s, 0) {
        Some(p) => p,
        None => 0,
    };
    let (version, q) = match spec_format_version(s, p) {
        Some((version, q)) => (Some(version), q),
        None => (None, p),
    };
    let (creator, r) = match spec_creator(s, q) {
        Some((text, r)) => (Some(text), r),
        None => (None, q),
    };
    let (data, end) = spec_parts(s, r);
    (CallgrindFileView { version: default_version_spec(version), creator, data }, end)
}

/// The version line of a profile, where it has one: behind the format
/// marker, or at the start of the buffer.
pub open spec fn spec_version_line(s: Seq<u8>) -> Option<(u32, int)> {
    match spec_format_spec(s, 0) {
        Some(p) => spec_format_version(s, p),
        None => spec_format_version(s, 0),
    }
}

/// Parses the parts at `pos`, as many as there are.
fn parts(input: &[u8], pos: usize) -> (r: (Vec<CallgrindEntry>, usize))
    ensures
        spec_parts(input@, pos as int) == (r.0.deep_view(), r.1 as int),
        pos <= r.1,
        r.1 <= input@.len() || r.1 == pos,
{
    let mut data: Vec<CallgrindEntry> = Vec::new();
    proof {
        lemma_deep_view_empty(data);
    }
    let mut at: usize = pos;
    loop
        invariant
            pos <= at,
            at <= input@.len() || at == pos,
            spec_parts(input@, pos as int) == (
                data.deep_view() + spec_parts(input@, at as int).0,
                spec_parts(input@, at as int).1,
            ),
        decreases input@.len() - at,
    {
        let Ok((part, end)) = part_data(input, at) else {
            assert(data.deep_view() + Seq::<CallgrindEntryView>::empty() =~= data.deep_view());
            return (data, at);
        };
        let ghost before = data;
        let ghost rest = spec_parts(input@, end as int).0;
        data.push(part);
        proof {
            lemma_deep_view_push(before, data, part);
            assert(data.deep_view() + rest =~= before.deep_view() + (seq![part.deep_view()]
                + rest));
        }
        at = end;
    }
}

/// Parses a profile from the start of the buffer, as far as it goes, and
/// tells where it stopped. A profile without a version line has version 1.
/// What is read is a profile that the grammar can produce: written and
/// parsed again, it comes back the same.
pub fn callgrind(input: &[u8]) -> (r: (CallgrindFile, usize))
    ensures
        spec_callgrind(input@) == (r.0.deep_view(), r.1 as int),
        r.1 <= input@.len(),
        file_generated(r.0.deep_view()),
        spec_callgrind(render_file(r.0.deep_view())).0 == r.0.deep_view(),
        spec_version_line(input@) is None ==> r.0.version == 1,
        spec_version_line(input@) matches Some((version, _)) ==> r.0.version == version,
{
    let p = match format_spec(input, 0) {
        Ok(p) => p,
        Err(_) => 0,
    };
    let (version, q) = match format_version(input, p) {
        Ok((version, q)) => (Some(version), q),
        Err(_) => (None, p),
    };
    let (creator, r) = match creator(input, q) {
        Ok((text, r)) => (Some(text), r),
        Err(_) => (None, q),
    };
    let (data, end) = parts(input, r);
    proof {
        lemma_profile_read(input@);
        lemma_read_profile_parses_back(input@);
    }
    (CallgrindFile { version: default_version(version), creator, data }, end)
}

/// The error of a profile that ends at `offset`, before the end of the
/// buffer.
pub open spec fn trailing_data_at(offset: usize) -> ParseError {
    ParseError { kind: ErrorKind::TrailingData, rule: Rule::Document, offset }
}

/// Parses a buffer that holds one whole profile. What is left over behind
/// the profile is an error, located where the profile ends.
///
/// A profile is made of whole lines, so a buffer that does not end with a
/// newline is never one. A buffer that holds the text written from a profile
/// which the grammar can produce gives that profile back. And where bytes
/// stand behind a buffer that is a profile, of which nothing can be read as
/// part of a profile, those bytes are left over; bytes of which the first is
/// one at which no line can start are such bytes.
pub fn parse(input: &[u8]) -> (r: Result<CallgrindFile, ParseError>)
    ensures
        match r {
            Ok(file) => spec_callgrind(input@) == (file.deep_view(), input@.len() as int),
            Err(e) => spec_callgrind(input@).1 != input@.len() && e == trailing_data_at(
                spec_callgrind(input@).1 as usize,
            ),
        },
        r matches Ok(file) ==> file_generated(file.deep_view()),
        r matches Ok(file) ==> file.version == (match spec_version_line(input@) {
            Some((version, _)) => version,
            None => 1,
        }),
        input@.len() > 0 && input@.last() != newline() ==> r is Err,
        forall|file: CallgrindFileView|
            file_generated(file) && input@ == #[trigger] render_file(file) ==> (r matches Ok(
                parsed,
            ) && parsed.deep_view() == file),
        forall|text: Seq<u8>, garbage: Seq<u8>|
            input@ == #[trigger] (text + garbage) && spec_callgrind(text).1 == text.len()
                && garbage.len() > 0 && (!can_start_line(garbage[0]) || profile_stops(
                input@,
                text.len() as int,
            )) ==> (r matches Err(e) && e == trailing_data_at(text.len() as usize)),
{
    let (file, end) = callgrind(input);
    proof {
        lemma_profile_ends_line(input@);
        assert forall|written: CallgrindFileView|
            file_generated(written) && input@ == #[trigger] render_file(
                written,
            ) implies end == input@.len() && file.deep_view() == written by {
            lemma_round_trip(written);
        }
        assert forall|text: Seq<u8>, garbage: Seq<u8>|
            input@ == #[trigger] (text + garbage) && spec_callgrind(text).1 == text.len()
                && garbage.len() > 0 && (!can_start_line(garbage[0]) || profile_stops(
                input@,
                text.len() as int,
            )) implies end == text.len() && end < input@.len() by {
            if !can_start_line(garbage[0]) {
                lemma_garbage_by_first_byte(text, garbage);
            }
            lemma_garbage_behind_profile(text, garbage);
        }
    }
    if end == input.len() {
        Ok(file)
    } else {
        Err(ParseError { kind: ErrorKind::TrailingData, rule: Rule::Document, offset: end })
    }
}

} // verus!
