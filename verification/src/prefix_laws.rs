//! The law of the profile with bytes behind it: where a buffer of whole
//! lines goes on with bytes of which nothing can be read as part of a
//! profile, what is read is what is read of the lines alone.

use crate::body::{spec_body_alternatives, spec_body_line, spec_cost_line};
use crate::body_local::lemma_body_alternatives_same;
use crate::document::{
    lemma_body_line_nl_bounds, lemma_header_line_nl_bounds, lemma_part_data_bounds,
    spec_body_line_nl, spec_body_lines, spec_callgrind, spec_creator, spec_format_spec,
    spec_format_version, spec_header_line_nl, spec_header_lines, spec_part_data, spec_parts,
};
use crate::document_laws::{
    at_line_start, can_start_line, lemma_profile_ends_line, lemma_profile_stops, profile_stops,
};
use crate::header::{spec_header_alternatives, spec_header_line};
use crate::header_local::lemma_header_alternatives_same;
use crate::lexical::{
    bytes_of, lemma_ascii_literal, newline, spec_comment_or_empty, spec_no_newline_chars,
    spec_number, spec_skipped_line, spec_space0, spec_tag, tag_at,
};
use crate::line_local::{
    lemma_literals_hold_no_newline, lemma_newline_same, lemma_no_newline_chars_same,
    lemma_number_same, lemma_skipped_line_same, lemma_space_same, lemma_tag_same, same_line,
};
use vstd::prelude::*;

verus! {

/// The second buffer starts with the first.
pub open spec fn is_prefix(s1: Seq<u8>, s2: Seq<u8>) -> bool {
    &&& s1.len() <= s2.len()
    &&& forall|i: int| #![trigger s1[i]] #![trigger s2[i]] 0 <= i < s1.len() ==> s1[i] == s2[i]
}

/// The second buffer is the first, which is made of whole lines, with bytes
/// behind it of which nothing can be read as part of a profile.
pub open spec fn goes_on_with_garbage(s1: Seq<u8>, s2: Seq<u8>) -> bool {
    &&& is_prefix(s1, s2)
    &&& at_line_start(s1, s1.len() as int)
    &&& profile_stops(s2, s1.len() as int)
}

/// Where no line rule reads anything: what `profile_stops` says, of the
/// alternatives themselves.
pub open spec fn line_rules_stop(s: Seq<u8>, pos: int) -> bool {
    &&& profile_stops(s, pos)
    &&& spec_header_alternatives(s, pos) is None
    &&& spec_body_alternatives(s, pos) is None
    &&& spec_cost_line(s, pos) is None
}

/// Where the first buffer ends, no line rule reads anything, in either
/// buffer; and before that place the buffers hold the same lines.
proof fn lemma_garbage_facts(s1: Seq<u8>, s2: Seq<u8>)
    requires
        goes_on_with_garbage(s1, s2),
    ensures
        line_rules_stop(s1, s1.len() as int),
        line_rules_stop(s2, s1.len() as int),
        forall|pos: int| 0 <= pos < s1.len() ==> #[trigger] same_line(s1, s2, pos, s1.len() - 1),
{
    reveal(spec_header_line);
    reveal(spec_body_line);
    reveal(spec_body_alternatives);
    lemma_profile_stops(s1, s1.len() as int);
    assert forall|pos: int| 0 <= pos < s1.len() implies #[trigger] same_line(
        s1,
        s2,
        pos,
        s1.len() - 1,
    ) by {}
}

/// The run of skipped lines is the same in both buffers.
proof fn lemma_comment_or_empty_prefix(s1: Seq<u8>, s2: Seq<u8>, pos: int)
    requires
        goes_on_with_garbage(s1, s2),
        0 <= pos <= s1.len(),
    ensures
        spec_comment_or_empty(s1, pos) == spec_comment_or_empty(s2, pos),
        pos <= spec_comment_or_empty(s1, pos) <= s1.len(),
    decreases s1.len() - pos,
{
    lemma_garbage_facts(s1, s2);
    if pos < s1.len() {
        assert(same_line(s1, s2, pos, s1.len() - 1));
        lemma_skipped_line_same(s1, s2, pos, s1.len() - 1);
        match spec_skipped_line(s1, pos) {
            Some(end) => {
                lemma_comment_or_empty_prefix(s1, s2, end);
            },
            None => {},
        }
    }
}

/// A header line with its newline is the same in both buffers.
proof fn lemma_header_line_nl_prefix(s1: Seq<u8>, s2: Seq<u8>, pos: int)
    requires
        goes_on_with_garbage(s1, s2),
        0 <= pos <= s1.len(),
    ensures
        spec_header_line_nl(s1, pos) == spec_header_line_nl(s2, pos),
        spec_header_line_nl(s1, pos) matches Some((_, end)) ==> pos < end <= s1.len(),
{
    reveal(spec_header_line);
    lemma_garbage_facts(s1, s2);
    lemma_comment_or_empty_prefix(s1, s2, pos);
    lemma_header_line_nl_bounds(s1, pos);
    let at = spec_comment_or_empty(s1, pos);
    if at < s1.len() {
        assert(same_line(s1, s2, at, s1.len() - 1));
        lemma_header_alternatives_same(s1, s2, at, s1.len() - 1);
        if let Some((_, p)) = spec_header_alternatives(s1, at) {
            assert(same_line(s1, s2, p, s1.len() - 1));
            lemma_newline_same(s1, s2, p, s1.len() - 1);
        }
    }
}

/// The run of header lines is the same in both buffers.
proof fn lemma_header_lines_prefix(s1: Seq<u8>, s2: Seq<u8>, pos: int)
    requires
        goes_on_with_garbage(s1, s2),
        0 <= pos <= s1.len(),
    ensures
        spec_header_lines(s1, pos) == spec_header_lines(s2, pos),
        pos <= spec_header_lines(s1, pos).1 <= s1.len(),
    decreases s1.len() - pos,
{
    lemma_header_line_nl_prefix(s1, s2, pos);
    match spec_header_line_nl(s1, pos) {
        Some((_, end)) => {
            lemma_header_lines_prefix(s1, s2, end);
        },
        None => {},
    }
}

/// A body line with its newline is the same in both buffers.
proof fn lemma_body_line_nl_prefix(s1: Seq<u8>, s2: Seq<u8>, pos: int)
    requires
        goes_on_with_garbage(s1, s2),
        0 <= pos <= s1.len(),
    ensures
        spec_body_line_nl(s1, pos) == spec_body_line_nl(s2, pos),
        spec_body_line_nl(s1, pos) matches Some((_, end)) ==> pos < end <= s1.len(),
{
    reveal(spec_body_line);
    lemma_garbage_facts(s1, s2);
    lemma_comment_or_empty_prefix(s1, s2, pos);
    lemma_body_line_nl_bounds(s1, pos);
    let at = spec_comment_or_empty(s1, pos);
    if at < s1.len() {
        assert(same_line(s1, s2, at, s1.len() - 1));
        lemma_body_alternatives_same(s1, s2, at, s1.len() - 1);
        if let Some((_, p)) = spec_body_alternatives(s1, at) {
            assert(same_line(s1, s2, p, s1.len() - 1));
            lemma_newline_same(s1, s2, p, s1.len() - 1);
        }
    }
}

/// The run of body lines is the same in both buffers.
proof fn lemma_body_lines_prefix(s1: Seq<u8>, s2: Seq<u8>, pos: int)
    requires
        goes_on_with_garbage(s1, s2),
        0 <= pos <= s1.len(),
    ensures
        spec_body_lines(s1, pos) == spec_body_lines(s2, pos),
        pos <= spec_body_lines(s1, pos).1 <= s1.len(),
    decreases s1.len() - pos,
{
    lemma_body_line_nl_prefix(s1, s2, pos);
    match spec_body_line_nl(s1, pos) {
        Some((_, end)) => {
            lemma_body_lines_prefix(s1, s2, end);
        },
        None => {},
    }
}

/// A part is the same in both buffers.
proof fn lemma_part_data_prefix(s1: Seq<u8>, s2: Seq<u8>, pos: int)
    requires
        goes_on_with_garbage(s1, s2),
        0 <= pos <= s1.len(),
    ensures
        spec_part_data(s1, pos) == spec_part_data(s2, pos),
        spec_part_data(s1, pos) matches Some((_, end)) ==> pos < end <= s1.len(),
{
    lemma_part_data_bounds(s1, pos);
    lemma_header_lines_prefix(s1, s2, pos);
    let p = spec_header_lines(s1, pos).1;
    lemma_body_lines_prefix(s1, s2, p);
    lemma_comment_or_empty_prefix(s1, s2, spec_body_lines(s1, p).1);
}

/// The run of parts is the same in both buffers.
proof fn lemma_parts_prefix(s1: Seq<u8>, s2: Seq<u8>, pos: int)
    requires
        goes_on_with_garbage(s1, s2),
        0 <= pos <= s1.len(),
    ensures
        spec_parts(s1, pos) == spec_parts(s2, pos),
    decreases s1.len() - pos,
{
    lemma_part_data_prefix(s1, s2, pos);
    match spec_part_data(s1, pos) {
        Some((_, end)) => {
            lemma_parts_prefix(s1, s2, end);
        },
        None => {},
    }
}

/// The format marker holds one newline, its last byte.
proof fn lemma_format_marker_bytes()
    ensures
        bytes_of("# callgrind format\n").len() == 19,
        forall|i: int| 0 <= i < 18 ==> #[trigger] bytes_of("# callgrind format\n")[i] != newline(),
{
    reveal_strlit("# callgrind format\n");
    lemma_ascii_literal("# callgrind format\n");
}

/// The format marker is found in both buffers or in neither.
proof fn lemma_format_spec_prefix(s1: Seq<u8>, s2: Seq<u8>)
    requires
        goes_on_with_garbage(s1, s2),
    ensures
        spec_format_spec(s1, 0) == spec_format_spec(s2, 0),
        spec_format_spec(s1, 0) matches Some(end) ==> 0 <= end <= s1.len(),
{
    lemma_format_marker_bytes();
    assert(at_line_start(s1, s1.len() as int));
    let lit = bytes_of("# callgrind format\n");
    let n = s1.len() as int;
    if tag_at(s1, 0, lit) {
        assert forall|i: int| 0 <= i < lit.len() implies s2[0 + i] == #[trigger] lit[i] by {
            assert(s1[0 + i] == s2[0 + i]);
        }
    }
    if tag_at(s2, 0, lit) {
        if n == 0 {
        } else if n < 19 {
            assert(s2[0 + (n - 1)] == lit[n - 1]);
            assert(s1[n - 1] == s2[n - 1]);
        } else {
            assert forall|i: int| 0 <= i < lit.len() implies s1[0 + i] == #[trigger] lit[i] by {
                assert(s1[0 + i] == s2[0 + i]);
            }
        }
    }
}

/// The version line is the same in both buffers.
proof fn lemma_format_version_prefix(s1: Seq<u8>, s2: Seq<u8>, pos: int)
    requires
        goes_on_with_garbage(s1, s2),
        0 <= pos <= s1.len(),
    ensures
        spec_format_version(s1, pos) == spec_format_version(s2, pos),
        spec_format_version(s1, pos) matches Some((_, end)) ==> pos <= end <= s1.len(),
{
    lemma_literals_hold_no_newline();
    lemma_garbage_facts(s1, s2);
    let e = s1.len() - 1;
    if pos < s1.len() {
        assert(same_line(s1, s2, pos, e));
        lemma_tag_same(s1, s2, pos, e, bytes_of("version:"));
        if let Some(p) = spec_tag(s1, pos, bytes_of("version:")) {
            lemma_space_same(s1, s2, p, e);
            lemma_number_same(s1, s2, spec_space0(s1, p), e);
            if let Some((_, q)) = spec_number(s1, spec_space0(s1, p)) {
                lemma_newline_same(s1, s2, q, e);
            }
        }
    }
}

/// The creator line is the same in both buffers.
proof fn lemma_creator_prefix(s1: Seq<u8>, s2: Seq<u8>, pos: int)
    requires
        goes_on_with_garbage(s1, s2),
        0 <= pos <= s1.len(),
    ensures
        spec_creator(s1, pos) == spec_creator(s2, pos),
        spec_creator(s1, pos) matches Some((_, end)) ==> pos <= end <= s1.len(),
{
    lemma_literals_hold_no_newline();
    lemma_garbage_facts(s1, s2);
    let e = s1.len() - 1;
    if pos < s1.len() {
        assert(same_line(s1, s2, pos, e));
        lemma_tag_same(s1, s2, pos, e, bytes_of("creator:"));
        if let Some(p) = spec_tag(s1, pos, bytes_of("creator:")) {
            lemma_no_newline_chars_same(s1, s2, p, e);
            if let Some((_, q)) = spec_no_newline_chars(s1, p) {
                lemma_newline_same(s1, s2, q, e);
            }
        }
    }
}

/// Where a buffer of whole lines goes on with bytes of which nothing can be
/// read as part of a profile, what is read as a profile is what is read of
/// the lines alone, and ends where it ends there.
pub proof fn lemma_garbage_changes_nothing(s1: Seq<u8>, s2: Seq<u8>)
    requires
        goes_on_with_garbage(s1, s2),
    ensures
        spec_callgrind(s2) == spec_callgrind(s1),
{
    lemma_garbage_facts(s1, s2);
    lemma_format_spec_prefix(s1, s2);
    let p = match spec_format_spec(s1, 0) {
        Some(p) => p,
        None => 0,
    };
    lemma_format_version_prefix(s1, s2, p);
    let q = match spec_format_version(s1, p) {
        Some((_, q)) => q,
        None => p,
    };
    lemma_creator_prefix(s1, s2, q);
    let r = match spec_creator(s1, q) {
        Some((_, r)) => r,
        None => q,
    };
    lemma_parts_prefix(s1, s2, r);
}

/// Behind a buffer that is a profile from its first byte to its last, bytes
/// of which nothing can be read as part of a profile are left over: the same
/// profile is read, and the rule ends where the first buffer ends.
pub proof fn lemma_garbage_behind_profile(text: Seq<u8>, garbage: Seq<u8>)
    requires
        spec_callgrind(text).1 == text.len(),
        garbage.len() > 0,
        profile_stops(text + garbage, text.len() as int),
    ensures
        spec_callgrind(text + garbage) == spec_callgrind(text),
        spec_callgrind(text + garbage).1 < (text + garbage).len(),
{
    let s = text + garbage;
    lemma_profile_ends_line(text);
    assert(is_prefix(text, s));
    lemma_garbage_changes_nothing(text, s);
}

/// Bytes that start with one at which no line can start are bytes of which
/// nothing can be read as part of a profile.
pub proof fn lemma_garbage_by_first_byte(text: Seq<u8>, garbage: Seq<u8>)
    requires
        garbage.len() > 0,
        !can_start_line(garbage[0]),
    ensures
        profile_stops(text + garbage, text.len() as int),
{
    let s = text + garbage;
    assert(s[text.len() as int] == garbage[0]);
    lemma_profile_stops(s, text.len() as int);
}

} // verus!
