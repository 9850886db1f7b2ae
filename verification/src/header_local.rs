//! Line locality of the header grammar: a header rule that starts in a line
//! gives the same in two buffers that hold the same line.

use crate::header::{
    lemma_inherited_term_bounds, spec_cost_line_def, spec_description, spec_event_specification,
    spec_header_alternatives, spec_inherited_def, spec_inherited_more, spec_inherited_term,
    spec_keyword_id, spec_long_name_def, spec_names_more, spec_part_detail, spec_target_command,
    spec_target_spec,
};
use crate::lexical::{
    bytes_of, lemma_name_bounds, spec_name, spec_number, spec_space0, spec_space1, spec_tag,
};
use crate::line_local::{
    lemma_literals_hold_no_newline, lemma_name_same, lemma_no_newline_chars_same,
    lemma_number_same, lemma_space_same, lemma_tag_same, no_newline_in, same_line,
};
use vstd::prelude::*;

verus! {

/// A `cmd:` line is the same in both buffers.
pub proof fn lemma_target_command_same(s1: Seq<u8>, s2: Seq<u8>, pos: int, e: int)
    requires
        same_line(s1, s2, pos, e),
    ensures
        spec_target_command(s1, pos) == spec_target_command(s2, pos),
        spec_target_command(s1, pos) matches Some((_, end)) ==> pos <= end <= e,
{
    lemma_literals_hold_no_newline();
    lemma_tag_same(s1, s2, pos, e, bytes_of("cmd:"));
    if let Some(p) = spec_tag(s1, pos, bytes_of("cmd:")) {
        lemma_space_same(s1, s2, p, e);
        lemma_no_newline_chars_same(s1, s2, spec_space0(s1, p), e);
    }
}

/// What follows the keyword of an id line is the same in both buffers.
pub proof fn lemma_target_spec_same(s1: Seq<u8>, s2: Seq<u8>, pos: int, e: int)
    requires
        same_line(s1, s2, pos, e),
    ensures
        spec_target_spec(s1, pos) == spec_target_spec(s2, pos),
        spec_target_spec(s1, pos) matches Some((_, end)) ==> pos <= end <= e,
{
    lemma_literals_hold_no_newline();
    lemma_tag_same(s1, s2, pos, e, bytes_of(":"));
    if let Some(p) = spec_tag(s1, pos, bytes_of(":")) {
        lemma_space_same(s1, s2, p, e);
        lemma_number_same(s1, s2, spec_space0(s1, p), e);
    }
}

/// A keyword with its id is the same in both buffers.
pub proof fn lemma_keyword_id_same(s1: Seq<u8>, s2: Seq<u8>, pos: int, e: int, keyword: Seq<u8>)
    requires
        same_line(s1, s2, pos, e),
        no_newline_in(keyword),
    ensures
        spec_keyword_id(s1, pos, keyword) == spec_keyword_id(s2, pos, keyword),
        spec_keyword_id(s1, pos, keyword) matches Some((_, end)) ==> pos <= end <= e,
{
    lemma_tag_same(s1, s2, pos, e, keyword);
    if let Some(p) = spec_tag(s1, pos, keyword) {
        lemma_target_spec_same(s1, s2, p, e);
    }
}

/// A `cmd:` line or an id line is the same in both buffers.
pub proof fn lemma_part_detail_same(s1: Seq<u8>, s2: Seq<u8>, pos: int, e: int)
    requires
        same_line(s1, s2, pos, e),
    ensures
        spec_part_detail(s1, pos) == spec_part_detail(s2, pos),
        spec_part_detail(s1, pos) matches Some((_, end)) ==> pos <= end <= e,
{
    lemma_literals_hold_no_newline();
    lemma_target_command_same(s1, s2, pos, e);
    lemma_keyword_id_same(s1, s2, pos, e, bytes_of("pid"));
    lemma_keyword_id_same(s1, s2, pos, e, bytes_of("thread"));
    lemma_keyword_id_same(s1, s2, pos, e, bytes_of("part"));
}

/// A `desc:` line is the same in both buffers.
pub proof fn lemma_description_same(s1: Seq<u8>, s2: Seq<u8>, pos: int, e: int)
    requires
        same_line(s1, s2, pos, e),
    ensures
        spec_description(s1, pos) == spec_description(s2, pos),
        spec_description(s1, pos) matches Some((_, end)) ==> pos <= end <= e,
{
    lemma_literals_hold_no_newline();
    lemma_tag_same(s1, s2, pos, e, bytes_of("desc:"));
    if let Some(p) = spec_tag(s1, pos, bytes_of("desc:")) {
        lemma_space_same(s1, s2, p, e);
        lemma_name_same(s1, s2, spec_space0(s1, p), e);
        if let Some((_, q)) = spec_name(s1, spec_space0(s1, p)) {
            lemma_space_same(s1, s2, q, e);
            lemma_tag_same(s1, s2, spec_space0(s1, q), e, bytes_of(":"));
            if let Some(r) = spec_tag(s1, spec_space0(s1, q), bytes_of(":")) {
                lemma_no_newline_chars_same(s1, s2, r, e);
            }
        }
    }
}

/// A term of an inherited event is the same in both buffers.
pub proof fn lemma_inherited_term_same(s1: Seq<u8>, s2: Seq<u8>, pos: int, e: int)
    requires
        same_line(s1, s2, pos, e),
    ensures
        spec_inherited_term(s1, pos) == spec_inherited_term(s2, pos),
        spec_inherited_term(s1, pos) matches Some((_, end)) ==> pos < end <= e,
{
    lemma_literals_hold_no_newline();
    lemma_inherited_term_bounds(s1, pos);
    lemma_name_same(s1, s2, pos, e);
    lemma_number_same(s1, s2, pos, e);
    if let Some((_, p)) = spec_number(s1, pos) {
        lemma_space_same(s1, s2, p, e);
        let q = spec_space0(s1, p);
        lemma_tag_same(s1, s2, q, e, bytes_of("*"));
        let r = match spec_tag(s1, q, bytes_of("*")) {
            Some(t) => {
                lemma_space_same(s1, s2, t, e);
                spec_space0(s1, t)
            },
            None => q,
        };
        lemma_name_same(s1, s2, r, e);
    }
}

/// The terms behind the first are the same in both buffers.
pub proof fn lemma_inherited_more_same(s1: Seq<u8>, s2: Seq<u8>, pos: int, e: int)
    requires
        same_line(s1, s2, pos, e),
    ensures
        spec_inherited_more(s1, pos) == spec_inherited_more(s2, pos),
        pos <= spec_inherited_more(s1, pos).1 <= e,
    decreases e - pos,
{
    lemma_literals_hold_no_newline();
    lemma_space_same(s1, s2, pos, e);
    lemma_tag_same(s1, s2, spec_space0(s1, pos), e, bytes_of("+"));
    if let Some(p) = spec_tag(s1, spec_space0(s1, pos), bytes_of("+")) {
        lemma_space_same(s1, s2, p, e);
        lemma_inherited_term_same(s1, s2, spec_space0(s1, p), e);
        if let Some((_, end)) = spec_inherited_term(s1, spec_space0(s1, p)) {
            lemma_inherited_more_same(s1, s2, end, e);
        }
    }
}

/// The definition of an inherited event is the same in both buffers.
pub proof fn lemma_inherited_def_same(s1: Seq<u8>, s2: Seq<u8>, pos: int, e: int)
    requires
        same_line(s1, s2, pos, e),
    ensures
        spec_inherited_def(s1, pos) == spec_inherited_def(s2, pos),
        spec_inherited_def(s1, pos) matches Some((_, end)) ==> pos <= end <= e,
{
    lemma_literals_hold_no_newline();
    lemma_tag_same(s1, s2, pos, e, bytes_of("="));
    if let Some(p) = spec_tag(s1, pos, bytes_of("=")) {
        lemma_space_same(s1, s2, p, e);
        let q = spec_space0(s1, p);
        lemma_inherited_term_same(s1, s2, q, e);
        if let Some((_, end)) = spec_inherited_term(s1, q) {
            lemma_inherited_more_same(s1, s2, end, e);
        }
    }
}

/// The long name of an event is the same in both buffers.
pub proof fn lemma_long_name_def_same(s1: Seq<u8>, s2: Seq<u8>, pos: int, e: int)
    requires
        same_line(s1, s2, pos, e),
    ensures
        spec_long_name_def(s1, pos) == spec_long_name_def(s2, pos),
        spec_long_name_def(s1, pos) matches Some((_, end)) ==> pos <= end <= e,
{
    lemma_literals_hold_no_newline();
    lemma_tag_same(s1, s2, pos, e, bytes_of(":"));
    if let Some(p) = spec_tag(s1, pos, bytes_of(":")) {
        lemma_space_same(s1, s2, p, e);
        lemma_no_newline_chars_same(s1, s2, spec_space0(s1, p), e);
    }
}

/// An `event:` line is the same in both buffers.
pub proof fn lemma_event_specification_same(s1: Seq<u8>, s2: Seq<u8>, pos: int, e: int)
    requires
        same_line(s1, s2, pos, e),
    ensures
        spec_event_specification(s1, pos) == spec_event_specification(s2, pos),
        spec_event_specification(s1, pos) matches Some((_, end)) ==> pos <= end <= e,
{
    lemma_literals_hold_no_newline();
    lemma_tag_same(s1, s2, pos, e, bytes_of("event:"));
    if let Some(p) = spec_tag(s1, pos, bytes_of("event:")) {
        lemma_space_same(s1, s2, p, e);
        lemma_name_same(s1, s2, spec_space0(s1, p), e);
        if let Some((_, q)) = spec_name(s1, spec_space0(s1, p)) {
            lemma_space_same(s1, s2, q, e);
            let q = spec_space0(s1, q);
            lemma_inherited_def_same(s1, s2, q, e);
            let r = match spec_inherited_def(s1, q) {
                Some((_, r)) => r,
                None => q,
            };
            lemma_long_name_def_same(s1, s2, r, e);
        }
    }
}

/// The identifiers behind the first are the same in both buffers.
pub proof fn lemma_names_more_same(s1: Seq<u8>, s2: Seq<u8>, pos: int, e: int)
    requires
        same_line(s1, s2, pos, e),
    ensures
        spec_names_more(s1, pos) == spec_names_more(s2, pos),
        pos <= spec_names_more(s1, pos).1 <= e,
    decreases e - pos,
{
    lemma_space_same(s1, s2, pos, e);
    if let Some(p) = spec_space1(s1, pos) {
        lemma_name_same(s1, s2, p, e);
        lemma_name_bounds(s1, p);
        if let Some((_, end)) = spec_name(s1, p) {
            lemma_names_more_same(s1, s2, end, e);
        }
    }
}

/// An `events:` or `positions:` line is the same in both buffers.
pub proof fn lemma_cost_line_def_same(s1: Seq<u8>, s2: Seq<u8>, pos: int, e: int)
    requires
        same_line(s1, s2, pos, e),
    ensures
        spec_cost_line_def(s1, pos) == spec_cost_line_def(s2, pos),
        spec_cost_line_def(s1, pos) matches Some((_, end)) ==> pos <= end <= e,
{
    lemma_literals_hold_no_newline();
    lemma_tag_same(s1, s2, pos, e, bytes_of("events:"));
    if let Some(p) = spec_tag(s1, pos, bytes_of("events:")) {
        lemma_space_same(s1, s2, p, e);
        lemma_name_same(s1, s2, spec_space0(s1, p), e);
        if let Some((_, q)) = spec_name(s1, spec_space0(s1, p)) {
            lemma_names_more_same(s1, s2, q, e);
        }
    }
    lemma_tag_same(s1, s2, pos, e, bytes_of("positions:"));
    if let Some(p) = spec_tag(s1, pos, bytes_of("positions:")) {
        lemma_space_same(s1, s2, p, e);
        let q = spec_space0(s1, p);
        lemma_tag_same(s1, s2, q, e, bytes_of("instr"));
        let r = match spec_tag(s1, q, bytes_of("instr")) {
            Some(r) => r,
            None => q,
        };
        lemma_space_same(s1, s2, r, e);
        if let Some(t) = spec_space1(s1, r) {
            lemma_tag_same(s1, s2, t, e, bytes_of("line"));
        }
    }
}

/// A header line of whatever kind, behind the lines that are skipped, is the
/// same in both buffers.
pub proof fn lemma_header_alternatives_same(s1: Seq<u8>, s2: Seq<u8>, pos: int, e: int)
    requires
        same_line(s1, s2, pos, e),
    ensures
        spec_header_alternatives(s1, pos) == spec_header_alternatives(s2, pos),
        spec_header_alternatives(s1, pos) matches Some((_, end)) ==> pos <= end <= e,
{
    reveal(spec_header_alternatives);
    lemma_part_detail_same(s1, s2, pos, e);
    lemma_description_same(s1, s2, pos, e);
    lemma_event_specification_same(s1, s2, pos, e);
    lemma_cost_line_def_same(s1, s2, pos, e);
}

} // verus!
