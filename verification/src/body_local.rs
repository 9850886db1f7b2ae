//! Line locality of the body grammar: a body rule that starts in a line
//! gives the same in two buffers that hold the same line. A call reads a
//! second line, its cost line.

use crate::body::{
    lemma_sub_position_bounds, spec_body_alternatives, spec_call_line, spec_call_spec,
    spec_cond_jump_spec, spec_cost_line, spec_position, spec_position_id, spec_position_name,
    spec_position_spec, spec_signed, spec_sub_position, spec_sub_position_list,
    spec_sub_positions_more, spec_target, spec_uncond_jump_spec,
};
use crate::lexical::{bytes_of, spec_number, spec_space0, spec_space1, spec_tag};
use crate::line_local::{
    lemma_literals_hold_no_newline, lemma_newline_same, lemma_no_newline_chars_same,
    lemma_number_same, lemma_space_same, lemma_tag_same, no_newline_in, same_line,
};
use vstd::prelude::*;

verus! {

/// A sign with its integer is the same in both buffers.
pub proof fn lemma_signed_same(s1: Seq<u8>, s2: Seq<u8>, pos: int, e: int, sign: Seq<u8>)
    requires
        same_line(s1, s2, pos, e),
        no_newline_in(sign),
    ensures
        spec_signed(s1, pos, sign) == spec_signed(s2, pos, sign),
        spec_signed(s1, pos, sign) matches Some((_, end)) ==> pos <= end <= e,
{
    lemma_tag_same(s1, s2, pos, e, sign);
    if let Some(p) = spec_tag(s1, pos, sign) {
        lemma_number_same(s1, s2, p, e);
    }
}

/// A sub-position is the same in both buffers.
pub proof fn lemma_sub_position_same(s1: Seq<u8>, s2: Seq<u8>, pos: int, e: int)
    requires
        same_line(s1, s2, pos, e),
    ensures
        spec_sub_position(s1, pos) == spec_sub_position(s2, pos),
        spec_sub_position(s1, pos) matches Some((_, end)) ==> pos < end <= e,
{
    lemma_literals_hold_no_newline();
    lemma_sub_position_bounds(s1, pos);
    lemma_number_same(s1, s2, pos, e);
    lemma_signed_same(s1, s2, pos, e, bytes_of("+"));
    lemma_signed_same(s1, s2, pos, e, bytes_of("-"));
    lemma_tag_same(s1, s2, pos, e, bytes_of("*"));
}

/// The sub-positions behind the first are the same in both buffers.
pub proof fn lemma_sub_positions_more_same(s1: Seq<u8>, s2: Seq<u8>, pos: int, e: int)
    requires
        same_line(s1, s2, pos, e),
    ensures
        spec_sub_positions_more(s1, pos) == spec_sub_positions_more(s2, pos),
        pos <= spec_sub_positions_more(s1, pos).1 <= e,
    decreases e - pos,
{
    lemma_space_same(s1, s2, pos, e);
    if let Some(p) = spec_space1(s1, pos) {
        lemma_sub_position_same(s1, s2, p, e);
        if let Some((_, end)) = spec_sub_position(s1, p) {
            lemma_sub_positions_more_same(s1, s2, end, e);
        }
    }
}

/// A list of sub-positions, and so a cost line, is the same in both
/// buffers.
pub proof fn lemma_sub_position_list_same(s1: Seq<u8>, s2: Seq<u8>, pos: int, e: int)
    requires
        same_line(s1, s2, pos, e),
    ensures
        spec_sub_position_list(s1, pos) == spec_sub_position_list(s2, pos),
        spec_sub_position_list(s1, pos) matches Some((_, end)) ==> pos <= end <= e,
        spec_cost_line(s1, pos) == spec_cost_line(s2, pos),
        spec_cost_line(s1, pos) matches Some((_, end)) ==> pos <= end <= e,
{
    lemma_sub_position_same(s1, s2, pos, e);
    if let Some((_, end)) = spec_sub_position(s1, pos) {
        lemma_sub_positions_more_same(s1, s2, end, e);
    }
}

/// The kind of a position line is the same in both buffers.
pub proof fn lemma_position_same(s1: Seq<u8>, s2: Seq<u8>, pos: int, e: int)
    requires
        same_line(s1, s2, pos, e),
    ensures
        spec_position(s1, pos) == spec_position(s2, pos),
        spec_position(s1, pos) matches Some((_, end)) ==> pos <= end <= e,
{
    lemma_literals_hold_no_newline();
    lemma_tag_same(s1, s2, pos, e, bytes_of("cob"));
    lemma_tag_same(s1, s2, pos, e, bytes_of("cfi"));
    lemma_tag_same(s1, s2, pos, e, bytes_of("cfl"));
    lemma_tag_same(s1, s2, pos, e, bytes_of("cfn"));
    lemma_tag_same(s1, s2, pos, e, bytes_of("ob"));
    lemma_tag_same(s1, s2, pos, e, bytes_of("fl"));
    lemma_tag_same(s1, s2, pos, e, bytes_of("fi"));
    lemma_tag_same(s1, s2, pos, e, bytes_of("fe"));
    lemma_tag_same(s1, s2, pos, e, bytes_of("fn"));
}

/// A reference into the name table is the same in both buffers.
pub proof fn lemma_position_id_same(s1: Seq<u8>, s2: Seq<u8>, pos: int, e: int)
    requires
        same_line(s1, s2, pos, e),
    ensures
        spec_position_id(s1, pos) == spec_position_id(s2, pos),
        spec_position_id(s1, pos) matches Some((_, end)) ==> pos <= end <= e,
{
    lemma_literals_hold_no_newline();
    lemma_tag_same(s1, s2, pos, e, bytes_of("("));
    if let Some(p) = spec_tag(s1, pos, bytes_of("(")) {
        lemma_number_same(s1, s2, p, e);
        if let Some((_, q)) = spec_number(s1, p) {
            lemma_tag_same(s1, s2, q, e, bytes_of(")"));
        }
    }
}

/// What a position line assigns is the same in both buffers.
pub proof fn lemma_position_name_same(s1: Seq<u8>, s2: Seq<u8>, pos: int, e: int)
    requires
        same_line(s1, s2, pos, e),
    ensures
        spec_position_name(s1, pos) == spec_position_name(s2, pos),
        pos <= spec_position_name(s1, pos).1 <= e,
{
    lemma_position_id_same(s1, s2, pos, e);
    let p = match spec_position_id(s1, pos) {
        Some((_, p)) => p,
        None => pos,
    };
    lemma_space_same(s1, s2, p, e);
    lemma_no_newline_chars_same(s1, s2, spec_space0(s1, p), e);
}

/// A position line is the same in both buffers.
pub proof fn lemma_position_spec_same(s1: Seq<u8>, s2: Seq<u8>, pos: int, e: int)
    requires
        same_line(s1, s2, pos, e),
    ensures
        spec_position_spec(s1, pos) == spec_position_spec(s2, pos),
        spec_position_spec(s1, pos) matches Some((_, end)) ==> pos <= end <= e,
{
    lemma_literals_hold_no_newline();
    lemma_position_same(s1, s2, pos, e);
    if let Some((_, p)) = spec_position(s1, pos) {
        lemma_tag_same(s1, s2, p, e, bytes_of("="));
        if let Some(q) = spec_tag(s1, p, bytes_of("=")) {
            lemma_space_same(s1, s2, q, e);
            lemma_position_name_same(s1, s2, spec_space0(s1, q), e);
        }
    }
}

/// A keyword with its integer and the space behind it is the same in both
/// buffers.
pub proof fn lemma_target_same(s1: Seq<u8>, s2: Seq<u8>, pos: int, e: int, keyword: Seq<u8>)
    requires
        same_line(s1, s2, pos, e),
        no_newline_in(keyword),
    ensures
        spec_target(s1, pos, keyword) == spec_target(s2, pos, keyword),
        spec_target(s1, pos, keyword) matches Some((_, end)) ==> pos <= end <= e,
{
    lemma_tag_same(s1, s2, pos, e, keyword);
    if let Some(p) = spec_tag(s1, pos, keyword) {
        lemma_space_same(s1, s2, p, e);
        lemma_number_same(s1, s2, spec_space0(s1, p), e);
        if let Some((_, q)) = spec_number(s1, spec_space0(s1, p)) {
            lemma_space_same(s1, s2, q, e);
        }
    }
}

/// The first line of a call is the same in both buffers.
pub proof fn lemma_call_line_same(s1: Seq<u8>, s2: Seq<u8>, pos: int, e: int)
    requires
        same_line(s1, s2, pos, e),
    ensures
        spec_call_line(s1, pos) == spec_call_line(s2, pos),
        spec_call_line(s1, pos) matches Some((_, end)) ==> pos <= end <= e,
{
    lemma_literals_hold_no_newline();
    lemma_target_same(s1, s2, pos, e, bytes_of("calls="));
    if let Some((_, p)) = spec_target(s1, pos, bytes_of("calls=")) {
        lemma_sub_position_list_same(s1, s2, p, e);
    }
}

/// A call is the same in both buffers where its cost line is: where it
/// starts before the last newline that the buffers share, or where neither
/// buffer has a cost line behind that newline.
pub proof fn lemma_call_spec_same(s1: Seq<u8>, s2: Seq<u8>, pos: int, e: int)
    requires
        same_line(s1, s2, pos, e),
        spec_cost_line(s1, e + 1) is None,
        spec_cost_line(s2, e + 1) is None,
    ensures
        spec_call_spec(s1, pos) == spec_call_spec(s2, pos),
        spec_call_spec(s1, pos) matches Some((_, end)) ==> pos <= end <= e,
{
    lemma_call_line_same(s1, s2, pos, e);
    if let Some((_, p)) = spec_call_line(s1, pos) {
        lemma_newline_same(s1, s2, p, e);
        if let Some(q) = spec_tag(s1, p, bytes_of("\n")) {
            if q <= e {
                lemma_sub_position_list_same(s1, s2, q, e);
            }
        }
    }
}

/// A jump is the same in both buffers.
pub proof fn lemma_uncond_jump_spec_same(s1: Seq<u8>, s2: Seq<u8>, pos: int, e: int)
    requires
        same_line(s1, s2, pos, e),
    ensures
        spec_uncond_jump_spec(s1, pos) == spec_uncond_jump_spec(s2, pos),
        spec_uncond_jump_spec(s1, pos) matches Some((_, end)) ==> pos <= end <= e,
{
    lemma_literals_hold_no_newline();
    lemma_target_same(s1, s2, pos, e, bytes_of("jump="));
    if let Some((_, p)) = spec_target(s1, pos, bytes_of("jump=")) {
        lemma_sub_position_list_same(s1, s2, p, e);
    }
}

/// A conditional jump is the same in both buffers.
pub proof fn lemma_cond_jump_spec_same(s1: Seq<u8>, s2: Seq<u8>, pos: int, e: int)
    requires
        same_line(s1, s2, pos, e),
    ensures
        spec_cond_jump_spec(s1, pos) == spec_cond_jump_spec(s2, pos),
        spec_cond_jump_spec(s1, pos) matches Some((_, end)) ==> pos <= end <= e,
{
    lemma_literals_hold_no_newline();
    lemma_target_same(s1, s2, pos, e, bytes_of("jcnd="));
    if let Some((_, p)) = spec_target(s1, pos, bytes_of("jcnd=")) {
        lemma_number_same(s1, s2, p, e);
        if let Some((_, q)) = spec_number(s1, p) {
            lemma_space_same(s1, s2, q, e);
            if let Some(r) = spec_space1(s1, q) {
                lemma_sub_position_list_same(s1, s2, r, e);
            }
        }
    }
}

/// A body line of whatever kind, behind the lines that are skipped, is the
/// same in both buffers, where neither has a cost line behind the last
/// newline that they share.
pub proof fn lemma_body_alternatives_same(s1: Seq<u8>, s2: Seq<u8>, pos: int, e: int)
    requires
        same_line(s1, s2, pos, e),
        spec_cost_line(s1, e + 1) is None,
        spec_cost_line(s2, e + 1) is None,
    ensures
        spec_body_alternatives(s1, pos) == spec_body_alternatives(s2, pos),
        spec_body_alternatives(s1, pos) matches Some((_, end)) ==> pos <= end <= e,
{
    reveal(spec_body_alternatives);
    lemma_position_spec_same(s1, s2, pos, e);
    lemma_call_spec_same(s1, s2, pos, e);
    lemma_uncond_jump_spec_same(s1, s2, pos, e);
    lemma_cond_jump_spec_same(s1, s2, pos, e);
    lemma_sub_position_list_same(s1, s2, pos, e);
}

} // verus!
