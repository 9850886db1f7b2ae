//! The body grammar: cost lines, position lines, calls and jumps.

use crate::classes::{lemma_run_end, ByteClass};
use crate::error::{agrees, malformed, ParseError, Rule};
use crate::lexical::{
    bytes_of, comment_or_empty, lemma_ascii_literal, lemma_comment_or_empty_bounds,
    lemma_no_newline_chars_bounds, lemma_number_bounds, no_newline_chars, number, space0,
    space1, spec_comment_or_empty, spec_no_newline_chars, spec_number, spec_space0, spec_space1,
    spec_tag, tag,
};
use crate::model::{
    lemma_deep_view_push, BodyLine, BodyLineView, CostLine, CostLineView, Position,
    PositionType, PositionView, SubDirection, SubPosition,
};
use vstd::prelude::*;

verus! {

/// A sign and the integer behind it.
pub open spec fn spec_signed(s: Seq<u8>, pos: int, sign: Seq<u8>) -> Option<(u32, int)> {
    match spec_tag(s, pos, sign) {
        Some(p) => spec_number(s, p),
        None => None,
    }
}

/// A sub-position: an integer, `+` or `-` and an integer, or `*`.
pub open spec fn spec_sub_position(s: Seq<u8>, pos: int) -> Option<(SubPosition, int)> {
    if let Some((n, end)) = spec_number(s, pos) {
        Some((SubPosition::Absolute(n), end))
    } else if let Some((n, end)) = spec_signed(s, pos, bytes_of("+")) {
        Some((SubPosition::Relative(SubDirection::Plus, n), end))
    } else if let Some((n, end)) = spec_signed(s, pos, bytes_of("-")) {
        Some((SubPosition::Relative(SubDirection::Minus, n), end))
    } else if let Some(end) = spec_tag(s, pos, bytes_of("*")) {
        Some((SubPosition::Same, end))
    } else {
        None
    }
}

/// A sub-position takes one byte at least and ends inside the buffer.
pub proof fn lemma_sub_position_bounds(s: Seq<u8>, pos: int)
    requires
        0 <= pos <= s.len(),
    ensures
        spec_sub_position(s, pos) matches Some((_, end)) ==> pos < end <= s.len(),
{
    lemma_number_bounds(s, pos);
    if let Some(p) = spec_tag(s, pos, bytes_of("+")) {
        lemma_number_bounds(s, p);
    }
    if let Some(p) = spec_tag(s, pos, bytes_of("-")) {
        lemma_number_bounds(s, p);
    }
    reveal_strlit("*");
    lemma_ascii_literal("*");
}

/// Parses a sign and the integer behind it.
fn signed(input: &[u8], pos: usize, sign: &str) -> (r: Option<(u32, usize)>)
    ensures
        match r {
            Some((n, end)) => spec_signed(input@, pos as int, bytes_of(sign)) == Some(
                (n, end as int),
            ) && pos < end <= input@.len(),
            None => spec_signed(input@, pos as int, bytes_of(sign)) is None,
        },
{
    let Some(p) = tag(input, pos, sign) else {
        return None;
    };
    match number(input, p) {
        Ok((n, end)) => Some((n, end)),
        Err(_) => None,
    }
}

/// Parses one sub-position at `pos`.
pub fn sub_position(input: &[u8], pos: usize) -> (r: Result<(SubPosition, usize), ParseError>)
    ensures
        agrees(r, spec_sub_position(input@, pos as int), Rule::SubPosition, pos),
        r matches Ok((_, end)) ==> pos < end <= input@.len(),
{
    if let Ok((n, end)) = number(input, pos) {
        return Ok((SubPosition::Absolute(n), end));
    }
    if let Some((n, end)) = signed(input, pos, "+") {
        return Ok((SubPosition::Relative(SubDirection::Plus, n), end));
    }
    if let Some((n, end)) = signed(input, pos, "-") {
        return Ok((SubPosition::Relative(SubDirection::Minus, n), end));
    }
    match tag(input, pos, "*") {
        Some(end) => {
            proof {
                reveal_strlit("*");
                lemma_ascii_literal("*");
            }
            Ok((SubPosition::Same, end))
        },
        None => Err(malformed(Rule::SubPosition, pos)),
    }
}

/// The sub-positions behind the first: each behind one or more spaces, as
/// many as there are.
pub open spec fn spec_sub_positions_more(s: Seq<u8>, pos: int) -> (Seq<SubPosition>, int)
    decreases s.len() - pos,
    via spec_sub_positions_more_decreases
{
    if 0 <= pos <= s.len() {
        match spec_space1(s, pos) {
            Some(p) => match spec_sub_position(s, p) {
                Some((item, end)) => (
                    seq![item] + spec_sub_positions_more(s, end).0,
                    spec_sub_positions_more(s, end).1,
                ),
                None => (Seq::empty(), pos),
            },
            None => (Seq::empty(), pos),
        }
    } else {
        (Seq::empty(), pos)
    }
}

/// Each further sub-position starts behind the one before.
#[via_fn]
proof fn spec_sub_positions_more_decreases(s: Seq<u8>, pos: int) {
    if 0 <= pos <= s.len() {
        lemma_run_end(s, pos, ByteClass::Space);
        if let Some(p) = spec_space1(s, pos) {
            lemma_sub_position_bounds(s, p);
        }
    }
}

/// A list of sub-positions: one or more, with space between them, as many as
/// there are.
pub open spec fn spec_sub_position_list(s: Seq<u8>, pos: int) -> Option<(Seq<SubPosition>, int)> {
    match spec_sub_position(s, pos) {
        Some((item, end)) => Some(
            (seq![item] + spec_sub_positions_more(s, end).0, spec_sub_positions_more(s, end).1),
        ),
        None => None,
    }
}

/// Parses a list of sub-positions at `pos`.
pub fn sub_position_list(input: &[u8], pos: usize) -> (r: Result<
    (Vec<SubPosition>, usize),
    ParseError,
>)
    ensures
        agrees(r, spec_sub_position_list(input@, pos as int), Rule::SubPositionList, pos),
        r matches Ok((items, end)) ==> pos < end <= input@.len() && items@.len() > 0,
{
    let Ok((first, first_end)) = sub_position(input, pos) else {
        return Err(malformed(Rule::SubPositionList, pos));
    };
    let mut items: Vec<SubPosition> = Vec::new();
    let ghost none = items;
    items.push(first);
    proof {
        lemma_deep_view_push(none, items, first);
        assert(items.deep_view() =~= seq![first]);
    }
    let mut at: usize = first_end;
    loop
        invariant
            pos < at <= input@.len(),
            items@.len() > 0,
            spec_sub_position_list(input@, pos as int) == Some(
                (
                    items.deep_view() + spec_sub_positions_more(input@, at as int).0,
                    spec_sub_positions_more(input@, at as int).1,
                ),
            ),
        decreases input@.len() - at,
    {
        let Ok(p) = space1(input, at) else {
            assert(items.deep_view() + Seq::<SubPosition>::empty() =~= items.deep_view());
            return Ok((items, at));
        };
        let Ok((item, end)) = sub_position(input, p) else {
            assert(items.deep_view() + Seq::<SubPosition>::empty() =~= items.deep_view());
            return Ok((items, at));
        };
        let ghost before = items;
        let ghost rest = spec_sub_positions_more(input@, end as int).0;
        items.push(item);
        proof {
            lemma_deep_view_push(before, items, item);
            assert(items.deep_view() + rest =~= before.deep_view() + (seq![item] + rest));
        }
        at = end;
    }
}

/// How many of the last columns are plain integers.
pub open spec fn trailing_absolutes(items: Seq<SubPosition>) -> nat
    decreases items.len(),
{
    if items.len() > 0 && items.last() is Absolute {
        1 + trailing_absolutes(items.drop_last())
    } else {
        0
    }
}

/// How many columns of a cost line are cost values: the plain integers at its
/// end, all but the first column of the line.
pub open spec fn cost_count(items: Seq<SubPosition>) -> int {
    if items.len() == 0 {
        0
    } else if trailing_absolutes(items) < items.len() {
        trailing_absolutes(items) as int
    } else {
        items.len() - 1
    }
}

/// The integers that plain columns hold.
pub open spec fn absolute_values(items: Seq<SubPosition>) -> Seq<u32> {
    Seq::new(
        items.len(),
        |i: int|
            match items[i] {
                SubPosition::Absolute(n) => n,
                _ => 0,
            },
    )
}

/// The columns of a cost line, told apart: the cost values are the plain
/// integers at the end of the line, the sub-positions what stands before
/// them, and the first column is always a sub-position.
pub open spec fn split_columns_spec(items: Seq<SubPosition>) -> CostLineView {
    let k = cost_count(items);
    let n = items.len();
    CostLineView {
        positions: items.take(n - k),
        costs: if k > 0 {
            Some(absolute_values(items.skip(n - k)))
        } else {
            None
        },
    }
}

/// Tells the cost values of a cost line from its sub-positions.
pub fn split_columns(items: Vec<SubPosition>) -> (line: CostLine)
    ensures
        line.deep_view() == split_columns_spec(items.deep_view()),
{
    let n: usize = items.len();
    let ghost all = items.deep_view();
    assert(all =~= items@);
    assert(items@.take(n as int) =~= items@);
    let mut first_cost: usize = n;
    while first_cost > 1 && matches!(items[first_cost - 1], SubPosition::Absolute(_))
        invariant
            first_cost <= n == items@.len(),
            n > 0 ==> first_cost >= 1,
            forall|j: int| first_cost <= j < n ==> #[trigger] items@[j] is Absolute,
            trailing_absolutes(items@) == trailing_absolutes(items@.take(first_cost as int)) + (n
                - first_cost),
        decreases first_cost,
    {
        proof {
            assert(items@.take(first_cost as int).drop_last() =~= items@.take(first_cost - 1));
            assert(items@.take(first_cost as int).last() == items@[first_cost - 1]);
        }
        first_cost -= 1;
    }
    proof {
        assert(items@.take(n as int) =~= items@);
        if first_cost == 1 {
            assert(items@.take(1).drop_last() =~= Seq::<SubPosition>::empty());
        }
        assert(n - first_cost == cost_count(items@));
    }
    let mut positions: Vec<SubPosition> = Vec::new();
    let mut i: usize = 0;
    while i < first_cost
        invariant
            i <= first_cost <= n == items@.len(),
            forall|j: int| first_cost <= j < n ==> #[trigger] items@[j] is Absolute,
            positions@ == items@.take(i as int),
        decreases first_cost - i,
    {
        positions.push(items[i]);
        proof {
            assert(positions@ =~= items@.take(i + 1));
        }
        i += 1;
    }
    assert(positions.deep_view() =~= positions@);
    if first_cost == n {
        return CostLine { positions, costs: None };
    }
    let mut costs: Vec<u32> = Vec::new();
    while i < n
        invariant
            first_cost <= i <= n == items@.len(),
            forall|j: int| first_cost <= j < n ==> #[trigger] items@[j] is Absolute,
            costs@ == absolute_values(items@.subrange(first_cost as int, i as int)),
        decreases n - i,
    {
        match items[i] {
            SubPosition::Absolute(v) => {
                costs.push(v);
            },
            _ => {},
        }
        proof {
            assert(costs@ =~= absolute_values(items@.subrange(first_cost as int, i + 1)));
        }
        i += 1;
    }
    proof {
        assert(items@.subrange(first_cost as int, n as int) =~= items@.skip(first_cost as int));
        assert(costs.deep_view() =~= costs@);
    }
    CostLine { positions, costs: Some(costs) }
}

/// A cost line: a list of sub-positions as long as it goes, of which the
/// plain integers at the end are the cost values.
pub open spec fn spec_cost_line(s: Seq<u8>, pos: int) -> Option<(CostLineView, int)> {
    match spec_sub_position_list(s, pos) {
        Some((items, end)) => Some((split_columns_spec(items), end)),
        None => None,
    }
}

/// Parses a cost line at `pos`.
pub fn cost_line(input: &[u8], pos: usize) -> (r: Result<(CostLine, usize), ParseError>)
    ensures
        agrees(r, spec_cost_line(input@, pos as int), Rule::CostLine, pos),
        r matches Ok((_, end)) ==> pos < end <= input@.len(),
{
    match sub_position_list(input, pos) {
        Ok((items, end)) => Ok((split_columns(items), end)),
        Err(_) => Err(malformed(Rule::CostLine, pos)),
    }
}

/// The kind of a position line, by its spelling.
pub open spec fn spec_position(s: Seq<u8>, pos: int) -> Option<(PositionType, int)> {
    if let Some(end) = spec_tag(s, pos, bytes_of("cob")) {
        Some((PositionType::CallObject, end))
    } else if let Some(end) = spec_tag(s, pos, bytes_of("cfi")) {
        Some((PositionType::CallFile, end))
    } else if let Some(end) = spec_tag(s, pos, bytes_of("cfl")) {
        Some((PositionType::CallFile, end))
    } else if let Some(end) = spec_tag(s, pos, bytes_of("cfn")) {
        Some((PositionType::CallFunction, end))
    } else if let Some(end) = spec_tag(s, pos, bytes_of("ob")) {
        Some((PositionType::Object, end))
    } else if let Some(end) = spec_tag(s, pos, bytes_of("fl")) {
        Some((PositionType::File, end))
    } else if let Some(end) = spec_tag(s, pos, bytes_of("fi")) {
        Some((PositionType::File, end))
    } else if let Some(end) = spec_tag(s, pos, bytes_of("fe")) {
        Some((PositionType::File, end))
    } else if let Some(end) = spec_tag(s, pos, bytes_of("fn")) {
        Some((PositionType::Function, end))
    } else {
        None
    }
}

/// Parses the kind of a position line at `pos`.
pub fn position(input: &[u8], pos: usize) -> (r: Result<(PositionType, usize), ParseError>)
    ensures
        agrees(r, spec_position(input@, pos as int), Rule::PositionType, pos),
        r matches Ok((_, end)) ==> pos <= end <= input@.len(),
{
    if let Some(end) = tag(input, pos, "cob") {
        Ok((PositionType::CallObject, end))
    } else if let Some(end) = tag(input, pos, "cfi") {
        Ok((PositionType::CallFile, end))
    } else if let Some(end) = tag(input, pos, "cfl") {
        Ok((PositionType::CallFile, end))
    } else if let Some(end) = tag(input, pos, "cfn") {
        Ok((PositionType::CallFunction, end))
    } else if let Some(end) = tag(input, pos, "ob") {
        Ok((PositionType::Object, end))
    } else if let Some(end) = tag(input, pos, "fl") {
        Ok((PositionType::File, end))
    } else if let Some(end) = tag(input, pos, "fi") {
        Ok((PositionType::File, end))
    } else if let Some(end) = tag(input, pos, "fe") {
        Ok((PositionType::File, end))
    } else if let Some(end) = tag(input, pos, "fn") {
        Ok((PositionType::Function, end))
    } else {
        Err(malformed(Rule::PositionType, pos))
    }
}

/// A reference into the name table: an integer in round brackets.
pub open spec fn spec_position_id(s: Seq<u8>, pos: int) -> Option<(u32, int)> {
    match spec_tag(s, pos, bytes_of("(")) {
        Some(p) => match spec_number(s, p) {
            Some((id, q)) => match spec_tag(s, q, bytes_of(")")) {
                Some(end) => Some((id, end)),
                None => None,
            },
            None => None,
        },
        None => None,
    }
}

/// What a position line assigns: a reference where one stands, then the name
/// as the rest of the line behind optional space. A name of no characters is
/// no name; and where the line has no newline, nothing behind the reference
/// is taken.
pub open spec fn spec_position_name(s: Seq<u8>, pos: int) -> (PositionView, int) {
    let (id, p) = match spec_position_id(s, pos) {
        Some((id, p)) => (Some(id), p),
        None => (None, pos),
    };
    match spec_no_newline_chars(s, spec_space0(s, p)) {
        Some((text, end)) => (
            PositionView {
                id,
                val: if text.len() == 0 {
                    None
                } else {
                    Some(text)
                },
            },
            end,
        ),
        None => (PositionView { id, val: None }, p),
    }
}

/// Parses a reference into the name table at `pos`.
fn position_id(input: &[u8], pos: usize) -> (r: Option<(u32, usize)>)
    ensures
        match r {
            Some((id, end)) => spec_position_id(input@, pos as int) == Some((id, end as int))
                && pos <= end <= input@.len(),
            None => spec_position_id(input@, pos as int) is None,
        },
{
    let Some(p) = tag(input, pos, "(") else {
        return None;
    };
    let Ok((id, q)) = number(input, p) else {
        return None;
    };
    match tag(input, q, ")") {
        Some(end) => Some((id, end)),
        None => None,
    }
}

/// Parses what a position line assigns, at `pos`. This rule always matches.
pub fn position_name(input: &[u8], pos: usize) -> (r: (Position, usize))
    ensures
        spec_position_name(input@, pos as int) == (r.0.deep_view(), r.1 as int),
        pos <= r.1,
        r.1 <= input@.len() || r.1 == pos,
{
    let (id, p) = match position_id(input, pos) {
        Some((id, p)) => (Some(id), p),
        None => (None, pos),
    };
    let q = space0(input, p);
    match no_newline_chars(input, q) {
        Ok((text, end)) => {
            if text.as_str().is_empty() {
                (Position { id, val: None }, end)
            } else {
                (Position { id, val: Some(text) }, end)
            }
        },
        Err(_) => (Position { id, val: None }, p),
    }
}

/// A position line: its kind, `=`, optional space, and what it assigns.
pub open spec fn spec_position_spec(s: Seq<u8>, pos: int) -> Option<(BodyLineView, int)> {
    match spec_position(s, pos) {
        Some((kind, p)) => match spec_tag(s, p, bytes_of("=")) {
            Some(q) => {
                let (assigned, end) = spec_position_name(s, spec_space0(s, q));
                Some((BodyLineView::PositionSpec(kind, assigned), end))
            },
            None => None,
        },
        None => None,
    }
}

/// Parses a position line at `pos`.
pub fn position_spec(input: &[u8], pos: usize) -> (r: Result<(BodyLine, usize), ParseError>)
    ensures
        agrees(r, spec_position_spec(input@, pos as int), Rule::PositionSpec, pos),
        r matches Ok((_, end)) ==> pos <= end <= input@.len(),
{
    let Ok((kind, p)) = position(input, pos) else {
        return Err(malformed(Rule::PositionSpec, pos));
    };
    let Some(q) = tag(input, p, "=") else {
        return Err(malformed(Rule::PositionSpec, pos));
    };
    let q = space0(input, q);
    let (assigned, end) = position_name(input, q);
    Ok((BodyLine::PositionSpec(kind, assigned), end))
}

/// A keyword, optional space, an integer, one or more spaces.
pub open spec fn spec_target(s: Seq<u8>, pos: int, keyword: Seq<u8>) -> Option<(u32, int)> {
    match spec_tag(s, pos, keyword) {
        Some(p) => match spec_number(s, spec_space0(s, p)) {
            Some((n, q)) => match spec_space1(s, q) {
                Some(end) => Some((n, end)),
                None => None,
            },
            None => None,
        },
        None => None,
    }
}

/// Parses a keyword, its integer and the space behind it.
fn target(input: &[u8], pos: usize, keyword: &str) -> (r: Option<(u32, usize)>)
    ensures
        match r {
            Some((n, end)) => spec_target(input@, pos as int, bytes_of(keyword)) == Some(
                (n, end as int),
            ) && pos <= end <= input@.len(),
            None => spec_target(input@, pos as int, bytes_of(keyword)) is None,
        },
{
    let Some(p) = tag(input, pos, keyword) else {
        return None;
    };
    let p = space0(input, p);
    let Ok((n, q)) = number(input, p) else {
        return None;
    };
    match space1(input, q) {
        Ok(end) => Some((n, end)),
        Err(_) => None,
    }
}

/// The first line of a call: `calls=`, optional space, an integer, one or
/// more spaces, and a list of sub-positions.
pub open spec fn spec_call_line(s: Seq<u8>, pos: int) -> Option<((u32, Seq<SubPosition>), int)> {
    match spec_target(s, pos, bytes_of("calls=")) {
        Some((n, p)) => match spec_sub_position_list(s, p) {
            Some((items, end)) => Some(((n, items), end)),
            None => None,
        },
        None => None,
    }
}

/// Parses the first line of a call at `pos`.
pub fn call_line(input: &[u8], pos: usize) -> (r: Result<
    ((u32, Vec<SubPosition>), usize),
    ParseError,
>)
    ensures
        agrees(r, spec_call_line(input@, pos as int), Rule::CallLine, pos),
        r matches Ok((_, end)) ==> pos <= end <= input@.len(),
{
    let Some((n, p)) = target(input, pos, "calls=") else {
        return Err(malformed(Rule::CallLine, pos));
    };
    match sub_position_list(input, p) {
        Ok((items, end)) => Ok(((n, items), end)),
        Err(_) => Err(malformed(Rule::CallLine, pos)),
    }
}

/// A call: its first line, the newline, and at once the cost line that
/// belongs to it.
pub open spec fn spec_call_spec(s: Seq<u8>, pos: int) -> Option<(BodyLineView, int)> {
    match spec_call_line(s, pos) {
        Some(((n, items), p)) => match spec_tag(s, p, bytes_of("\n")) {
            Some(q) => match spec_cost_line(s, q) {
                Some((cost, end)) => Some((BodyLineView::CallSpec(n, items, cost), end)),
                None => None,
            },
            None => None,
        },
        None => None,
    }
}

/// Parses a call and its cost line at `pos`.
pub fn call_spec(input: &[u8], pos: usize) -> (r: Result<(BodyLine, usize), ParseError>)
    ensures
        agrees(r, spec_call_spec(input@, pos as int), Rule::CallSpec, pos),
        r matches Ok((_, end)) ==> pos <= end <= input@.len(),
{
    let Ok(((n, items), p)) = call_line(input, pos) else {
        return Err(malformed(Rule::CallSpec, pos));
    };
    let Some(q) = tag(input, p, "\n") else {
        return Err(malformed(Rule::CallSpec, pos));
    };
    match cost_line(input, q) {
        Ok((cost, end)) => Ok((BodyLine::CallSpec(n, items, cost), end)),
        Err(_) => Err(malformed(Rule::CallSpec, pos)),
    }
}

/// A jump: `jump=`, optional space, an integer, one or more spaces, and a list
/// of sub-positions.
pub open spec fn spec_uncond_jump_spec(s: Seq<u8>, pos: int) -> Option<(BodyLineView, int)> {
    match spec_target(s, pos, bytes_of("jump=")) {
        Some((n, p)) => match spec_sub_position_list(s, p) {
            Some((items, end)) => Some((BodyLineView::UncondJumpSpec(n, items), end)),
            None => None,
        },
        None => None,
    }
}

/// Parses a jump at `pos`.
pub fn uncond_jump_spec(input: &[u8], pos: usize) -> (r: Result<(BodyLine, usize), ParseError>)
    ensures
        agrees(r, spec_uncond_jump_spec(input@, pos as int), Rule::UncondJumpSpec, pos),
        r matches Ok((_, end)) ==> pos <= end <= input@.len(),
{
    let Some((n, p)) = target(input, pos, "jump=") else {
        return Err(malformed(Rule::UncondJumpSpec, pos));
    };
    match sub_position_list(input, p) {
        Ok((items, end)) => Ok((BodyLine::UncondJumpSpec(n, items), end)),
        Err(_) => Err(malformed(Rule::UncondJumpSpec, pos)),
    }
}

/// A conditional jump: `jcnd=`, optional space, an integer, one or more
/// spaces, a second integer, one or more spaces, and a list of sub-positions.
pub open spec fn spec_cond_jump_spec(s: Seq<u8>, pos: int) -> Option<(BodyLineView, int)> {
    match spec_target(s, pos, bytes_of("jcnd=")) {
        Some((taken, p)) => match spec_number(s, p) {
            Some((not_taken, q)) => match spec_space1(s, q) {
                Some(r) => match spec_sub_position_list(s, r) {
                    Some((items, end)) => Some(
                        (BodyLineView::CondJumpSpec(taken, not_taken, items), end),
                    ),
                    None => None,
                },
                None => None,
            },
            None => None,
        },
        None => None,
    }
}

/// Parses a conditional jump at `pos`.
pub fn cond_jump_spec(input: &[u8], pos: usize) -> (r: Result<(BodyLine, usize), ParseError>)
    ensures
        agrees(r, spec_cond_jump_spec(input@, pos as int), Rule::CondJumpSpec, pos),
        r matches Ok((_, end)) ==> pos <= end <= input@.len(),
{
    let Some((taken, p)) = target(input, pos, "jcnd=") else {
        return Err(malformed(Rule::CondJumpSpec, pos));
    };
    let Ok((not_taken, q)) = number(input, p) else {
        return Err(malformed(Rule::CondJumpSpec, pos));
    };
    let Ok(r) = space1(input, q) else {
        return Err(malformed(Rule::CondJumpSpec, pos));
    };
    match sub_position_list(input, r) {
        Ok((items, end)) => Ok((BodyLine::CondJumpSpec(taken, not_taken, items), end)),
        Err(_) => Err(malformed(Rule::CondJumpSpec, pos)),
    }
}

/// The body line at `pos`, whatever its kind, where the blank and comment
/// lines before it have been passed. The kinds that a keyword marks come
/// first; a cost line is what is left.
#[verifier::opaque]
pub open spec fn spec_body_alternatives(s: Seq<u8>, pos: int) -> Option<(BodyLineView, int)> {
    if spec_position_spec(s, pos) is Some {
        spec_position_spec(s, pos)
    } else if spec_call_spec(s, pos) is Some {
        spec_call_spec(s, pos)
    } else if spec_uncond_jump_spec(s, pos) is Some {
        spec_uncond_jump_spec(s, pos)
    } else if spec_cond_jump_spec(s, pos) is Some {
        spec_cond_jump_spec(s, pos)
    } else {
        match spec_cost_line(s, pos) {
            Some((cost, end)) => Some((BodyLineView::Cost(cost), end)),
            None => None,
        }
    }
}

/// A body line: blank and comment lines, as many as there are, and then a
/// line of one of the body kinds, without its last newline.
#[verifier::opaque]
pub open spec fn spec_body_line(s: Seq<u8>, pos: int) -> Option<(BodyLineView, int)> {
    spec_body_alternatives(s, spec_comment_or_empty(s, pos))
}

/// Parses a body line at `pos`.
pub fn body_line(input: &[u8], pos: usize) -> (r: Result<(BodyLine, usize), ParseError>)
    ensures
        agrees(r, spec_body_line(input@, pos as int), Rule::BodyLine, pos),
        r matches Ok((_, end)) ==> pos <= end <= input@.len(),
{
    proof {
        reveal(spec_body_line);
        reveal(spec_body_alternatives);
    }
    let p = comment_or_empty(input, pos);
    if let Ok(found) = position_spec(input, p) {
        return Ok(found);
    }
    if let Ok(found) = call_spec(input, p) {
        return Ok(found);
    }
    if let Ok(found) = uncond_jump_spec(input, p) {
        return Ok(found);
    }
    if let Ok(found) = cond_jump_spec(input, p) {
        return Ok(found);
    }
    match cost_line(input, p) {
        Ok((cost, end)) => Ok((BodyLine::Cost(cost), end)),
        Err(_) => Err(malformed(Rule::BodyLine, pos)),
    }
}

/// The sub-positions behind the first end inside the buffer, behind their
/// start or at it.
pub proof fn lemma_sub_positions_more_bounds(s: Seq<u8>, pos: int)
    requires
        0 <= pos <= s.len(),
    ensures
        pos <= spec_sub_positions_more(s, pos).1 <= s.len(),
    decreases s.len() - pos,
{
    lemma_run_end(s, pos, ByteClass::Space);
    if let Some(p) = spec_space1(s, pos) {
        lemma_sub_position_bounds(s, p);
        if let Some((_, end)) = spec_sub_position(s, p) {
            lemma_sub_positions_more_bounds(s, end);
        }
    }
}

/// A list of sub-positions takes one byte at least and ends inside the
/// buffer.
pub proof fn lemma_sub_position_list_bounds(s: Seq<u8>, pos: int)
    requires
        0 <= pos <= s.len(),
    ensures
        spec_sub_position_list(s, pos) matches Some((_, end)) ==> pos < end <= s.len(),
{
    lemma_sub_position_bounds(s, pos);
    if let Some((_, end)) = spec_sub_position(s, pos) {
        lemma_sub_positions_more_bounds(s, end);
    }
}

/// A keyword with its integer ends inside the buffer.
pub proof fn lemma_target_bounds(s: Seq<u8>, pos: int, keyword: Seq<u8>)
    requires
        0 <= pos <= s.len(),
    ensures
        spec_target(s, pos, keyword) matches Some((_, end)) ==> pos <= end <= s.len(),
{
    if let Some(p) = spec_tag(s, pos, keyword) {
        lemma_run_end(s, p, ByteClass::Space);
        lemma_number_bounds(s, spec_space0(s, p));
        if let Some((_, q)) = spec_number(s, spec_space0(s, p)) {
            lemma_run_end(s, q, ByteClass::Space);
        }
    }
}

/// What a position line assigns ends inside the buffer, behind its start or
/// at it.
pub proof fn lemma_position_name_bounds(s: Seq<u8>, pos: int)
    requires
        0 <= pos <= s.len(),
    ensures
        pos <= spec_position_name(s, pos).1 <= s.len(),
{
    let p = match spec_position_id(s, pos) {
        Some((_, p)) => {
            let open = spec_tag(s, pos, bytes_of("("))->0;
            lemma_number_bounds(s, open);
            p
        },
        None => pos,
    };
    lemma_run_end(s, p, ByteClass::Space);
    lemma_no_newline_chars_bounds(s, spec_space0(s, p));
}

/// A body line ends inside the buffer, behind its start or at it.
pub proof fn lemma_body_line_bounds(s: Seq<u8>, pos: int)
    requires
        0 <= pos <= s.len(),
    ensures
        spec_body_line(s, pos) matches Some((_, end)) ==> pos <= end <= s.len(),
{
    reveal(spec_body_line);
    reveal(spec_body_alternatives);
    lemma_comment_or_empty_bounds(s, pos);
    let at = spec_comment_or_empty(s, pos);
    if let Some((_, p)) = spec_position(s, at) {
        if let Some(q) = spec_tag(s, p, bytes_of("=")) {
            lemma_run_end(s, q, ByteClass::Space);
            lemma_position_name_bounds(s, spec_space0(s, q));
        }
    }
    lemma_target_bounds(s, at, bytes_of("calls="));
    if let Some((_, p)) = spec_target(s, at, bytes_of("calls=")) {
        lemma_sub_position_list_bounds(s, p);
        if let Some((_, q)) = spec_sub_position_list(s, p) {
            if let Some(r) = spec_tag(s, q, bytes_of("\n")) {
                lemma_sub_position_list_bounds(s, r);
            }
        }
    }
    lemma_target_bounds(s, at, bytes_of("jump="));
    if let Some((_, p)) = spec_target(s, at, bytes_of("jump=")) {
        lemma_sub_position_list_bounds(s, p);
    }
    lemma_target_bounds(s, at, bytes_of("jcnd="));
    if let Some((_, p)) = spec_target(s, at, bytes_of("jcnd=")) {
        lemma_number_bounds(s, p);
        if let Some((_, q)) = spec_number(s, p) {
            lemma_run_end(s, q, ByteClass::Space);
            if let Some(r) = spec_space1(s, q) {
                lemma_sub_position_list_bounds(s, r);
            }
        }
    }
    lemma_sub_position_list_bounds(s, at);
}

} // verus!
