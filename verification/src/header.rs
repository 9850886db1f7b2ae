//! The header grammar: one rule for each kind of header line.

use crate::classes::{lemma_run_end, ByteClass};
use crate::error::{agrees, malformed, ParseError, Rule};
use crate::lexical::{
    bytes_of, comment_or_empty, lemma_comment_or_empty_bounds, lemma_name_bounds,
    lemma_no_newline_chars_bounds, lemma_number_bounds, name, no_newline_chars, number, space0,
    space1, spec_comment_or_empty, spec_name, spec_no_newline_chars, spec_number, spec_space0,
    spec_space1, spec_tag, tag,
};
use crate::model::{
    lemma_deep_view_push, HeaderLine, HeaderLineView, InheritedExpr, InheritedExprView,
};
use vstd::prelude::*;

verus! {

/// `cmd:`, optional space, and the command as the rest of the line.
pub open spec fn spec_target_command(s: Seq<u8>, pos: int) -> Option<(HeaderLineView, int)> {
    match spec_tag(s, pos, bytes_of("cmd:")) {
        Some(p) => match spec_no_newline_chars(s, spec_space0(s, p)) {
            Some((text, end)) => Some((HeaderLineView::Cmd(text), end)),
            None => None,
        },
        None => None,
    }
}

/// Parses a `cmd:` line at `pos`.
pub fn target_command(input: &[u8], pos: usize) -> (r: Result<(HeaderLine, usize), ParseError>)
    ensures
        agrees(r, spec_target_command(input@, pos as int), Rule::TargetCommand, pos),
        r matches Ok((_, end)) ==> pos <= end <= input@.len(),
{
    let Some(p) = tag(input, pos, "cmd:") else {
        return Err(malformed(Rule::TargetCommand, pos));
    };
    let q = space0(input, p);
    match no_newline_chars(input, q) {
        Ok((text, end)) => Ok((HeaderLine::Cmd(text), end)),
        Err(_) => Err(malformed(Rule::TargetCommand, pos)),
    }
}

/// What follows the keyword of an id line: `:`, optional space, an integer.
pub open spec fn spec_target_spec(s: Seq<u8>, pos: int) -> Option<(u32, int)> {
    match spec_tag(s, pos, bytes_of(":")) {
        Some(p) => spec_number(s, spec_space0(s, p)),
        None => None,
    }
}

/// Parses the `:` and the integer of an id line at `pos`.
pub fn target_spec(input: &[u8], pos: usize) -> (r: Result<(u32, usize), ParseError>)
    ensures
        agrees(r, spec_target_spec(input@, pos as int), Rule::TargetSpec, pos),
        r matches Ok((_, end)) ==> pos <= end <= input@.len(),
{
    let Some(p) = tag(input, pos, ":") else {
        return Err(malformed(Rule::TargetSpec, pos));
    };
    let q = space0(input, p);
    match number(input, q) {
        Ok((n, end)) => Ok((n, end)),
        Err(_) => Err(malformed(Rule::TargetSpec, pos)),
    }
}

/// A keyword and what follows it in an id line.
pub open spec fn spec_keyword_id(s: Seq<u8>, pos: int, keyword: Seq<u8>) -> Option<(u32, int)> {
    match spec_tag(s, pos, keyword) {
        Some(p) => spec_target_spec(s, p),
        None => None,
    }
}

/// An id line: `pid`, `thread` or `part`, then `:` and an integer.
pub open spec fn spec_target_id(s: Seq<u8>, pos: int) -> Option<(HeaderLineView, int)> {
    if let Some((n, end)) = spec_keyword_id(s, pos, bytes_of("pid")) {
        Some((HeaderLineView::Pid(n), end))
    } else if let Some((n, end)) = spec_keyword_id(s, pos, bytes_of("thread")) {
        Some((HeaderLineView::Thread(n), end))
    } else if let Some((n, end)) = spec_keyword_id(s, pos, bytes_of("part")) {
        Some((HeaderLineView::Part(n), end))
    } else {
        None
    }
}

/// Parses a keyword and what follows it in an id line.
fn keyword_id(input: &[u8], pos: usize, keyword: &str) -> (r: Option<(u32, usize)>)
    ensures
        match r {
            Some((n, end)) => spec_keyword_id(input@, pos as int, bytes_of(keyword)) == Some(
                (n, end as int),
            ) && pos <= end <= input@.len(),
            None => spec_keyword_id(input@, pos as int, bytes_of(keyword)) is None,
        },
{
    let Some(p) = tag(input, pos, keyword) else {
        return None;
    };
    match target_spec(input, p) {
        Ok((n, end)) => Some((n, end)),
        Err(_) => None,
    }
}

/// Parses a `pid:`, `thread:` or `part:` line at `pos`.
pub fn target_id(input: &[u8], pos: usize) -> (r: Result<(HeaderLine, usize), ParseError>)
    ensures
        agrees(r, spec_target_id(input@, pos as int), Rule::TargetId, pos),
        r matches Ok((_, end)) ==> pos <= end <= input@.len(),
{
    if let Some((n, end)) = keyword_id(input, pos, "pid") {
        Ok((HeaderLine::Pid(n), end))
    } else if let Some((n, end)) = keyword_id(input, pos, "thread") {
        Ok((HeaderLine::Thread(n), end))
    } else if let Some((n, end)) = keyword_id(input, pos, "part") {
        Ok((HeaderLine::Part(n), end))
    } else {
        Err(malformed(Rule::TargetId, pos))
    }
}

/// A line that tells of the profiled program: the command or an id.
pub open spec fn spec_part_detail(s: Seq<u8>, pos: int) -> Option<(HeaderLineView, int)> {
    if spec_target_command(s, pos) is Some {
        spec_target_command(s, pos)
    } else {
        spec_target_id(s, pos)
    }
}

/// Parses a `cmd:` line or an id line at `pos`.
pub fn part_detail(input: &[u8], pos: usize) -> (r: Result<(HeaderLine, usize), ParseError>)
    ensures
        agrees(r, spec_part_detail(input@, pos as int), Rule::PartDetail, pos),
        r matches Ok((_, end)) ==> pos <= end <= input@.len(),
{
    if let Ok(found) = target_command(input, pos) {
        return Ok(found);
    }
    match target_id(input, pos) {
        Ok(found) => Ok(found),
        Err(_) => Err(malformed(Rule::PartDetail, pos)),
    }
}

/// `desc:`, optional space, an identifier, optional space, `:`, and the rest
/// of the line as the description.
pub open spec fn spec_description(s: Seq<u8>, pos: int) -> Option<(HeaderLineView, int)> {
    match spec_tag(s, pos, bytes_of("desc:")) {
        Some(p) => match spec_name(s, spec_space0(s, p)) {
            Some((key, q)) => match spec_tag(s, spec_space0(s, q), bytes_of(":")) {
                Some(r) => match spec_no_newline_chars(s, r) {
                    Some((text, end)) => Some((HeaderLineView::Description(key, text), end)),
                    None => None,
                },
                None => None,
            },
            None => None,
        },
        None => None,
    }
}

/// Parses a `desc:` line at `pos`.
pub fn description(input: &[u8], pos: usize) -> (r: Result<(HeaderLine, usize), ParseError>)
    ensures
        agrees(r, spec_description(input@, pos as int), Rule::Description, pos),
        r matches Ok((_, end)) ==> pos <= end <= input@.len(),
{
    let Some(p) = tag(input, pos, "desc:") else {
        return Err(malformed(Rule::Description, pos));
    };
    let p = space0(input, p);
    let Ok((key, q)) = name(input, p) else {
        return Err(malformed(Rule::Description, pos));
    };
    let q = space0(input, q);
    let Some(r) = tag(input, q, ":") else {
        return Err(malformed(Rule::Description, pos));
    };
    match no_newline_chars(input, r) {
        Ok((text, end)) => Ok((HeaderLine::Description(key, text), end)),
        Err(_) => Err(malformed(Rule::Description, pos)),
    }
}

/// A term of an inherited event: an identifier, or an integer weight,
/// optional space, an optional `*` with optional space, and an identifier.
pub open spec fn spec_inherited_term(s: Seq<u8>, pos: int) -> Option<(InheritedExprView, int)> {
    match spec_name(s, pos) {
        Some((event, end)) => Some((InheritedExprView::Name(event), end)),
        None => match spec_number(s, pos) {
            Some((weight, p)) => {
                let q = spec_space0(s, p);
                let r = match spec_tag(s, q, bytes_of("*")) {
                    Some(t) => spec_space0(s, t),
                    None => q,
                };
                match spec_name(s, r) {
                    Some((event, end)) => Some((InheritedExprView::Mul(weight, event), end)),
                    None => None,
                }
            },
            None => None,
        },
    }
}

/// A term takes one byte at least and ends inside the buffer.
pub proof fn lemma_inherited_term_bounds(s: Seq<u8>, pos: int)
    requires
        0 <= pos <= s.len(),
    ensures
        spec_inherited_term(s, pos) matches Some((_, end)) ==> pos < end <= s.len(),
{
    lemma_name_bounds(s, pos);
    lemma_number_bounds(s, pos);
    if let Some((_, p)) = spec_number(s, pos) {
        lemma_run_end(s, p, ByteClass::Space);
        let q = spec_space0(s, p);
        let r = match spec_tag(s, q, bytes_of("*")) {
            Some(t) => {
                lemma_run_end(s, t, ByteClass::Space);
                spec_space0(s, t)
            },
            None => q,
        };
        lemma_name_bounds(s, r);
    }
}

/// Parses one term of an inherited event at `pos`.
pub fn inherited_term(input: &[u8], pos: usize) -> (r: Result<(InheritedExpr, usize), ParseError>)
    ensures
        agrees(r, spec_inherited_term(input@, pos as int), Rule::InheritedTerm, pos),
        r matches Ok((_, end)) ==> pos < end <= input@.len(),
{
    if let Ok((event, end)) = name(input, pos) {
        return Ok((InheritedExpr::Name(event), end));
    }
    let Ok((weight, p)) = number(input, pos) else {
        return Err(malformed(Rule::InheritedTerm, pos));
    };
    let q = space0(input, p);
    let r = match tag(input, q, "*") {
        Some(t) => space0(input, t),
        None => q,
    };
    match name(input, r) {
        Ok((event, end)) => Ok((InheritedExpr::Mul(weight, event), end)),
        Err(_) => Err(malformed(Rule::InheritedTerm, pos)),
    }
}

/// The terms behind the first: each behind optional space, `+` and optional
/// space, as many as there are. Ends behind the last term.
pub open spec fn spec_inherited_more(s: Seq<u8>, pos: int) -> (Seq<InheritedExprView>, int)
    decreases s.len() - pos,
    via spec_inherited_more_decreases
{
    if 0 <= pos <= s.len() {
        match spec_tag(s, spec_space0(s, pos), bytes_of("+")) {
            Some(p) => match spec_inherited_term(s, spec_space0(s, p)) {
                Some((term, end)) => (
                    seq![term] + spec_inherited_more(s, end).0,
                    spec_inherited_more(s, end).1,
                ),
                None => (Seq::empty(), pos),
            },
            None => (Seq::empty(), pos),
        }
    } else {
        (Seq::empty(), pos)
    }
}

/// Each further term starts behind the one before.
#[via_fn]
proof fn spec_inherited_more_decreases(s: Seq<u8>, pos: int) {
    if 0 <= pos <= s.len() {
        lemma_run_end(s, pos, ByteClass::Space);
        if let Some(p) = spec_tag(s, spec_space0(s, pos), bytes_of("+")) {
            lemma_run_end(s, p, ByteClass::Space);
            lemma_inherited_term_bounds(s, spec_space0(s, p));
        }
    }
}

/// An inherited event: one or more terms with `+` between them.
pub open spec fn spec_inherited_expr(s: Seq<u8>, pos: int) -> Option<
    (Seq<InheritedExprView>, int),
> {
    match spec_inherited_term(s, pos) {
        Some((term, end)) => Some(
            (seq![term] + spec_inherited_more(s, end).0, spec_inherited_more(s, end).1),
        ),
        None => None,
    }
}

/// Parses the terms of an inherited event at `pos`.
pub fn inherited_expr(input: &[u8], pos: usize) -> (r: Result<
    (Vec<InheritedExpr>, usize),
    ParseError,
>)
    ensures
        agrees(r, spec_inherited_expr(input@, pos as int), Rule::InheritedExpr, pos),
        r matches Ok((_, end)) ==> pos < end <= input@.len(),
{
    let Ok((first, first_end)) = inherited_term(input, pos) else {
        return Err(malformed(Rule::InheritedExpr, pos));
    };
    let mut terms: Vec<InheritedExpr> = Vec::new();
    let ghost none = terms;
    terms.push(first);
    proof {
        lemma_deep_view_push(none, terms, first);
        assert(terms.deep_view() =~= seq![first.deep_view()]);
    }
    let mut at: usize = first_end;
    loop
        invariant
            pos < at <= input@.len(),
            spec_inherited_expr(input@, pos as int) == Some(
                (
                    terms.deep_view() + spec_inherited_more(input@, at as int).0,
                    spec_inherited_more(input@, at as int).1,
                ),
            ),
        decreases input@.len() - at,
    {
        let q = space0(input, at);
        let Some(p) = tag(input, q, "+") else {
            assert(terms.deep_view() + Seq::<InheritedExprView>::empty() =~= terms.deep_view());
            return Ok((terms, at));
        };
        let p = space0(input, p);
        let Ok((term, end)) = inherited_term(input, p) else {
            assert(terms.deep_view() + Seq::<InheritedExprView>::empty() =~= terms.deep_view());
            return Ok((terms, at));
        };
        let ghost before = terms;
        let ghost rest = spec_inherited_more(input@, end as int).0;
        terms.push(term);
        proof {
            lemma_deep_view_push(before, terms, term);
            assert(terms.deep_view() + rest =~= before.deep_view() + (seq![term.deep_view()]
                + rest));
        }
        at = end;
    }
}

/// `=`, optional space, and an inherited event.
pub open spec fn spec_inherited_def(s: Seq<u8>, pos: int) -> Option<(Seq<InheritedExprView>, int)> {
    match spec_tag(s, pos, bytes_of("=")) {
        Some(p) => spec_inherited_expr(s, spec_space0(s, p)),
        None => None,
    }
}

/// Parses the definition of an inherited event at `pos`.
pub fn inherited_def(input: &[u8], pos: usize) -> (r: Result<
    (Vec<InheritedExpr>, usize),
    ParseError,
>)
    ensures
        agrees(r, spec_inherited_def(input@, pos as int), Rule::InheritedDef, pos),
        r matches Ok((_, end)) ==> pos <= end <= input@.len(),
{
    let Some(p) = tag(input, pos, "=") else {
        return Err(malformed(Rule::InheritedDef, pos));
    };
    let q = space0(input, p);
    match inherited_expr(input, q) {
        Ok(found) => Ok(found),
        Err(_) => Err(malformed(Rule::InheritedDef, pos)),
    }
}

/// `:`, optional space, and the long name of an event as the rest of the
/// line.
pub open spec fn spec_long_name_def(s: Seq<u8>, pos: int) -> Option<(Seq<char>, int)> {
    match spec_tag(s, pos, bytes_of(":")) {
        Some(p) => spec_no_newline_chars(s, spec_space0(s, p)),
        None => None,
    }
}

/// Parses the long name of an event at `pos`.
pub fn long_name_def(input: &[u8], pos: usize) -> (r: Result<(String, usize), ParseError>)
    ensures
        agrees(r, spec_long_name_def(input@, pos as int), Rule::LongNameDef, pos),
        r matches Ok((_, end)) ==> pos <= end <= input@.len(),
{
    let Some(p) = tag(input, pos, ":") else {
        return Err(malformed(Rule::LongNameDef, pos));
    };
    let q = space0(input, p);
    match no_newline_chars(input, q) {
        Ok(found) => Ok(found),
        Err(_) => Err(malformed(Rule::LongNameDef, pos)),
    }
}

/// `event:`, optional space, an identifier and optional space; then, each
/// where it stands, the definition of an inherited event and a long name.
pub open spec fn spec_event_specification(s: Seq<u8>, pos: int) -> Option<(HeaderLineView, int)> {
    match spec_tag(s, pos, bytes_of("event:")) {
        Some(p) => match spec_name(s, spec_space0(s, p)) {
            Some((event, q)) => {
                let q = spec_space0(s, q);
                let (inherited, r) = match spec_inherited_def(s, q) {
                    Some((terms, r)) => (Some(terms), r),
                    None => (None, q),
                };
                let (long, end) = match spec_long_name_def(s, r) {
                    Some((text, end)) => (Some(text), end),
                    None => (None, r),
                };
                Some((HeaderLineView::EventSpec(event, inherited, long), end))
            },
            None => None,
        },
        None => None,
    }
}

/// Parses an `event:` line at `pos`.
pub fn event_specification(input: &[u8], pos: usize) -> (r: Result<
    (HeaderLine, usize),
    ParseError,
>)
    ensures
        agrees(r, spec_event_specification(input@, pos as int), Rule::EventSpecification, pos),
        r matches Ok((_, end)) ==> pos <= end <= input@.len(),
{
    let Some(p) = tag(input, pos, "event:") else {
        return Err(malformed(Rule::EventSpecification, pos));
    };
    let p = space0(input, p);
    let Ok((event, q)) = name(input, p) else {
        return Err(malformed(Rule::EventSpecification, pos));
    };
    let q = space0(input, q);
    let (inherited, r) = match inherited_def(input, q) {
        Ok((terms, r)) => (Some(terms), r),
        Err(_) => (None, q),
    };
    let (long, end) = match long_name_def(input, r) {
        Ok((text, end)) => (Some(text), end),
        Err(_) => (None, r),
    };
    Ok((HeaderLine::EventSpec(event, inherited, long), end))
}

/// The identifiers behind the first: each behind one or more spaces, as many
/// as there are.
pub open spec fn spec_names_more(s: Seq<u8>, pos: int) -> (Seq<Seq<char>>, int)
    decreases s.len() - pos,
    via spec_names_more_decreases
{
    if 0 <= pos <= s.len() {
        match spec_space1(s, pos) {
            Some(p) => match spec_name(s, p) {
                Some((event, end)) => (
                    seq![event] + spec_names_more(s, end).0,
                    spec_names_more(s, end).1,
                ),
                None => (Seq::empty(), pos),
            },
            None => (Seq::empty(), pos),
        }
    } else {
        (Seq::empty(), pos)
    }
}

/// Each further identifier starts behind the one before.
#[via_fn]
proof fn spec_names_more_decreases(s: Seq<u8>, pos: int) {
    if 0 <= pos <= s.len() {
        lemma_run_end(s, pos, ByteClass::Space);
        if let Some(p) = spec_space1(s, pos) {
            lemma_name_bounds(s, p);
        }
    }
}

/// `events:`, optional space, and one or more identifiers with space between
/// them.
pub open spec fn spec_events(s: Seq<u8>, pos: int) -> Option<(HeaderLineView, int)> {
    match spec_tag(s, pos, bytes_of("events:")) {
        Some(p) => match spec_name(s, spec_space0(s, p)) {
            Some((event, end)) => Some(
                (
                    HeaderLineView::Events(seq![event] + spec_names_more(s, end).0),
                    spec_names_more(s, end).1,
                ),
            ),
            None => None,
        },
        None => None,
    }
}

/// Parses an `events:` line at `pos`.
fn events(input: &[u8], pos: usize) -> (r: Option<(HeaderLine, usize)>)
    ensures
        match r {
            Some((line, end)) => spec_events(input@, pos as int) == Some(
                (line.deep_view(), end as int),
            ) && pos <= end <= input@.len(),
            None => spec_events(input@, pos as int) is None,
        },
{
    let Some(p) = tag(input, pos, "events:") else {
        return None;
    };
    let p = space0(input, p);
    let Ok((first, first_end)) = name(input, p) else {
        return None;
    };
    let mut names: Vec<String> = Vec::new();
    let ghost none = names;
    names.push(first);
    proof {
        lemma_deep_view_push(none, names, first);
        assert(names.deep_view() =~= seq![first@]);
    }
    let mut at: usize = first_end;
    loop
        invariant
            pos <= at <= input@.len(),
            spec_events(input@, pos as int) == Some(
                (
                    HeaderLineView::Events(
                        names.deep_view() + spec_names_more(input@, at as int).0,
                    ),
                    spec_names_more(input@, at as int).1,
                ),
            ),
        decreases input@.len() - at,
    {
        let Ok(p) = space1(input, at) else {
            assert(names.deep_view() + Seq::<Seq<char>>::empty() =~= names.deep_view());
            return Some((HeaderLine::Events(names), at));
        };
        let Ok((event, end)) = name(input, p) else {
            assert(names.deep_view() + Seq::<Seq<char>>::empty() =~= names.deep_view());
            return Some((HeaderLine::Events(names), at));
        };
        let ghost before = names;
        let ghost rest = spec_names_more(input@, end as int).0;
        names.push(event);
        proof {
            lemma_deep_view_push(before, names, event);
            assert(names.deep_view() + rest =~= before.deep_view() + (seq![event@] + rest));
        }
        at = end;
    }
}

/// `positions:`, optional space, then `instr` where it stands, then one or
/// more spaces and `line` where they stand.
pub open spec fn spec_positions(s: Seq<u8>, pos: int) -> Option<(HeaderLineView, int)> {
    match spec_tag(s, pos, bytes_of("positions:")) {
        Some(p) => {
            let q = spec_space0(s, p);
            let (instr, r) = match spec_tag(s, q, bytes_of("instr")) {
                Some(r) => (true, r),
                None => (false, q),
            };
            let (line, end) = match spec_space1(s, r) {
                Some(t) => match spec_tag(s, t, bytes_of("line")) {
                    Some(end) => (true, end),
                    None => (false, r),
                },
                None => (false, r),
            };
            Some((HeaderLineView::Positions(instr, line), end))
        },
        None => None,
    }
}

/// Parses a `positions:` line at `pos`.
fn positions(input: &[u8], pos: usize) -> (r: Option<(HeaderLine, usize)>)
    ensures
        match r {
            Some((line, end)) => spec_positions(input@, pos as int) == Some(
                (line.deep_view(), end as int),
            ) && pos <= end <= input@.len(),
            None => spec_positions(input@, pos as int) is None,
        },
{
    let Some(p) = tag(input, pos, "positions:") else {
        return None;
    };
    let q = space0(input, p);
    let (instr, r) = match tag(input, q, "instr") {
        Some(r) => (true, r),
        None => (false, q),
    };
    let (line, end) = match space1(input, r) {
        Ok(t) => match tag(input, t, "line") {
            Some(end) => (true, end),
            None => (false, r),
        },
        Err(_) => (false, r),
    };
    Some((HeaderLine::Positions(instr, line), end))
}

/// A line that declares the columns of the cost lines: the events or the
/// positions.
pub open spec fn spec_cost_line_def(s: Seq<u8>, pos: int) -> Option<(HeaderLineView, int)> {
    if spec_events(s, pos) is Some {
        spec_events(s, pos)
    } else {
        spec_positions(s, pos)
    }
}

/// Parses an `events:` or a `positions:` line at `pos`.
pub fn cost_line_def(input: &[u8], pos: usize) -> (r: Result<(HeaderLine, usize), ParseError>)
    ensures
        agrees(r, spec_cost_line_def(input@, pos as int), Rule::CostLineDef, pos),
        r matches Ok((_, end)) ==> pos <= end <= input@.len(),
{
    if let Some(found) = events(input, pos) {
        return Ok(found);
    }
    match positions(input, pos) {
        Some(found) => Ok(found),
        None => Err(malformed(Rule::CostLineDef, pos)),
    }
}

/// The header line at `pos`, whatever its kind, where the blank and comment
/// lines before it have been passed.
#[verifier::opaque]
pub open spec fn spec_header_alternatives(s: Seq<u8>, pos: int) -> Option<(HeaderLineView, int)> {
    if spec_part_detail(s, pos) is Some {
        spec_part_detail(s, pos)
    } else if spec_description(s, pos) is Some {
        spec_description(s, pos)
    } else if spec_event_specification(s, pos) is Some {
        spec_event_specification(s, pos)
    } else {
        spec_cost_line_def(s, pos)
    }
}

/// A header line: blank and comment lines, as many as there are, and then a
/// line of one of the header kinds, without its newline.
#[verifier::opaque]
pub open spec fn spec_header_line(s: Seq<u8>, pos: int) -> Option<(HeaderLineView, int)> {
    spec_header_alternatives(s, spec_comment_or_empty(s, pos))
}

/// Parses a header line at `pos`.
pub fn header_line(input: &[u8], pos: usize) -> (r: Result<(HeaderLine, usize), ParseError>)
    ensures
        agrees(r, spec_header_line(input@, pos as int), Rule::HeaderLine, pos),
        r matches Ok((_, end)) ==> pos <= end <= input@.len(),
{
    proof {
        reveal(spec_header_line);
        reveal(spec_header_alternatives);
    }
    let p = comment_or_empty(input, pos);
    if let Ok(found) = part_detail(input, p) {
        return Ok(found);
    }
    if let Ok(found) = description(input, p) {
        return Ok(found);
    }
    if let Ok(found) = event_specification(input, p) {
        return Ok(found);
    }
    match cost_line_def(input, p) {
        Ok(found) => Ok(found),
        Err(_) => Err(malformed(Rule::HeaderLine, pos)),
    }
}

/// What follows a keyword of an id line ends inside the buffer.
pub proof fn lemma_target_spec_bounds(s: Seq<u8>, pos: int)
    requires
        0 <= pos <= s.len(),
    ensures
        spec_target_spec(s, pos) matches Some((_, end)) ==> pos <= end <= s.len(),
{
    if let Some(p) = spec_tag(s, pos, bytes_of(":")) {
        lemma_run_end(s, p, ByteClass::Space);
        lemma_number_bounds(s, spec_space0(s, p));
    }
}

/// The terms behind the first end inside the buffer, behind their start or at
/// it.
pub proof fn lemma_inherited_more_bounds(s: Seq<u8>, pos: int)
    requires
        0 <= pos <= s.len(),
    ensures
        pos <= spec_inherited_more(s, pos).1 <= s.len(),
    decreases s.len() - pos,
{
    lemma_run_end(s, pos, ByteClass::Space);
    if let Some(p) = spec_tag(s, spec_space0(s, pos), bytes_of("+")) {
        lemma_run_end(s, p, ByteClass::Space);
        lemma_inherited_term_bounds(s, spec_space0(s, p));
        if let Some((_, end)) = spec_inherited_term(s, spec_space0(s, p)) {
            lemma_inherited_more_bounds(s, end);
        }
    }
}

/// The identifiers behind the first end inside the buffer, behind their start
/// or at it.
pub proof fn lemma_names_more_bounds(s: Seq<u8>, pos: int)
    requires
        0 <= pos <= s.len(),
    ensures
        pos <= spec_names_more(s, pos).1 <= s.len(),
    decreases s.len() - pos,
{
    lemma_run_end(s, pos, ByteClass::Space);
    if let Some(p) = spec_space1(s, pos) {
        lemma_name_bounds(s, p);
        if let Some((_, end)) = spec_name(s, p) {
            lemma_names_more_bounds(s, end);
        }
    }
}

/// An `event:` line ends inside the buffer, behind its start or at it.
pub proof fn lemma_event_specification_bounds(s: Seq<u8>, pos: int)
    requires
        0 <= pos <= s.len(),
    ensures
        spec_event_specification(s, pos) matches Some((_, end)) ==> pos <= end <= s.len(),
{
    if let Some(p) = spec_tag(s, pos, bytes_of("event:")) {
        lemma_run_end(s, p, ByteClass::Space);
        lemma_name_bounds(s, spec_space0(s, p));
        if let Some((_, q)) = spec_name(s, spec_space0(s, p)) {
            lemma_run_end(s, q, ByteClass::Space);
            let q = spec_space0(s, q);
            let r = match spec_inherited_def(s, q) {
                Some((_, r)) => {
                    let t = spec_tag(s, q, bytes_of("="))->0;
                    lemma_run_end(s, t, ByteClass::Space);
                    lemma_inherited_term_bounds(s, spec_space0(s, t));
                    let first = spec_inherited_term(s, spec_space0(s, t))->0;
                    lemma_inherited_more_bounds(s, first.1);
                    r
                },
                None => q,
            };
            if let Some(t) = spec_tag(s, r, bytes_of(":")) {
                lemma_run_end(s, t, ByteClass::Space);
                lemma_no_newline_chars_bounds(s, spec_space0(s, t));
            }
        }
    }
}

/// A header line ends inside the buffer, behind its start or at it.
pub proof fn lemma_header_line_bounds(s: Seq<u8>, pos: int)
    requires
        0 <= pos <= s.len(),
    ensures
        spec_header_line(s, pos) matches Some((_, end)) ==> pos <= end <= s.len(),
{
    reveal(spec_header_line);
    reveal(spec_header_alternatives);
    lemma_comment_or_empty_bounds(s, pos);
    let at = spec_comment_or_empty(s, pos);
    if let Some(p) = spec_tag(s, at, bytes_of("cmd:")) {
        lemma_run_end(s, p, ByteClass::Space);
        lemma_no_newline_chars_bounds(s, spec_space0(s, p));
    }
    if let Some(p) = spec_tag(s, at, bytes_of("pid")) {
        lemma_target_spec_bounds(s, p);
    }
    if let Some(p) = spec_tag(s, at, bytes_of("thread")) {
        lemma_target_spec_bounds(s, p);
    }
    if let Some(p) = spec_tag(s, at, bytes_of("part")) {
        lemma_target_spec_bounds(s, p);
    }
    if let Some(p) = spec_tag(s, at, bytes_of("desc:")) {
        lemma_run_end(s, p, ByteClass::Space);
        lemma_name_bounds(s, spec_space0(s, p));
        if let Some((_, q)) = spec_name(s, spec_space0(s, p)) {
            lemma_run_end(s, q, ByteClass::Space);
            if let Some(r) = spec_tag(s, spec_space0(s, q), bytes_of(":")) {
                lemma_no_newline_chars_bounds(s, r);
            }
        }
    }
    lemma_event_specification_bounds(s, at);
    if let Some(p) = spec_tag(s, at, bytes_of("events:")) {
        lemma_run_end(s, p, ByteClass::Space);
        lemma_name_bounds(s, spec_space0(s, p));
        if let Some((_, q)) = spec_name(s, spec_space0(s, p)) {
            lemma_names_more_bounds(s, q);
        }
    }
    if let Some(p) = spec_tag(s, at, bytes_of("positions:")) {
        lemma_run_end(s, p, ByteClass::Space);
        let q = spec_space0(s, p);
        let r = match spec_tag(s, q, bytes_of("instr")) {
            Some(r) => r,
            None => q,
        };
        lemma_run_end(s, r, ByteClass::Space);
    }
}

} // verus!
