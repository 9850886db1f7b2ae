//! What the body grammar makes of body lines that were written from values,
//! and where the runs of header and body lines stop.

use crate::body::{
    absolute_values, cost_count, spec_body_alternatives, spec_body_line, spec_call_spec,
    spec_cond_jump_spec, spec_cost_line, spec_position, spec_position_name, spec_position_spec,
    spec_sub_position, spec_sub_position_list, spec_sub_positions_more, spec_target,
    spec_uncond_jump_spec, split_columns_spec, trailing_absolutes,
};
use crate::classes::{
    is_alphanumeric_byte, is_digit_byte, is_space_byte, lemma_run_end_unique, ByteClass,
};
use crate::header::{spec_header_alternatives, spec_header_line};
use crate::header_laws::header_start;
use crate::lexical::{bytes_of, newline, spec_number, tag_at};
use crate::literals::{lemma_body_literals, lemma_header_literals};
use crate::model::{
    BodyLineView, CostLineView, PositionType, PositionView, SubDirection, SubPosition,
};
use crate::render::{
    absolute_columns, body_line_generated, cost_line_columns, cost_line_generated,
    position_generated, render_body_line, render_cost_line, render_number, render_position,
    render_position_type, render_sub_position, render_sub_position_list,
    render_sub_positions_more, sp,
};
use crate::tokens::{
    lemma_decimal_digits, lemma_no_space_at, lemma_not_skipped, lemma_number_decimal_at,
    lemma_one_space_at, lemma_tag_at_concat, lemma_tag_mismatch, lemma_text_at,
    lemma_trimmed_text_at,
};
use crate::shift::lemma_position_id_shift;
use vstd::prelude::*;
use vstd::utf8::encode_utf8;

verus! {

/// Where a body line can start: at a digit, a sign or `*`, at `o`, `f` or
/// `j`, or at `co`, `cf` or `ca`.
pub open spec fn body_start(s: Seq<u8>, pos: int) -> bool {
    &&& 0 <= pos < s.len()
    &&& is_digit_byte(s[pos]) || s[pos] == '+' as u8 || s[pos] == '-' as u8 || s[pos] == '*' as u8
        || s[pos] == 'o' as u8 || s[pos] == 'f' as u8 || s[pos] == 'j' as u8 || (s[pos]
        == 'c' as u8 && pos + 1 < s.len() && (s[pos + 1] == 'o' as u8 || s[pos + 1] == 'f' as u8
        || s[pos + 1] == 'a' as u8))
}

/// The first byte of a sub-position: a digit, a sign or `*`.
pub open spec fn column_start(b: u8) -> bool {
    is_digit_byte(b) || b == '+' as u8 || b == '-' as u8 || b == '*' as u8
}

/// No integer is read where no digit stands.
pub proof fn lemma_not_number(s: Seq<u8>, pos: int)
    requires
        0 <= pos <= s.len(),
        pos < s.len() ==> !is_digit_byte(s[pos]),
    ensures
        spec_number(s, pos) is None,
{
    lemma_body_literals();
    lemma_tag_mismatch(s, pos, bytes_of("0x"), 0);
    lemma_run_end_unique(s, pos, ByteClass::Digit, pos);
}

/// Where a sub-position stands, and no letter or digit behind it, it is
/// read.
pub proof fn lemma_sub_position_at(s: Seq<u8>, pos: int, item: SubPosition)
    requires
        tag_at(s, pos, render_sub_position(item)),
        pos + render_sub_position(item).len() < s.len() ==> !is_alphanumeric_byte(
            s[pos + render_sub_position(item).len()],
        ),
    ensures
        spec_sub_position(s, pos) == Some((item, pos + render_sub_position(item).len())),
        render_sub_position(item).len() > 0,
        column_start(s[pos]),
{
    lemma_body_literals();
    match item {
        SubPosition::Absolute(n) => {
            lemma_decimal_digits(n as nat);
            assert(s[pos + 0] == render_number(n)[0]);
            lemma_number_decimal_at(s, pos, n);
        },
        SubPosition::Relative(SubDirection::Plus, n) => {
            lemma_decimal_digits(n as nat);
            lemma_tag_at_concat(s, pos, bytes_of("+"), render_number(n));
            assert(s[pos + 0] == bytes_of("+")[0]);
            lemma_not_number(s, pos);
            lemma_number_decimal_at(s, pos + 1, n);
        },
        SubPosition::Relative(SubDirection::Minus, n) => {
            lemma_decimal_digits(n as nat);
            lemma_tag_at_concat(s, pos, bytes_of("-"), render_number(n));
            assert(s[pos + 0] == bytes_of("-")[0]);
            lemma_not_number(s, pos);
            lemma_tag_mismatch(s, pos, bytes_of("+"), 0);
            lemma_number_decimal_at(s, pos + 1, n);
        },
        SubPosition::Same => {
            assert(s[pos + 0] == bytes_of("*")[0]);
            lemma_not_number(s, pos);
            lemma_tag_mismatch(s, pos, bytes_of("+"), 0);
            lemma_tag_mismatch(s, pos, bytes_of("-"), 0);
        },
    }
}

/// The text of a sub-position is not empty.
pub proof fn lemma_render_sub_position_len(item: SubPosition)
    ensures
        render_sub_position(item).len() > 0,
{
    lemma_body_literals();
    match item {
        SubPosition::Absolute(n) => {
            lemma_decimal_digits(n as nat);
        },
        SubPosition::Relative(_, n) => {
            lemma_decimal_digits(n as nat);
        },
        SubPosition::Same => {},
    }
}

/// Where the sub-positions behind the first stand before a newline, they are
/// read, all of them.
pub proof fn lemma_sub_positions_more_at(s: Seq<u8>, pos: int, items: Seq<SubPosition>)
    requires
        tag_at(s, pos, render_sub_positions_more(items)),
        pos + render_sub_positions_more(items).len() < s.len(),
        s[pos + render_sub_positions_more(items).len()] == newline(),
    ensures
        spec_sub_positions_more(s, pos) == (items, pos + render_sub_positions_more(items).len()),
        s[pos] == newline() || s[pos] == 0x20,
    decreases items.len(),
{
    if items.len() == 0 {
        lemma_no_space_at(s, pos);
        assert(items =~= Seq::empty());
    } else {
        let first = render_sub_position(items[0]);
        let rest = render_sub_positions_more(items.drop_first());
        lemma_render_sub_position_len(items[0]);
        lemma_tag_at_concat(s, pos, sp(), first + rest);
        lemma_tag_at_concat(s, pos + 1, first, rest);
        let end = pos + 1 + first.len();
        assert(s[pos + 0] == sp()[0]);
        lemma_sub_positions_more_at(s, end, items.drop_first());
        lemma_sub_position_at(s, pos + 1, items[0]);
        lemma_one_space_at(s, pos);
        assert(seq![items[0]] + items.drop_first() =~= items);
    }
}

/// Where a list of sub-positions stands before a newline, it is read, all
/// of it.
pub proof fn lemma_sub_position_list_at(s: Seq<u8>, pos: int, items: Seq<SubPosition>)
    requires
        items.len() > 0,
        tag_at(s, pos, render_sub_position_list(items)),
        pos + render_sub_position_list(items).len() < s.len(),
        s[pos + render_sub_position_list(items).len()] == newline(),
    ensures
        spec_sub_position_list(s, pos) == Some(
            (items, pos + render_sub_position_list(items).len()),
        ),
        column_start(s[pos]),
{
    let first = render_sub_position(items[0]);
    let rest = render_sub_positions_more(items.drop_first());
    lemma_tag_at_concat(s, pos, first, rest);
    lemma_sub_positions_more_at(s, pos + first.len(), items.drop_first());
    lemma_sub_position_at(s, pos, items[0]);
    assert(seq![items[0]] + items.drop_first() =~= items);
}

/// Behind columns, plain integers count as trailing plain integers, and so
/// do those that the columns end with.
proof fn lemma_trailing_absolutes_append(items: Seq<SubPosition>, values: Seq<u32>)
    ensures
        trailing_absolutes(items + absolute_columns(values)) == trailing_absolutes(items)
            + values.len(),
    decreases values.len(),
{
    let all = items + absolute_columns(values);
    if values.len() == 0 {
        assert(all =~= items);
    } else {
        let shorter = values.drop_last();
        assert(all.last() == SubPosition::Absolute(values.last()));
        assert(all.drop_last() =~= items + absolute_columns(shorter));
        lemma_trailing_absolutes_append(items, shorter);
    }
}

/// No more columns are plain integers at the end than there are columns.
proof fn lemma_trailing_absolutes_bound(items: Seq<SubPosition>)
    ensures
        trailing_absolutes(items) <= items.len(),
    decreases items.len(),
{
    if items.len() > 0 {
        lemma_trailing_absolutes_bound(items.drop_last());
    }
}

/// The columns of a cost line that the grammar can produce are told apart
/// as they were put together.
pub proof fn lemma_split_columns(line: CostLineView)
    requires
        cost_line_generated(line),
    ensures
        split_columns_spec(cost_line_columns(line)) == line,
        cost_line_columns(line).len() > 0,
{
    let columns = cost_line_columns(line);
    let n = columns.len();
    lemma_trailing_absolutes_bound(line.positions);
    if line.positions.len() == 1 {
        assert(line.positions.drop_last() =~= Seq::empty());
    }
    match line.costs {
        Some(values) => {
            lemma_trailing_absolutes_append(line.positions, values);
            assert(cost_count(columns) == values.len());
            assert(columns.take(n - values.len()) =~= line.positions);
            assert(absolute_values(columns.skip(n - values.len())) =~= values);
        },
        None => {
            assert(cost_count(columns) == 0);
            assert(columns.take(n as int) =~= line.positions);
        },
    }
}

/// Where a cost line that the grammar can produce stands before a newline,
/// it is read.
pub proof fn lemma_cost_line_at(s: Seq<u8>, pos: int, line: CostLineView)
    requires
        cost_line_generated(line),
        tag_at(s, pos, render_cost_line(line)),
        pos + render_cost_line(line).len() < s.len(),
        s[pos + render_cost_line(line).len()] == newline(),
    ensures
        spec_cost_line(s, pos) == Some((line, pos + render_cost_line(line).len())),
        column_start(s[pos]),
{
    lemma_split_columns(line);
    lemma_sub_position_list_at(s, pos, cost_line_columns(line));
}

/// Where the spelling of a kind stands, `=` behind it, the kind is read.
proof fn lemma_position_type_at(s: Seq<u8>, pos: int, kind: PositionType)
    requires
        tag_at(s, pos, render_position_type(kind)),
    ensures
        spec_position(s, pos) == Some((kind, pos + render_position_type(kind).len())),
        s[pos] == 'o' as u8 || s[pos] == 'f' as u8 || (s[pos] == 'c' as u8 && (s[pos + 1]
            == 'o' as u8 || s[pos + 1] == 'f' as u8)),
        pos + 1 < s.len(),
{
    lemma_body_literals();
    let text = render_position_type(kind);
    assert(s[pos + 0] == text[0]);
    assert(s[pos + 1] == text[1]);
    match kind {
        PositionType::Object => {
            lemma_tag_mismatch(s, pos, bytes_of("cob"), 0);
            lemma_tag_mismatch(s, pos, bytes_of("cfi"), 0);
            lemma_tag_mismatch(s, pos, bytes_of("cfl"), 0);
            lemma_tag_mismatch(s, pos, bytes_of("cfn"), 0);
        },
        PositionType::File => {
            lemma_tag_mismatch(s, pos, bytes_of("cob"), 0);
            lemma_tag_mismatch(s, pos, bytes_of("cfi"), 0);
            lemma_tag_mismatch(s, pos, bytes_of("cfl"), 0);
            lemma_tag_mismatch(s, pos, bytes_of("cfn"), 0);
            lemma_tag_mismatch(s, pos, bytes_of("ob"), 0);
        },
        PositionType::Function => {
            lemma_tag_mismatch(s, pos, bytes_of("cob"), 0);
            lemma_tag_mismatch(s, pos, bytes_of("cfi"), 0);
            lemma_tag_mismatch(s, pos, bytes_of("cfl"), 0);
            lemma_tag_mismatch(s, pos, bytes_of("cfn"), 0);
            lemma_tag_mismatch(s, pos, bytes_of("ob"), 0);
            lemma_tag_mismatch(s, pos, bytes_of("fl"), 1);
            lemma_tag_mismatch(s, pos, bytes_of("fi"), 1);
            lemma_tag_mismatch(s, pos, bytes_of("fe"), 1);
        },
        PositionType::CallObject => {},
        PositionType::CallFile => {
            lemma_tag_mismatch(s, pos, bytes_of("cob"), 1);
        },
        PositionType::CallFunction => {
            assert(s[pos + 2] == text[2]);
            lemma_tag_mismatch(s, pos, bytes_of("cob"), 1);
            lemma_tag_mismatch(s, pos, bytes_of("cfi"), 2);
            lemma_tag_mismatch(s, pos, bytes_of("cfl"), 2);
        },
    }
}

/// Where what a position line assigns stands before a newline, it is read.
proof fn lemma_position_name_at(s: Seq<u8>, pos: int, assigned: PositionView)
    requires
        position_generated(assigned),
        tag_at(s, pos, render_position(assigned)),
        pos + render_position(assigned).len() < s.len(),
        s[pos + render_position(assigned).len()] == newline(),
    ensures
        spec_position_name(s, pos) == (assigned, pos + render_position(assigned).len()),
        !is_space_byte(s[pos]),
{
    lemma_body_literals();
    let none = Seq::<char>::empty();
    assert(encode_utf8(none).len() == 0);
    match assigned.id {
        Some(id) => {
            let digits = render_number(id);
            let tail = match assigned.val {
                Some(text) => sp() + encode_utf8(text),
                None => Seq::empty(),
            };
            lemma_decimal_digits(id as nat);
            lemma_tag_at_concat(s, pos, bytes_of("("), digits + (bytes_of(")") + tail));
            lemma_tag_at_concat(s, pos + 1, digits, bytes_of(")") + tail);
            let p = pos + 1 + digits.len();
            lemma_tag_at_concat(s, p, bytes_of(")"), tail);
            assert(s[pos + 0] == bytes_of("(")[0]);
            assert(s[p + 0] == bytes_of(")")[0]);
            lemma_number_decimal_at(s, pos + 1, id);
            match assigned.val {
                Some(text) => {
                    let t = encode_utf8(text);
                    lemma_tag_at_concat(s, p + 1, sp(), t);
                    lemma_trimmed_text_at(s, p + 2, text);
                    lemma_one_space_at(s, p + 1);
                    lemma_text_at(s, p + 2, text);
                },
                None => {
                    lemma_no_space_at(s, p + 1);
                    lemma_text_at(s, p + 1, none);
                },
            }
        },
        None => {
            match assigned.val {
                Some(text) => {
                    let t = encode_utf8(text);
                    lemma_trimmed_text_at(s, pos, text);
                    lemma_position_id_shift(s, pos, t);
                    lemma_no_space_at(s, pos);
                    lemma_text_at(s, pos, text);
                },
                None => {
                    lemma_tag_mismatch(s, pos, bytes_of("("), 0);
                    lemma_no_space_at(s, pos);
                    lemma_text_at(s, pos, none);
                },
            }
        },
    }
}

/// Where a position line that the grammar can produce stands before a
/// newline, it is read.
proof fn lemma_position_spec_at(s: Seq<u8>, pos: int, kind: PositionType, assigned: PositionView)
    requires
        position_generated(assigned),
        tag_at(s, pos, render_body_line(BodyLineView::PositionSpec(kind, assigned))),
        pos + render_body_line(BodyLineView::PositionSpec(kind, assigned)).len() < s.len(),
        s[pos + render_body_line(BodyLineView::PositionSpec(kind, assigned)).len()] == newline(),
    ensures
        spec_position_spec(s, pos) == Some(
            (
                BodyLineView::PositionSpec(kind, assigned),
                pos + render_body_line(BodyLineView::PositionSpec(kind, assigned)).len(),
            ),
        ),
        body_start(s, pos),
{
    lemma_body_literals();
    let k = render_position_type(kind);
    let a = render_position(assigned);
    lemma_tag_at_concat(s, pos, k, bytes_of("=") + a);
    lemma_tag_at_concat(s, pos + k.len(), bytes_of("="), a);
    let p = pos + k.len() + 1;
    lemma_position_type_at(s, pos, kind);
    lemma_position_name_at(s, p, assigned);
    lemma_no_space_at(s, p);
}

/// Where a keyword, the text of an integer and a space stand before a
/// sub-position, the integer is read, and the space passed.
proof fn lemma_target_at(s: Seq<u8>, pos: int, keyword: Seq<u8>, n: u32)
    requires
        tag_at(s, pos, keyword + (render_number(n) + sp())),
        pos + (keyword + (render_number(n) + sp())).len() < s.len(),
        column_start(s[pos + (keyword + (render_number(n) + sp())).len()]),
    ensures
        spec_target(s, pos, keyword) == Some(
            (n, pos + (keyword + (render_number(n) + sp())).len()),
        ),
{
    let digits = render_number(n);
    lemma_decimal_digits(n as nat);
    lemma_tag_at_concat(s, pos, keyword, digits + sp());
    let p = pos + keyword.len();
    lemma_tag_at_concat(s, p, digits, sp());
    let q = p + digits.len();
    assert(s[p + 0] == digits[0]);
    assert(s[q + 0] == sp()[0]);
    lemma_no_space_at(s, p);
    lemma_number_decimal_at(s, p, n);
    lemma_one_space_at(s, q);
}

/// Where a call that the grammar can produce stands before a newline, it is
/// read, with its cost line.
proof fn lemma_call_spec_at(
    s: Seq<u8>,
    pos: int,
    n: u32,
    items: Seq<SubPosition>,
    cost: CostLineView,
)
    requires
        body_line_generated(BodyLineView::CallSpec(n, items, cost)),
        tag_at(s, pos, render_body_line(BodyLineView::CallSpec(n, items, cost))),
        pos + render_body_line(BodyLineView::CallSpec(n, items, cost)).len() < s.len(),
        s[pos + render_body_line(BodyLineView::CallSpec(n, items, cost)).len()] == newline(),
    ensures
        spec_call_spec(s, pos) == Some(
            (
                BodyLineView::CallSpec(n, items, cost),
                pos + render_body_line(BodyLineView::CallSpec(n, items, cost)).len(),
            ),
        ),
{
    lemma_body_literals();
    let digits = render_number(n);
    let list = render_sub_position_list(items);
    let line = render_cost_line(cost);
    let key = bytes_of("calls=");
    lemma_tag_at_concat(s, pos, key, digits + (sp() + (list + (bytes_of("\n") + line))));
    lemma_tag_at_concat(s, pos + 6, digits, sp() + (list + (bytes_of("\n") + line)));
    let p = pos + 6 + digits.len();
    lemma_tag_at_concat(s, p, sp(), list + (bytes_of("\n") + line));
    lemma_tag_at_concat(s, p + 1, list, bytes_of("\n") + line);
    let q = p + 1 + list.len();
    lemma_tag_at_concat(s, q, bytes_of("\n"), line);
    assert(s[q + 0] == bytes_of("\n")[0]);
    lemma_sub_position_list_at(s, p + 1, items);
    lemma_tag_at_concat(s, pos + 6, digits, sp());
    lemma_tag_at_concat(s, pos, key, digits + sp());
    lemma_target_at(s, pos, key, n);
    lemma_cost_line_at(s, q + 1, cost);
}

/// Where a jump that the grammar can produce stands before a newline, it is
/// read.
proof fn lemma_uncond_jump_spec_at(s: Seq<u8>, pos: int, n: u32, items: Seq<SubPosition>)
    requires
        items.len() > 0,
        tag_at(s, pos, render_body_line(BodyLineView::UncondJumpSpec(n, items))),
        pos + render_body_line(BodyLineView::UncondJumpSpec(n, items)).len() < s.len(),
        s[pos + render_body_line(BodyLineView::UncondJumpSpec(n, items)).len()] == newline(),
    ensures
        spec_uncond_jump_spec(s, pos) == Some(
            (
                BodyLineView::UncondJumpSpec(n, items),
                pos + render_body_line(BodyLineView::UncondJumpSpec(n, items)).len(),
            ),
        ),
{
    lemma_body_literals();
    let digits = render_number(n);
    let list = render_sub_position_list(items);
    let key = bytes_of("jump=");
    lemma_tag_at_concat(s, pos, key, digits + (sp() + list));
    lemma_tag_at_concat(s, pos + 5, digits, sp() + list);
    let p = pos + 5 + digits.len();
    lemma_tag_at_concat(s, p, sp(), list);
    lemma_sub_position_list_at(s, p + 1, items);
    lemma_tag_at_concat(s, pos + 5, digits, sp());
    lemma_tag_at_concat(s, pos, key, digits + sp());
    lemma_target_at(s, pos, key, n);
}

/// Where a conditional jump that the grammar can produce stands before a
/// newline, it is read.
proof fn lemma_cond_jump_spec_at(
    s: Seq<u8>,
    pos: int,
    taken: u32,
    not_taken: u32,
    items: Seq<SubPosition>,
)
    requires
        items.len() > 0,
        tag_at(s, pos, render_body_line(BodyLineView::CondJumpSpec(taken, not_taken, items))),
        pos + render_body_line(BodyLineView::CondJumpSpec(taken, not_taken, items)).len()
            < s.len(),
        s[pos + render_body_line(BodyLineView::CondJumpSpec(taken, not_taken, items)).len()]
            == newline(),
    ensures
        spec_cond_jump_spec(s, pos) == Some(
            (
                BodyLineView::CondJumpSpec(taken, not_taken, items),
                pos + render_body_line(
                    BodyLineView::CondJumpSpec(taken, not_taken, items),
                ).len(),
            ),
        ),
{
    lemma_body_literals();
    let first = render_number(taken);
    let second = render_number(not_taken);
    let list = render_sub_position_list(items);
    let key = bytes_of("jcnd=");
    lemma_decimal_digits(not_taken as nat);
    lemma_tag_at_concat(s, pos, key, first + (sp() + (second + (sp() + list))));
    lemma_tag_at_concat(s, pos + 5, first, sp() + (second + (sp() + list)));
    let p = pos + 5 + first.len();
    lemma_tag_at_concat(s, p, sp(), second + (sp() + list));
    lemma_tag_at_concat(s, p + 1, second, sp() + list);
    let q = p + 1 + second.len();
    lemma_tag_at_concat(s, q, sp(), list);
    assert(s[p + 1 + 0] == second[0]);
    assert(s[q + 0] == sp()[0]);
    lemma_sub_position_list_at(s, q + 1, items);
    lemma_tag_at_concat(s, pos + 5, first, sp());
    lemma_tag_at_concat(s, pos, key, first + sp());
    lemma_target_at(s, pos, key, taken);
    lemma_number_decimal_at(s, p + 1, not_taken);
    lemma_one_space_at(s, q);
}

/// No kind of position line is read where a sub-position or a header line
/// starts, where `ca` or `j` stands, or at the end of the buffer.
pub proof fn lemma_not_position(s: Seq<u8>, pos: int)
    requires
        0 <= pos <= s.len(),
        pos < s.len() ==> s[pos] != 'o' as u8 && s[pos] != 'f' as u8 && (s[pos] == 'c' as u8
            ==> pos + 1 < s.len() && s[pos + 1] != 'o' as u8 && s[pos + 1] != 'f' as u8),
    ensures
        spec_position(s, pos) is None,
{
    lemma_body_literals();
    let i: int = if pos < s.len() && s[pos] == 'c' as u8 {
        1
    } else {
        0
    };
    lemma_tag_mismatch(s, pos, bytes_of("cob"), i);
    lemma_tag_mismatch(s, pos, bytes_of("cfi"), i);
    lemma_tag_mismatch(s, pos, bytes_of("cfl"), i);
    lemma_tag_mismatch(s, pos, bytes_of("cfn"), i);
    lemma_tag_mismatch(s, pos, bytes_of("ob"), 0);
    lemma_tag_mismatch(s, pos, bytes_of("fl"), 0);
    lemma_tag_mismatch(s, pos, bytes_of("fi"), 0);
    lemma_tag_mismatch(s, pos, bytes_of("fe"), 0);
    lemma_tag_mismatch(s, pos, bytes_of("fn"), 0);
}

/// Where such a line stands before a newline, no alternative before its own
/// reads it, and its own does.
#[verifier::rlimit(40)]
proof fn lemma_body_cost_at(s: Seq<u8>, pos: int, line: BodyLineView)
    requires
        line is Cost,
        body_line_generated(line),
        tag_at(s, pos, render_body_line(line)),
        pos + render_body_line(line).len() < s.len(),
        s[pos + render_body_line(line).len()] == newline(),
    ensures
        spec_body_alternatives(s, pos) == Some((line, pos + render_body_line(line).len())),
        body_start(s, pos),
{
    reveal(spec_body_alternatives);
    lemma_body_literals();
    match line {
        BodyLineView::Cost(cost) => {
            lemma_cost_line_at(s, pos, cost);
            lemma_not_position(s, pos);
            lemma_tag_mismatch(s, pos, bytes_of("calls="), 0);
            lemma_tag_mismatch(s, pos, bytes_of("jump="), 0);
            lemma_tag_mismatch(s, pos, bytes_of("jcnd="), 0);
        },
        _ => {},
    }
}

/// Where such a line stands before a newline, no alternative before its own
/// reads it, and its own does.
#[verifier::rlimit(40)]
proof fn lemma_body_position_spec_at(s: Seq<u8>, pos: int, line: BodyLineView)
    requires
        line is PositionSpec,
        body_line_generated(line),
        tag_at(s, pos, render_body_line(line)),
        pos + render_body_line(line).len() < s.len(),
        s[pos + render_body_line(line).len()] == newline(),
    ensures
        spec_body_alternatives(s, pos) == Some((line, pos + render_body_line(line).len())),
        body_start(s, pos),
{
    reveal(spec_body_alternatives);
    lemma_body_literals();
    match line {
        BodyLineView::PositionSpec(kind, assigned) => {
            lemma_position_spec_at(s, pos, kind, assigned);
        },
        _ => {},
    }
}

/// Where such a line stands before a newline, no alternative before its own
/// reads it, and its own does.
#[verifier::rlimit(40)]
proof fn lemma_body_call_spec_at(s: Seq<u8>, pos: int, line: BodyLineView)
    requires
        line is CallSpec,
        body_line_generated(line),
        tag_at(s, pos, render_body_line(line)),
        pos + render_body_line(line).len() < s.len(),
        s[pos + render_body_line(line).len()] == newline(),
    ensures
        spec_body_alternatives(s, pos) == Some((line, pos + render_body_line(line).len())),
        body_start(s, pos),
{
    reveal(spec_body_alternatives);
    lemma_body_literals();
    match line {
        BodyLineView::CallSpec(n, items, cost) => {
            lemma_call_spec_at(s, pos, n, items, cost);
            lemma_tag_at_concat(
                s,
                pos,
                bytes_of("calls="),
                render_number(n) + (sp() + (render_sub_position_list(items) + (bytes_of("\n")
                    + render_cost_line(cost)))),
            );
            assert(s[pos + 0] == bytes_of("calls=")[0]);
            assert(s[pos + 1] == bytes_of("calls=")[1]);
            lemma_not_position(s, pos);
        },
        _ => {},
    }
}

/// Where such a line stands before a newline, no alternative before its own
/// reads it, and its own does.
#[verifier::rlimit(40)]
proof fn lemma_body_uncond_jump_spec_at(s: Seq<u8>, pos: int, line: BodyLineView)
    requires
        line is UncondJumpSpec,
        body_line_generated(line),
        tag_at(s, pos, render_body_line(line)),
        pos + render_body_line(line).len() < s.len(),
        s[pos + render_body_line(line).len()] == newline(),
    ensures
        spec_body_alternatives(s, pos) == Some((line, pos + render_body_line(line).len())),
        body_start(s, pos),
{
    reveal(spec_body_alternatives);
    lemma_body_literals();
    match line {
        BodyLineView::UncondJumpSpec(n, items) => {
            lemma_uncond_jump_spec_at(s, pos, n, items);
            lemma_tag_at_concat(
                s,
                pos,
                bytes_of("jump="),
                render_number(n) + (sp() + render_sub_position_list(items)),
            );
            assert(s[pos + 0] == bytes_of("jump=")[0]);
            lemma_not_position(s, pos);
            lemma_tag_mismatch(s, pos, bytes_of("calls="), 0);
        },
        _ => {},
    }
}

/// Where such a line stands before a newline, no alternative before its own
/// reads it, and its own does.
#[verifier::rlimit(40)]
proof fn lemma_body_cond_jump_spec_at(s: Seq<u8>, pos: int, line: BodyLineView)
    requires
        line is CondJumpSpec,
        body_line_generated(line),
        tag_at(s, pos, render_body_line(line)),
        pos + render_body_line(line).len() < s.len(),
        s[pos + render_body_line(line).len()] == newline(),
    ensures
        spec_body_alternatives(s, pos) == Some((line, pos + render_body_line(line).len())),
        body_start(s, pos),
{
    reveal(spec_body_alternatives);
    lemma_body_literals();
    match line {
        BodyLineView::CondJumpSpec(taken, not_taken, items) => {
            lemma_cond_jump_spec_at(s, pos, taken, not_taken, items);
            lemma_tag_at_concat(
                s,
                pos,
                bytes_of("jcnd="),
                render_number(taken) + (sp() + (render_number(not_taken) + (sp()
                    + render_sub_position_list(items)))),
            );
            assert(s[pos + 0] == bytes_of("jcnd=")[0]);
            assert(s[pos + 1] == bytes_of("jcnd=")[1]);
            lemma_not_position(s, pos);
            lemma_tag_mismatch(s, pos, bytes_of("calls="), 0);
            lemma_tag_mismatch(s, pos, bytes_of("jump="), 1);
        },
        _ => {},
    }
}

/// Where a body line that the grammar can produce stands before a newline,
/// the body rule reads that line and ends at the newline.
pub proof fn lemma_body_line_at(s: Seq<u8>, pos: int, line: BodyLineView)
    requires
        body_line_generated(line),
        tag_at(s, pos, render_body_line(line)),
        pos + render_body_line(line).len() < s.len(),
        s[pos + render_body_line(line).len()] == newline(),
    ensures
        spec_body_line(s, pos) == Some((line, pos + render_body_line(line).len())),
        body_start(s, pos),
{
    match line {
        BodyLineView::Comment => {},
        BodyLineView::Cost(..) => lemma_body_cost_at(s, pos, line),
        BodyLineView::PositionSpec(..) => lemma_body_position_spec_at(s, pos, line),
        BodyLineView::CallSpec(..) => lemma_body_call_spec_at(s, pos, line),
        BodyLineView::UncondJumpSpec(..) => lemma_body_uncond_jump_spec_at(s, pos, line),
        BodyLineView::CondJumpSpec(..) => lemma_body_cond_jump_spec_at(s, pos, line),
    }
    reveal(spec_body_line);
    lemma_not_skipped(s, pos);
}

/// No header line is read where a body line starts, nor at the end of the
/// buffer.
#[verifier::rlimit(40)]
pub proof fn lemma_header_stops(s: Seq<u8>, pos: int)
    requires
        0 <= pos <= s.len(),
        pos < s.len() ==> body_start(s, pos),
    ensures
        spec_header_line(s, pos) is None,
{
    reveal(spec_header_line);
    reveal(spec_header_alternatives);
    lemma_header_literals();
    lemma_not_skipped(s, pos);
    let i: int = if pos < s.len() && s[pos] == 'c' as u8 {
        1
    } else {
        0
    };
    lemma_tag_mismatch(s, pos, bytes_of("cmd:"), i);
    lemma_tag_mismatch(s, pos, bytes_of("pid"), 0);
    lemma_tag_mismatch(s, pos, bytes_of("thread"), 0);
    lemma_tag_mismatch(s, pos, bytes_of("part"), 0);
    lemma_tag_mismatch(s, pos, bytes_of("desc:"), 0);
    lemma_tag_mismatch(s, pos, bytes_of("event:"), 0);
    lemma_tag_mismatch(s, pos, bytes_of("events:"), 0);
    lemma_tag_mismatch(s, pos, bytes_of("positions:"), 0);
}

/// No body line is read where a header line starts, nor at the end of the
/// buffer; and no line is skipped there.
#[verifier::rlimit(40)]
pub proof fn lemma_body_stops(s: Seq<u8>, pos: int)
    requires
        0 <= pos <= s.len(),
        pos < s.len() ==> header_start(s, pos),
    ensures
        spec_body_line(s, pos) is None,
        crate::lexical::spec_comment_or_empty(s, pos) == pos,
{
    reveal(spec_body_line);
    reveal(spec_body_alternatives);
    lemma_body_literals();
    lemma_not_skipped(s, pos);
    lemma_not_position(s, pos);
    let i: int = if pos < s.len() && s[pos] == 'c' as u8 {
        1
    } else {
        0
    };
    lemma_tag_mismatch(s, pos, bytes_of("calls="), i);
    lemma_tag_mismatch(s, pos, bytes_of("jump="), 0);
    lemma_tag_mismatch(s, pos, bytes_of("jcnd="), 0);
    lemma_not_number(s, pos);
    lemma_tag_mismatch(s, pos, bytes_of("+"), 0);
    lemma_tag_mismatch(s, pos, bytes_of("-"), 0);
    lemma_tag_mismatch(s, pos, bytes_of("*"), 0);
}

} // verus!
