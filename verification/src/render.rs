//! The text of a document tree: what each value is written as, and which
//! trees the grammar can produce.

use crate::body::spec_position_id;
use crate::lexical::bytes_of;
use crate::model::{
    BodyLineView, CallgrindEntryView, CallgrindFileView, CostLineView, HeaderLineView,
    InheritedExprView, PositionType, PositionView, SubDirection, SubPosition,
};
use vstd::prelude::*;
use vstd::utf8::encode_utf8;

verus! {

/// The decimal text of a number, without leading zeros.
pub open spec fn decimal_digits(n: nat) -> Seq<u8>
    decreases n,
{
    if n < 10 {
        seq![(0x30 + n) as u8]
    } else {
        decimal_digits(n / 10).push((0x30 + n % 10) as u8)
    }
}

/// The hexadecimal digit of a value below 16, in the case asked for.
pub open spec fn hex_digit(d: nat, upper: bool) -> u8 {
    if d < 10 {
        (0x30 + d) as u8
    } else if upper {
        (0x41 + d - 10) as u8
    } else {
        (0x61 + d - 10) as u8
    }
}

/// The hexadecimal text of a number, without leading zeros and without the
/// `0x` before it.
pub open spec fn hex_digits(n: nat, upper: bool) -> Seq<u8>
    decreases n,
{
    if n < 16 {
        seq![hex_digit(n, upper)]
    } else {
        hex_digits(n / 16, upper).push(hex_digit(n % 16, upper))
    }
}

/// One space.
pub open spec fn sp() -> Seq<u8> {
    seq![0x20u8]
}

/// An integer as it is written: in decimal.
pub open spec fn render_number(n: u32) -> Seq<u8> {
    decimal_digits(n as nat)
}

/// An ASCII letter.
pub open spec fn is_alpha_char(c: char) -> bool {
    ('A' <= c && c <= 'Z') || ('a' <= c && c <= 'z')
}

/// An ASCII letter or decimal digit.
pub open spec fn is_alphanumeric_char(c: char) -> bool {
    is_alpha_char(c) || ('0' <= c && c <= '9')
}

/// Text that the identifier rule can give: a letter, then letters and
/// digits.
pub open spec fn is_identifier(name: Seq<char>) -> bool {
    &&& name.len() > 0
    &&& is_alpha_char(name[0])
    &&& forall|i: int| 0 <= i < name.len() ==> is_alphanumeric_char(#[trigger] name[i])
}

/// Text that fits in a line: it holds no newline.
pub open spec fn is_line_text(text: Seq<char>) -> bool {
    forall|i: int| 0 <= i < text.len() ==> #[trigger] text[i] != '\n'
}

/// Text of a line that can stand behind optional space: it does not itself
/// start with a space or a tab.
pub open spec fn is_trimmed_text(text: Seq<char>) -> bool {
    &&& is_line_text(text)
    &&& text.len() > 0 ==> text[0] != ' ' && text[0] != '\t'
}

/// A term of an inherited event as it is written.
pub open spec fn render_inherited_term(term: InheritedExprView) -> Seq<u8> {
    match term {
        InheritedExprView::Name(event) => encode_utf8(event),
        InheritedExprView::Mul(weight, event) => render_number(weight) + (sp() + (bytes_of("*")
            + (sp() + encode_utf8(event)))),
    }
}

/// The terms behind the first as they are written: each behind ` + `.
pub open spec fn render_inherited_more(terms: Seq<InheritedExprView>) -> Seq<u8>
    decreases terms.len(),
{
    if terms.len() == 0 {
        Seq::empty()
    } else {
        sp() + (bytes_of("+") + (sp() + (render_inherited_term(terms[0]) + render_inherited_more(
            terms.drop_first(),
        ))))
    }
}

/// The names of a term of an inherited event are identifiers.
pub open spec fn inherited_term_generated(term: InheritedExprView) -> bool {
    match term {
        InheritedExprView::Name(event) => is_identifier(event),
        InheritedExprView::Mul(_, event) => is_identifier(event),
    }
}

/// The identifiers behind the first as they are written: each behind a
/// space.
pub open spec fn render_names_more(names: Seq<Seq<char>>) -> Seq<u8>
    decreases names.len(),
{
    if names.len() == 0 {
        Seq::empty()
    } else {
        sp() + (encode_utf8(names[0]) + render_names_more(names.drop_first()))
    }
}

/// A header line as it is written, without its newline.
pub open spec fn render_header_line(line: HeaderLineView) -> Seq<u8> {
    match line {
        HeaderLineView::Cmd(text) => bytes_of("cmd:") + (sp() + encode_utf8(text)),
        HeaderLineView::Pid(n) => bytes_of("pid") + (bytes_of(":") + (sp() + render_number(n))),
        HeaderLineView::Thread(n) => bytes_of("thread") + (bytes_of(":") + (sp() + render_number(
            n,
        ))),
        HeaderLineView::Part(n) => bytes_of("part") + (bytes_of(":") + (sp() + render_number(n))),
        HeaderLineView::Description(key, text) => bytes_of("desc:") + (sp() + (encode_utf8(key)
            + (bytes_of(":") + encode_utf8(text)))),
        HeaderLineView::EventSpec(event, inherited, long) => bytes_of("event:") + (sp() + (
        encode_utf8(event) + (render_inherited_def(inherited) + render_long_name_def(long)))),
        HeaderLineView::Events(names) => bytes_of("events:") + (sp() + (encode_utf8(names[0])
            + render_names_more(names.drop_first()))),
        HeaderLineView::Positions(instr, line) => bytes_of("positions:") + ((if instr {
            sp() + bytes_of("instr")
        } else {
            Seq::empty()
        }) + (if line {
            sp() + bytes_of("line")
        } else {
            Seq::empty()
        })),
    }
}

/// The definition of an inherited event as it is written behind the event's
/// name: ` = ` and the terms, or nothing.
pub open spec fn render_inherited_def(inherited: Option<Seq<InheritedExprView>>) -> Seq<u8> {
    match inherited {
        Some(terms) => sp() + (bytes_of("=") + (sp() + (render_inherited_term(terms[0])
            + render_inherited_more(terms.drop_first())))),
        None => Seq::empty(),
    }
}

/// The long name of an event as it is written: `: ` and the name, or
/// nothing.
pub open spec fn render_long_name_def(long: Option<Seq<char>>) -> Seq<u8> {
    match long {
        Some(text) => bytes_of(":") + (sp() + encode_utf8(text)),
        None => Seq::empty(),
    }
}

/// The header lines that the grammar can produce: names are identifiers,
/// text fits in a line and does not start with space where the grammar
/// passes space before it, lists are not empty, and a `line` column comes
/// with an `instr` column.
pub open spec fn header_line_generated(line: HeaderLineView) -> bool {
    match line {
        HeaderLineView::Cmd(text) => is_trimmed_text(text),
        HeaderLineView::Pid(_) => true,
        HeaderLineView::Thread(_) => true,
        HeaderLineView::Part(_) => true,
        HeaderLineView::Description(key, text) => is_identifier(key) && is_line_text(text),
        HeaderLineView::EventSpec(event, inherited, long) => {
            &&& is_identifier(event)
            &&& inherited matches Some(terms) ==> terms.len() > 0 && forall|i: int|
                0 <= i < terms.len() ==> inherited_term_generated(#[trigger] terms[i])
            &&& long matches Some(text) ==> is_trimmed_text(text)
        },
        HeaderLineView::Events(names) => names.len() > 0 && forall|i: int|
            0 <= i < names.len() ==> is_identifier(#[trigger] names[i]),
        HeaderLineView::Positions(instr, line) => line ==> instr,
    }
}

/// A sub-position as it is written.
pub open spec fn render_sub_position(item: SubPosition) -> Seq<u8> {
    match item {
        SubPosition::Absolute(n) => render_number(n),
        SubPosition::Relative(SubDirection::Plus, n) => bytes_of("+") + render_number(n),
        SubPosition::Relative(SubDirection::Minus, n) => bytes_of("-") + render_number(n),
        SubPosition::Same => bytes_of("*"),
    }
}

/// The sub-positions behind the first as they are written: each behind a
/// space.
pub open spec fn render_sub_positions_more(items: Seq<SubPosition>) -> Seq<u8>
    decreases items.len(),
{
    if items.len() == 0 {
        Seq::empty()
    } else {
        sp() + (render_sub_position(items[0]) + render_sub_positions_more(items.drop_first()))
    }
}

/// A list of sub-positions as it is written: with one space between them.
pub open spec fn render_sub_position_list(items: Seq<SubPosition>) -> Seq<u8> {
    render_sub_position(items[0]) + render_sub_positions_more(items.drop_first())
}

/// Cost values as columns of a line.
pub open spec fn absolute_columns(values: Seq<u32>) -> Seq<SubPosition> {
    Seq::new(values.len(), |i: int| SubPosition::Absolute(values[i]))
}

/// All columns of a cost line: the sub-positions, then the cost values.
pub open spec fn cost_line_columns(line: CostLineView) -> Seq<SubPosition> {
    match line.costs {
        Some(values) => line.positions + absolute_columns(values),
        None => line.positions,
    }
}

/// A cost line as it is written: its columns with one space between them.
pub open spec fn render_cost_line(line: CostLineView) -> Seq<u8> {
    render_sub_position_list(cost_line_columns(line))
}

/// The cost lines that the grammar can produce: there is a sub-position; the
/// cost values, where there are any, are not an empty list; and behind the
/// first column no sub-position that is a plain integer stands last, for it
/// would be read as a cost value.
pub open spec fn cost_line_generated(line: CostLineView) -> bool {
    &&& line.positions.len() > 0
    &&& line.positions.len() == 1 || !(line.positions.last() is Absolute)
    &&& line.costs matches Some(values) ==> values.len() > 0
}

/// The kind of a position line as it is written. Of the spellings that share
/// a kind, the first is written.
pub open spec fn render_position_type(kind: PositionType) -> Seq<u8> {
    match kind {
        PositionType::Object => bytes_of("ob"),
        PositionType::File => bytes_of("fl"),
        PositionType::Function => bytes_of("fn"),
        PositionType::CallObject => bytes_of("cob"),
        PositionType::CallFile => bytes_of("cfi"),
        PositionType::CallFunction => bytes_of("cfn"),
    }
}

/// What a position line assigns as it is written: the reference in round
/// brackets, then the name, behind a space where it follows a reference.
pub open spec fn render_position(assigned: PositionView) -> Seq<u8> {
    match assigned.id {
        Some(id) => bytes_of("(") + (render_number(id) + (bytes_of(")") + (match assigned.val {
            Some(text) => sp() + encode_utf8(text),
            None => Seq::empty(),
        }))),
        None => match assigned.val {
            Some(text) => encode_utf8(text),
            None => Seq::empty(),
        },
    }
}

/// The positions that the grammar can produce: a name has a character at
/// least, fits in a line and does not start with space; and a name without a
/// reference does not itself start with a reference.
pub open spec fn position_generated(assigned: PositionView) -> bool {
    assigned.val matches Some(text) ==> {
        &&& text.len() > 0
        &&& is_trimmed_text(text)
        &&& assigned.id is None ==> spec_position_id(encode_utf8(text), 0) is None
    }
}

/// A body line as it is written, without its last newline.
pub open spec fn render_body_line(line: BodyLineView) -> Seq<u8> {
    match line {
        BodyLineView::Comment => Seq::empty(),
        BodyLineView::Cost(cost) => render_cost_line(cost),
        BodyLineView::PositionSpec(kind, assigned) => render_position_type(kind) + (bytes_of("=")
            + render_position(assigned)),
        BodyLineView::CallSpec(n, items, cost) => bytes_of("calls=") + (render_number(n) + (sp()
            + (render_sub_position_list(items) + (bytes_of("\n") + render_cost_line(cost))))),
        BodyLineView::UncondJumpSpec(n, items) => bytes_of("jump=") + (render_number(n) + (sp()
            + render_sub_position_list(items))),
        BodyLineView::CondJumpSpec(taken, not_taken, items) => bytes_of("jcnd=") + (
        render_number(taken) + (sp() + (render_number(not_taken) + (sp()
            + render_sub_position_list(items))))),
    }
}

/// The body lines that the grammar can produce. A comment is none of them:
/// the parser passes comments without a mark.
pub open spec fn body_line_generated(line: BodyLineView) -> bool {
    match line {
        BodyLineView::Comment => false,
        BodyLineView::Cost(cost) => cost_line_generated(cost),
        BodyLineView::PositionSpec(_, assigned) => position_generated(assigned),
        BodyLineView::CallSpec(_, items, cost) => items.len() > 0 && cost_line_generated(cost),
        BodyLineView::UncondJumpSpec(_, items) => items.len() > 0,
        BodyLineView::CondJumpSpec(_, _, items) => items.len() > 0,
    }
}

/// Header lines as they are written, each with its newline.
pub open spec fn render_header_lines(lines: Seq<HeaderLineView>) -> Seq<u8>
    decreases lines.len(),
{
    if lines.len() == 0 {
        Seq::empty()
    } else {
        render_header_line(lines[0]) + (bytes_of("\n") + render_header_lines(lines.drop_first()))
    }
}

/// Body lines as they are written, each with its newline.
pub open spec fn render_body_lines(lines: Seq<BodyLineView>) -> Seq<u8>
    decreases lines.len(),
{
    if lines.len() == 0 {
        Seq::empty()
    } else {
        render_body_line(lines[0]) + (bytes_of("\n") + render_body_lines(lines.drop_first()))
    }
}

/// A part as it is written: its header lines, then its body lines.
pub open spec fn render_part(part: CallgrindEntryView) -> Seq<u8> {
    render_header_lines(part.header) + render_body_lines(part.body)
}

/// The parts that the grammar can produce: with a header line and a body
/// line at least, each of them one that the grammar can produce.
pub open spec fn part_generated(part: CallgrindEntryView) -> bool {
    &&& part.header.len() > 0
    &&& part.body.len() > 0
    &&& forall|i: int| 0 <= i < part.header.len() ==> header_line_generated(#[trigger] part.header[i])
    &&& forall|i: int| 0 <= i < part.body.len() ==> body_line_generated(#[trigger] part.body[i])
}

/// Parts as they are written, one behind the other.
pub open spec fn render_parts(parts: Seq<CallgrindEntryView>) -> Seq<u8>
    decreases parts.len(),
{
    if parts.len() == 0 {
        Seq::empty()
    } else {
        render_part(parts[0]) + render_parts(parts.drop_first())
    }
}

/// The creator line as it is written, or nothing.
pub open spec fn render_creator(creator: Option<Seq<char>>) -> Seq<u8> {
    match creator {
        Some(text) => bytes_of("creator:") + (encode_utf8(text) + bytes_of("\n")),
        None => Seq::empty(),
    }
}

/// The version line as it is written.
pub open spec fn render_version(version: u32) -> Seq<u8> {
    bytes_of("version:") + (sp() + (render_number(version) + bytes_of("\n")))
}

/// A profile as it is written: the version line, the creator line where
/// there is a creator, and the parts.
pub open spec fn render_file(file: CallgrindFileView) -> Seq<u8> {
    render_version(file.version) + (render_creator(file.creator) + render_parts(file.data))
}

/// The profiles that the grammar can produce: the creator fits in a line,
/// and every part is one that the grammar can produce.
pub open spec fn file_generated(file: CallgrindFileView) -> bool {
    &&& file.creator matches Some(text) ==> is_line_text(text)
    &&& forall|i: int| 0 <= i < file.data.len() ==> part_generated(#[trigger] file.data[i])
}

} // verus!
