//! What the header grammar makes of header lines that were written from
//! values.

use crate::classes::is_alphanumeric_byte;
use crate::header::{
    spec_description, spec_event_specification, spec_events, spec_header_alternatives,
    spec_header_line, spec_inherited_def, spec_inherited_more, spec_inherited_term,
    spec_keyword_id, spec_long_name_def, spec_names_more, spec_positions, spec_target_command,
};
use crate::lexical::{bytes_of, newline, spec_space0, tag_at};
use crate::literals::lemma_header_literals;
use crate::model::{HeaderLineView, InheritedExprView};
use crate::render::{
    header_line_generated, inherited_term_generated, is_identifier, is_trimmed_text,
    render_header_line, render_inherited_def, render_inherited_more, render_inherited_term,
    render_long_name_def, render_names_more, render_number, sp,
};
use crate::tokens::{
    lemma_decimal_digits, lemma_identifier_bytes, lemma_name_at, lemma_no_space_at,
    lemma_not_skipped, lemma_number_decimal_at, lemma_one_space_at, lemma_tag_at_concat,
    lemma_tag_mismatch, lemma_text_at, lemma_trimmed_text_at,
};
use vstd::prelude::*;
use vstd::utf8::encode_utf8;

verus! {

/// Where a header line can start: at `p`, `t`, `d` or `e`, or at `cm`.
pub open spec fn header_start(s: Seq<u8>, pos: int) -> bool {
    &&& 0 <= pos < s.len()
    &&& s[pos] == 'p' as u8 || s[pos] == 't' as u8 || s[pos] == 'd' as u8 || s[pos] == 'e' as u8
        || (s[pos] == 'c' as u8 && pos + 1 < s.len() && s[pos + 1] == 'm' as u8)
}

/// Where a `cmd:` line stands before a newline, it is read.
proof fn lemma_cmd_at(s: Seq<u8>, pos: int, text: Seq<char>)
    requires
        is_trimmed_text(text),
        tag_at(s, pos, render_header_line(HeaderLineView::Cmd(text))),
        pos + render_header_line(HeaderLineView::Cmd(text)).len() < s.len(),
        s[pos + render_header_line(HeaderLineView::Cmd(text)).len()] == newline(),
    ensures
        spec_target_command(s, pos) == Some(
            (
                HeaderLineView::Cmd(text),
                pos + render_header_line(HeaderLineView::Cmd(text)).len(),
            ),
        ),
        header_start(s, pos),
{
    lemma_header_literals();
    let bytes = encode_utf8(text);
    lemma_tag_at_concat(s, pos, bytes_of("cmd:"), sp() + bytes);
    lemma_tag_at_concat(s, pos + 4, sp(), bytes);
    assert(s[pos + 0] == bytes_of("cmd:")[0]);
    assert(s[pos + 1] == bytes_of("cmd:")[1]);
    lemma_trimmed_text_at(s, pos + 5, text);
    lemma_one_space_at(s, pos + 4);
    lemma_text_at(s, pos + 5, text);
}

/// Where a keyword, `: ` and the text of an integer stand before a newline,
/// the integer is read.
proof fn lemma_keyword_id_at(s: Seq<u8>, pos: int, keyword: Seq<u8>, n: u32)
    requires
        tag_at(s, pos, keyword + (bytes_of(":") + (sp() + render_number(n)))),
        pos + (keyword + (bytes_of(":") + (sp() + render_number(n)))).len() < s.len(),
        s[pos + (keyword + (bytes_of(":") + (sp() + render_number(n)))).len()] == newline(),
    ensures
        spec_keyword_id(s, pos, keyword) == Some(
            (n, pos + (keyword + (bytes_of(":") + (sp() + render_number(n)))).len()),
        ),
{
    lemma_header_literals();
    let digits = render_number(n);
    lemma_decimal_digits(n as nat);
    lemma_tag_at_concat(s, pos, keyword, bytes_of(":") + (sp() + digits));
    let p = pos + keyword.len();
    lemma_tag_at_concat(s, p, bytes_of(":"), sp() + digits);
    lemma_tag_at_concat(s, p + 1, sp(), digits);
    assert(s[p + 2 + 0] == digits[0]);
    lemma_one_space_at(s, p + 1);
    lemma_number_decimal_at(s, p + 2, n);
}

/// Where a `desc:` line stands before a newline, it is read.
proof fn lemma_description_at(s: Seq<u8>, pos: int, key: Seq<char>, text: Seq<char>)
    requires
        header_line_generated(HeaderLineView::Description(key, text)),
        tag_at(s, pos, render_header_line(HeaderLineView::Description(key, text))),
        pos + render_header_line(HeaderLineView::Description(key, text)).len() < s.len(),
        s[pos + render_header_line(HeaderLineView::Description(key, text)).len()] == newline(),
    ensures
        spec_description(s, pos) == Some(
            (
                HeaderLineView::Description(key, text),
                pos + render_header_line(HeaderLineView::Description(key, text)).len(),
            ),
        ),
{
    lemma_header_literals();
    let k = encode_utf8(key);
    let t = encode_utf8(text);
    lemma_identifier_bytes(key);
    lemma_tag_at_concat(s, pos, bytes_of("desc:"), sp() + (k + (bytes_of(":") + t)));
    lemma_tag_at_concat(s, pos + 5, sp(), k + (bytes_of(":") + t));
    lemma_tag_at_concat(s, pos + 6, k, bytes_of(":") + t);
    let p = pos + 6 + k.len();
    lemma_tag_at_concat(s, p, bytes_of(":"), t);
    assert(s[pos + 6 + 0] == k[0]);
    assert(s[p + 0] == bytes_of(":")[0]);
    lemma_one_space_at(s, pos + 5);
    lemma_name_at(s, pos + 6, key);
    lemma_no_space_at(s, p);
    lemma_text_at(s, p + 1, text);
}

/// Where a term of an inherited event stands, and no letter or digit behind
/// it, the term is read.
pub proof fn lemma_inherited_term_at(s: Seq<u8>, pos: int, term: InheritedExprView)
    requires
        inherited_term_generated(term),
        tag_at(s, pos, render_inherited_term(term)),
        pos + render_inherited_term(term).len() < s.len() ==> !is_alphanumeric_byte(
            s[pos + render_inherited_term(term).len()],
        ),
    ensures
        spec_inherited_term(s, pos) == Some((term, pos + render_inherited_term(term).len())),
        render_inherited_term(term).len() > 0,
        is_alphanumeric_byte(s[pos]),
{
    lemma_header_literals();
    match term {
        InheritedExprView::Name(event) => {
            lemma_name_at(s, pos, event);
        },
        InheritedExprView::Mul(weight, event) => {
            let digits = render_number(weight);
            let e = encode_utf8(event);
            lemma_decimal_digits(weight as nat);
            lemma_identifier_bytes(event);
            lemma_tag_at_concat(s, pos, digits, sp() + (bytes_of("*") + (sp() + e)));
            let p = pos + digits.len();
            lemma_tag_at_concat(s, p, sp(), bytes_of("*") + (sp() + e));
            lemma_tag_at_concat(s, p + 1, bytes_of("*"), sp() + e);
            lemma_tag_at_concat(s, p + 2, sp(), e);
            assert(s[pos + 0] == digits[0]);
            assert(s[p + 0] == sp()[0]);
            assert(s[p + 1 + 0] == bytes_of("*")[0]);
            assert(s[p + 3 + 0] == e[0]);
            lemma_number_decimal_at(s, pos, weight);
            lemma_one_space_at(s, p);
            lemma_one_space_at(s, p + 2);
            lemma_name_at(s, p + 3, event);
        },
    }
}

/// Where the terms behind the first stand before `:` or a newline, they are
/// read, all of them.
pub proof fn lemma_inherited_more_at(s: Seq<u8>, pos: int, terms: Seq<InheritedExprView>)
    requires
        forall|i: int| 0 <= i < terms.len() ==> inherited_term_generated(#[trigger] terms[i]),
        tag_at(s, pos, render_inherited_more(terms)),
        pos + render_inherited_more(terms).len() < s.len(),
        s[pos + render_inherited_more(terms).len()] == newline() || s[pos
            + render_inherited_more(terms).len()] == ':' as u8,
    ensures
        spec_inherited_more(s, pos) == (terms, pos + render_inherited_more(terms).len()),
    decreases terms.len(),
{
    lemma_header_literals();
    if terms.len() == 0 {
        lemma_no_space_at(s, pos);
        lemma_tag_mismatch(s, pos, bytes_of("+"), 0);
        assert(terms =~= Seq::empty());
    } else {
        let first = render_inherited_term(terms[0]);
        let rest = render_inherited_more(terms.drop_first());
        lemma_tag_at_concat(s, pos, sp(), bytes_of("+") + (sp() + (first + rest)));
        lemma_tag_at_concat(s, pos + 1, bytes_of("+"), sp() + (first + rest));
        lemma_tag_at_concat(s, pos + 2, sp(), first + rest);
        lemma_tag_at_concat(s, pos + 3, first, rest);
        let end = pos + 3 + first.len();
        assert(s[pos + 1 + 0] == bytes_of("+")[0]);
        lemma_one_space_at(s, pos);
        if terms.len() > 1 {
            assert(rest =~= sp() + rest.subrange(1, rest.len() as int));
            lemma_tag_at_concat(s, end, sp(), rest.subrange(1, rest.len() as int));
            assert(s[end + 0] == sp()[0]);
        } else {
            assert(terms.drop_first() =~= Seq::empty());
        }
        assert(inherited_term_generated(terms[0]));
        lemma_inherited_term_at(s, pos + 3, terms[0]);
        lemma_one_space_at(s, pos + 2);
        lemma_inherited_more_at(s, end, terms.drop_first());
        assert(seq![terms[0]] + terms.drop_first() =~= terms);
    }
}

/// Where the definition of an inherited event stands behind the event's
/// name, and `:` or a newline behind it, it is read; where nothing stands for
/// it, none is read.
proof fn lemma_inherited_def_at(s: Seq<u8>, pos: int, inherited: Option<Seq<InheritedExprView>>)
    requires
        inherited matches Some(terms) ==> terms.len() > 0 && forall|i: int|
            0 <= i < terms.len() ==> inherited_term_generated(#[trigger] terms[i]),
        tag_at(s, pos, render_inherited_def(inherited)),
        pos + render_inherited_def(inherited).len() < s.len(),
        s[pos + render_inherited_def(inherited).len()] == newline() || s[pos
            + render_inherited_def(inherited).len()] == ':' as u8,
    ensures
        match inherited {
            Some(terms) => spec_inherited_def(s, spec_space0(s, pos)) == Some(
                (terms, pos + render_inherited_def(inherited).len()),
            ),
            None => spec_space0(s, pos) == pos && spec_inherited_def(s, pos) is None,
        },
{
    lemma_header_literals();
    match inherited {
        Some(terms) => {
            let first = render_inherited_term(terms[0]);
            let rest = render_inherited_more(terms.drop_first());
            lemma_tag_at_concat(s, pos, sp(), bytes_of("=") + (sp() + (first + rest)));
            lemma_tag_at_concat(s, pos + 1, bytes_of("="), sp() + (first + rest));
            lemma_tag_at_concat(s, pos + 2, sp(), first + rest);
            lemma_tag_at_concat(s, pos + 3, first, rest);
            let end = pos + 3 + first.len();
            assert(s[pos + 1 + 0] == bytes_of("=")[0]);
            lemma_one_space_at(s, pos);
            if terms.len() > 1 {
                assert(rest =~= sp() + rest.subrange(1, rest.len() as int));
                lemma_tag_at_concat(s, end, sp(), rest.subrange(1, rest.len() as int));
                assert(s[end + 0] == sp()[0]);
            } else {
                assert(terms.drop_first() =~= Seq::empty());
            }
            assert(inherited_term_generated(terms[0]));
            lemma_inherited_term_at(s, pos + 3, terms[0]);
            lemma_one_space_at(s, pos + 2);
            assert forall|i: int| 0 <= i < terms.drop_first().len() implies inherited_term_generated(
                #[trigger] terms.drop_first()[i],
            ) by {
                assert(terms.drop_first()[i] == terms[i + 1]);
            }
            lemma_inherited_more_at(s, end, terms.drop_first());
            assert(seq![terms[0]] + terms.drop_first() =~= terms);
        },
        None => {
            lemma_no_space_at(s, pos);
            lemma_tag_mismatch(s, pos, bytes_of("="), 0);
        },
    }
}

/// Where the long name of an event stands before a newline, it is read;
/// where the newline stands at once, none is read.
proof fn lemma_long_name_def_at(s: Seq<u8>, pos: int, long: Option<Seq<char>>)
    requires
        long matches Some(text) ==> is_trimmed_text(text),
        tag_at(s, pos, render_long_name_def(long)),
        pos + render_long_name_def(long).len() < s.len(),
        s[pos + render_long_name_def(long).len()] == newline(),
    ensures
        match long {
            Some(text) => spec_long_name_def(s, pos) == Some(
                (text, pos + render_long_name_def(long).len()),
            ),
            None => spec_long_name_def(s, pos) is None,
        },
        s[pos] == newline() || s[pos] == ':' as u8,
{
    lemma_header_literals();
    match long {
        Some(text) => {
            let t = encode_utf8(text);
            lemma_tag_at_concat(s, pos, bytes_of(":"), sp() + t);
            lemma_tag_at_concat(s, pos + 1, sp(), t);
            assert(s[pos + 0] == bytes_of(":")[0]);
            lemma_trimmed_text_at(s, pos + 2, text);
            lemma_one_space_at(s, pos + 1);
            lemma_text_at(s, pos + 2, text);
        },
        None => {
            lemma_tag_mismatch(s, pos, bytes_of(":"), 0);
        },
    }
}

/// Where an `event:` line stands before a newline, it is read.
proof fn lemma_event_specification_at(
    s: Seq<u8>,
    pos: int,
    event: Seq<char>,
    inherited: Option<Seq<InheritedExprView>>,
    long: Option<Seq<char>>,
)
    requires
        header_line_generated(HeaderLineView::EventSpec(event, inherited, long)),
        tag_at(s, pos, render_header_line(HeaderLineView::EventSpec(event, inherited, long))),
        pos + render_header_line(HeaderLineView::EventSpec(event, inherited, long)).len()
            < s.len(),
        s[pos + render_header_line(HeaderLineView::EventSpec(event, inherited, long)).len()]
            == newline(),
    ensures
        spec_event_specification(s, pos) == Some(
            (
                HeaderLineView::EventSpec(event, inherited, long),
                pos + render_header_line(
                    HeaderLineView::EventSpec(event, inherited, long),
                ).len(),
            ),
        ),
{
    lemma_header_literals();
    let e = encode_utf8(event);
    let i = render_inherited_def(inherited);
    let l = render_long_name_def(long);
    lemma_identifier_bytes(event);
    lemma_tag_at_concat(s, pos, bytes_of("event:"), sp() + (e + (i + l)));
    lemma_tag_at_concat(s, pos + 6, sp(), e + (i + l));
    lemma_tag_at_concat(s, pos + 7, e, i + l);
    let p = pos + 7 + e.len();
    lemma_tag_at_concat(s, p, i, l);
    let q = p + i.len();
    assert(s[pos + 7 + 0] == e[0]);
    lemma_one_space_at(s, pos + 6);
    lemma_long_name_def_at(s, q, long);
    lemma_inherited_def_at(s, p, inherited);
    if inherited is Some {
        assert(i =~= sp() + i.subrange(1, i.len() as int));
        lemma_tag_at_concat(s, p, sp(), i.subrange(1, i.len() as int));
        assert(s[p + 0] == sp()[0]);
    }
    lemma_name_at(s, pos + 7, event);
}

/// Where the identifiers behind the first stand before a newline, they are
/// read, all of them.
proof fn lemma_names_more_at(s: Seq<u8>, pos: int, names: Seq<Seq<char>>)
    requires
        forall|i: int| 0 <= i < names.len() ==> is_identifier(#[trigger] names[i]),
        tag_at(s, pos, render_names_more(names)),
        pos + render_names_more(names).len() < s.len(),
        s[pos + render_names_more(names).len()] == newline(),
    ensures
        spec_names_more(s, pos) == (names, pos + render_names_more(names).len()),
        s[pos] == newline() || s[pos] == 0x20,
    decreases names.len(),
{
    if names.len() == 0 {
        lemma_no_space_at(s, pos);
        assert(names =~= Seq::empty());
    } else {
        let first = encode_utf8(names[0]);
        let rest = render_names_more(names.drop_first());
        lemma_identifier_bytes(names[0]);
        lemma_tag_at_concat(s, pos, sp(), first + rest);
        lemma_tag_at_concat(s, pos + 1, first, rest);
        let end = pos + 1 + first.len();
        assert(s[pos + 0] == sp()[0]);
        assert(s[pos + 1 + 0] == first[0]);
        lemma_one_space_at(s, pos);
        assert forall|i: int| 0 <= i < names.drop_first().len() implies is_identifier(
            #[trigger] names.drop_first()[i],
        ) by {
            assert(names.drop_first()[i] == names[i + 1]);
        }
        lemma_names_more_at(s, end, names.drop_first());
        lemma_name_at(s, pos + 1, names[0]);
        assert(seq![names[0]] + names.drop_first() =~= names);
    }
}

/// Where an `events:` line stands before a newline, it is read.
proof fn lemma_events_at(s: Seq<u8>, pos: int, names: Seq<Seq<char>>)
    requires
        header_line_generated(HeaderLineView::Events(names)),
        tag_at(s, pos, render_header_line(HeaderLineView::Events(names))),
        pos + render_header_line(HeaderLineView::Events(names)).len() < s.len(),
        s[pos + render_header_line(HeaderLineView::Events(names)).len()] == newline(),
    ensures
        spec_events(s, pos) == Some(
            (
                HeaderLineView::Events(names),
                pos + render_header_line(HeaderLineView::Events(names)).len(),
            ),
        ),
{
    lemma_header_literals();
    let first = encode_utf8(names[0]);
    let rest = render_names_more(names.drop_first());
    lemma_identifier_bytes(names[0]);
    lemma_tag_at_concat(s, pos, bytes_of("events:"), sp() + (first + rest));
    lemma_tag_at_concat(s, pos + 7, sp(), first + rest);
    lemma_tag_at_concat(s, pos + 8, first, rest);
    let end = pos + 8 + first.len();
    assert(s[pos + 8 + 0] == first[0]);
    lemma_one_space_at(s, pos + 7);
    assert forall|i: int| 0 <= i < names.drop_first().len() implies is_identifier(
        #[trigger] names.drop_first()[i],
    ) by {
        assert(names.drop_first()[i] == names[i + 1]);
    }
    lemma_names_more_at(s, end, names.drop_first());
    lemma_name_at(s, pos + 8, names[0]);
    assert(seq![names[0]] + names.drop_first() =~= names);
}

/// Where a `positions:` line stands before a newline, it is read.
proof fn lemma_positions_at(s: Seq<u8>, pos: int, instr: bool, line: bool)
    requires
        line ==> instr,
        tag_at(s, pos, render_header_line(HeaderLineView::Positions(instr, line))),
        pos + render_header_line(HeaderLineView::Positions(instr, line)).len() < s.len(),
        s[pos + render_header_line(HeaderLineView::Positions(instr, line)).len()] == newline(),
    ensures
        spec_positions(s, pos) == Some(
            (
                HeaderLineView::Positions(instr, line),
                pos + render_header_line(HeaderLineView::Positions(instr, line)).len(),
            ),
        ),
{
    lemma_header_literals();
    let a = if instr {
        sp() + bytes_of("instr")
    } else {
        Seq::empty()
    };
    let b = if line {
        sp() + bytes_of("line")
    } else {
        Seq::empty()
    };
    lemma_tag_at_concat(s, pos, bytes_of("positions:"), a + b);
    let p = pos + 10;
    lemma_tag_at_concat(s, p, a, b);
    if instr {
        lemma_tag_at_concat(s, p, sp(), bytes_of("instr"));
        assert(s[p + 1 + 0] == bytes_of("instr")[0]);
        lemma_one_space_at(s, p);
        if line {
            lemma_tag_at_concat(s, p + 6, sp(), bytes_of("line"));
            assert(s[p + 7 + 0] == bytes_of("line")[0]);
            lemma_one_space_at(s, p + 6);
        } else {
            lemma_no_space_at(s, p + 6);
        }
    } else {
        lemma_no_space_at(s, p);
        lemma_tag_mismatch(s, p, bytes_of("instr"), 0);
    }
}

/// Where such a line stands before a newline, no alternative before its own
/// reads it, and its own does.
#[verifier::rlimit(40)]
proof fn lemma_cmd_line_at(s: Seq<u8>, pos: int, line: HeaderLineView)
    requires
        line is Cmd,
        header_line_generated(line),
        tag_at(s, pos, render_header_line(line)),
        pos + render_header_line(line).len() < s.len(),
        s[pos + render_header_line(line).len()] == newline(),
    ensures
        spec_header_alternatives(s, pos) == Some((line, pos + render_header_line(line).len())),
        header_start(s, pos),
{
    reveal(spec_header_alternatives);
    lemma_header_literals();
    match line {
        HeaderLineView::Cmd(command) => {
            lemma_cmd_at(s, pos, command);
        },
        _ => {},
    }
}

/// Where such a line stands before a newline, no alternative before its own
/// reads it, and its own does.
#[verifier::rlimit(40)]
proof fn lemma_pid_line_at(s: Seq<u8>, pos: int, line: HeaderLineView)
    requires
        line is Pid,
        header_line_generated(line),
        tag_at(s, pos, render_header_line(line)),
        pos + render_header_line(line).len() < s.len(),
        s[pos + render_header_line(line).len()] == newline(),
    ensures
        spec_header_alternatives(s, pos) == Some((line, pos + render_header_line(line).len())),
        header_start(s, pos),
{
    reveal(spec_header_alternatives);
    lemma_header_literals();
    match line {
        HeaderLineView::Pid(n) => {
            lemma_keyword_id_at(s, pos, bytes_of("pid"), n);
            lemma_tag_at_concat(s, pos, bytes_of("pid"), bytes_of(":") + (sp() + render_number(n)));
            assert(s[pos + 0] == bytes_of("pid")[0]);
            lemma_tag_mismatch(s, pos, bytes_of("cmd:"), 0);
        },
        _ => {},
    }
}

/// Where such a line stands before a newline, no alternative before its own
/// reads it, and its own does.
#[verifier::rlimit(40)]
proof fn lemma_thread_line_at(s: Seq<u8>, pos: int, line: HeaderLineView)
    requires
        line is Thread,
        header_line_generated(line),
        tag_at(s, pos, render_header_line(line)),
        pos + render_header_line(line).len() < s.len(),
        s[pos + render_header_line(line).len()] == newline(),
    ensures
        spec_header_alternatives(s, pos) == Some((line, pos + render_header_line(line).len())),
        header_start(s, pos),
{
    reveal(spec_header_alternatives);
    lemma_header_literals();
    match line {
        HeaderLineView::Thread(n) => {
            lemma_keyword_id_at(s, pos, bytes_of("thread"), n);
            lemma_tag_at_concat(
                s,
                pos,
                bytes_of("thread"),
                bytes_of(":") + (sp() + render_number(n)),
            );
            assert(s[pos + 0] == bytes_of("thread")[0]);
            lemma_tag_mismatch(s, pos, bytes_of("cmd:"), 0);
            lemma_tag_mismatch(s, pos, bytes_of("pid"), 0);
        },
        _ => {},
    }
}

/// Where such a line stands before a newline, no alternative before its own
/// reads it, and its own does.
#[verifier::rlimit(40)]
proof fn lemma_part_line_at(s: Seq<u8>, pos: int, line: HeaderLineView)
    requires
        line is Part,
        header_line_generated(line),
        tag_at(s, pos, render_header_line(line)),
        pos + render_header_line(line).len() < s.len(),
        s[pos + render_header_line(line).len()] == newline(),
    ensures
        spec_header_alternatives(s, pos) == Some((line, pos + render_header_line(line).len())),
        header_start(s, pos),
{
    reveal(spec_header_alternatives);
    lemma_header_literals();
    match line {
        HeaderLineView::Part(n) => {
            lemma_keyword_id_at(s, pos, bytes_of("part"), n);
            lemma_tag_at_concat(
                s,
                pos,
                bytes_of("part"),
                bytes_of(":") + (sp() + render_number(n)),
            );
            assert(s[pos + 0] == bytes_of("part")[0]);
            assert(s[pos + 1] == bytes_of("part")[1]);
            lemma_tag_mismatch(s, pos, bytes_of("cmd:"), 0);
            lemma_tag_mismatch(s, pos, bytes_of("pid"), 1);
            lemma_tag_mismatch(s, pos, bytes_of("thread"), 0);
        },
        _ => {},
    }
}

/// Where such a line stands before a newline, no alternative before its own
/// reads it, and its own does.
#[verifier::rlimit(40)]
proof fn lemma_description_line_at(s: Seq<u8>, pos: int, line: HeaderLineView)
    requires
        line is Description,
        header_line_generated(line),
        tag_at(s, pos, render_header_line(line)),
        pos + render_header_line(line).len() < s.len(),
        s[pos + render_header_line(line).len()] == newline(),
    ensures
        spec_header_alternatives(s, pos) == Some((line, pos + render_header_line(line).len())),
        header_start(s, pos),
{
    reveal(spec_header_alternatives);
    lemma_header_literals();
    match line {
        HeaderLineView::Description(key, description) => {
            lemma_description_at(s, pos, key, description);
            lemma_tag_at_concat(
                s,
                pos,
                bytes_of("desc:"),
                sp() + (encode_utf8(key) + (bytes_of(":") + encode_utf8(description))),
            );
            assert(s[pos + 0] == bytes_of("desc:")[0]);
            lemma_tag_mismatch(s, pos, bytes_of("cmd:"), 0);
            lemma_tag_mismatch(s, pos, bytes_of("pid"), 0);
            lemma_tag_mismatch(s, pos, bytes_of("thread"), 0);
            lemma_tag_mismatch(s, pos, bytes_of("part"), 0);
        },
        _ => {},
    }
}

/// Where such a line stands before a newline, no alternative before its own
/// reads it, and its own does.
#[verifier::rlimit(40)]
proof fn lemma_event_spec_line_at(s: Seq<u8>, pos: int, line: HeaderLineView)
    requires
        line is EventSpec,
        header_line_generated(line),
        tag_at(s, pos, render_header_line(line)),
        pos + render_header_line(line).len() < s.len(),
        s[pos + render_header_line(line).len()] == newline(),
    ensures
        spec_header_alternatives(s, pos) == Some((line, pos + render_header_line(line).len())),
        header_start(s, pos),
{
    reveal(spec_header_alternatives);
    lemma_header_literals();
    match line {
        HeaderLineView::EventSpec(event, inherited, long) => {
            lemma_event_specification_at(s, pos, event, inherited, long);
            lemma_tag_at_concat(
                s,
                pos,
                bytes_of("event:"),
                sp() + (encode_utf8(event) + (render_inherited_def(inherited)
                    + render_long_name_def(long))),
            );
            assert(s[pos + 0] == bytes_of("event:")[0]);
            lemma_tag_mismatch(s, pos, bytes_of("cmd:"), 0);
            lemma_tag_mismatch(s, pos, bytes_of("pid"), 0);
            lemma_tag_mismatch(s, pos, bytes_of("thread"), 0);
            lemma_tag_mismatch(s, pos, bytes_of("part"), 0);
            lemma_tag_mismatch(s, pos, bytes_of("desc:"), 0);
        },
        _ => {},
    }
}

/// Where such a line stands before a newline, no alternative before its own
/// reads it, and its own does.
#[verifier::rlimit(40)]
proof fn lemma_events_line_at(s: Seq<u8>, pos: int, line: HeaderLineView)
    requires
        line is Events,
        header_line_generated(line),
        tag_at(s, pos, render_header_line(line)),
        pos + render_header_line(line).len() < s.len(),
        s[pos + render_header_line(line).len()] == newline(),
    ensures
        spec_header_alternatives(s, pos) == Some((line, pos + render_header_line(line).len())),
        header_start(s, pos),
{
    reveal(spec_header_alternatives);
    lemma_header_literals();
    match line {
        HeaderLineView::Events(names) => {
            lemma_events_at(s, pos, names);
            lemma_tag_at_concat(
                s,
                pos,
                bytes_of("events:"),
                sp() + (encode_utf8(names[0]) + render_names_more(names.drop_first())),
            );
            assert(s[pos + 0] == bytes_of("events:")[0]);
            assert(s[pos + 5] == bytes_of("events:")[5]);
            lemma_tag_mismatch(s, pos, bytes_of("cmd:"), 0);
            lemma_tag_mismatch(s, pos, bytes_of("pid"), 0);
            lemma_tag_mismatch(s, pos, bytes_of("thread"), 0);
            lemma_tag_mismatch(s, pos, bytes_of("part"), 0);
            lemma_tag_mismatch(s, pos, bytes_of("desc:"), 0);
            lemma_tag_mismatch(s, pos, bytes_of("event:"), 5);
        },
        _ => {},
    }
}

/// Where such a line stands before a newline, no alternative before its own
/// reads it, and its own does.
#[verifier::rlimit(40)]
proof fn lemma_positions_line_at(s: Seq<u8>, pos: int, line: HeaderLineView)
    requires
        line is Positions,
        header_line_generated(line),
        tag_at(s, pos, render_header_line(line)),
        pos + render_header_line(line).len() < s.len(),
        s[pos + render_header_line(line).len()] == newline(),
    ensures
        spec_header_alternatives(s, pos) == Some((line, pos + render_header_line(line).len())),
        header_start(s, pos),
{
    reveal(spec_header_alternatives);
    lemma_header_literals();
    match line {
        HeaderLineView::Positions(instr, with_line) => {
            lemma_positions_at(s, pos, instr, with_line);
            let a = if instr {
                sp() + bytes_of("instr")
            } else {
                Seq::empty()
            };
            let b = if with_line {
                sp() + bytes_of("line")
            } else {
                Seq::empty()
            };
            lemma_tag_at_concat(s, pos, bytes_of("positions:"), a + b);
            assert(s[pos + 0] == bytes_of("positions:")[0]);
            assert(s[pos + 1] == bytes_of("positions:")[1]);
            lemma_tag_mismatch(s, pos, bytes_of("cmd:"), 0);
            lemma_tag_mismatch(s, pos, bytes_of("pid"), 1);
            lemma_tag_mismatch(s, pos, bytes_of("thread"), 0);
            lemma_tag_mismatch(s, pos, bytes_of("part"), 1);
            lemma_tag_mismatch(s, pos, bytes_of("desc:"), 0);
            lemma_tag_mismatch(s, pos, bytes_of("event:"), 0);
            lemma_tag_mismatch(s, pos, bytes_of("events:"), 0);
        },
        _ => {},
    }
}

/// Where a header line that the grammar can produce stands before a
/// newline, the header rule reads that line and ends at the newline.
pub proof fn lemma_header_line_at(s: Seq<u8>, pos: int, line: HeaderLineView)
    requires
        header_line_generated(line),
        tag_at(s, pos, render_header_line(line)),
        pos + render_header_line(line).len() < s.len(),
        s[pos + render_header_line(line).len()] == newline(),
    ensures
        spec_header_line(s, pos) == Some((line, pos + render_header_line(line).len())),
        header_start(s, pos),
{
    match line {
        HeaderLineView::Cmd(..) => lemma_cmd_line_at(s, pos, line),
        HeaderLineView::Pid(..) => lemma_pid_line_at(s, pos, line),
        HeaderLineView::Thread(..) => lemma_thread_line_at(s, pos, line),
        HeaderLineView::Part(..) => lemma_part_line_at(s, pos, line),
        HeaderLineView::Description(..) => lemma_description_line_at(s, pos, line),
        HeaderLineView::EventSpec(..) => lemma_event_spec_line_at(s, pos, line),
        HeaderLineView::Events(..) => lemma_events_line_at(s, pos, line),
        HeaderLineView::Positions(..) => lemma_positions_line_at(s, pos, line),
    }
    reveal(spec_header_line);
    lemma_not_skipped(s, pos);
}

} // verus!
