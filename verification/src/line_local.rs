//! Line locality of the lexical rules: a rule that starts in a line reads
//! nothing behind the newline of that line, so what it gives depends on the
//! bytes of the line alone.

use crate::classes::{run_end, ByteClass};
use crate::lexical::{
    bytes_of, lemma_ascii_literal, line_end, newline, spec_name, spec_no_newline_chars,
    spec_number, spec_skipped_line, spec_space0, spec_space1, spec_tag, tag_at,
};
use vstd::prelude::*;

verus! {

/// The two buffers hold the same bytes from `pos` to `e`, where a newline
/// stands.
pub open spec fn same_line(s1: Seq<u8>, s2: Seq<u8>, pos: int, e: int) -> bool {
    &&& 0 <= pos <= e
    &&& e < s1.len()
    &&& e < s2.len()
    &&& s1[e] == newline()
    &&& forall|i: int| #![trigger s1[i]] #![trigger s2[i]] pos <= i <= e ==> s1[i] == s2[i]
}

/// Bytes without a newline among them.
pub open spec fn no_newline_in(lit: Seq<u8>) -> bool {
    forall|i: int| 0 <= i < lit.len() ==> #[trigger] lit[i] != newline()
}

/// The keywords and marks of the grammar hold no newline.
pub proof fn lemma_literals_hold_no_newline()
    ensures
        no_newline_in(bytes_of("0x")),
        no_newline_in(bytes_of("cmd:")),
        no_newline_in(bytes_of(":")),
        no_newline_in(bytes_of("pid")),
        no_newline_in(bytes_of("thread")),
        no_newline_in(bytes_of("part")),
        no_newline_in(bytes_of("desc:")),
        no_newline_in(bytes_of("event:")),
        no_newline_in(bytes_of("events:")),
        no_newline_in(bytes_of("positions:")),
        no_newline_in(bytes_of("instr")),
        no_newline_in(bytes_of("line")),
        no_newline_in(bytes_of("=")),
        no_newline_in(bytes_of("+")),
        no_newline_in(bytes_of("*")),
        no_newline_in(bytes_of("-")),
        no_newline_in(bytes_of("(")),
        no_newline_in(bytes_of(")")),
        no_newline_in(bytes_of("cob")),
        no_newline_in(bytes_of("cfi")),
        no_newline_in(bytes_of("cfl")),
        no_newline_in(bytes_of("cfn")),
        no_newline_in(bytes_of("ob")),
        no_newline_in(bytes_of("fl")),
        no_newline_in(bytes_of("fi")),
        no_newline_in(bytes_of("fe")),
        no_newline_in(bytes_of("fn")),
        no_newline_in(bytes_of("calls=")),
        no_newline_in(bytes_of("jump=")),
        no_newline_in(bytes_of("jcnd=")),
        no_newline_in(bytes_of("version:")),
        no_newline_in(bytes_of("creator:")),
{
    reveal_strlit("0x");
    lemma_ascii_literal("0x");
    reveal_strlit("cmd:");
    lemma_ascii_literal("cmd:");
    reveal_strlit(":");
    lemma_ascii_literal(":");
    reveal_strlit("pid");
    lemma_ascii_literal("pid");
    reveal_strlit("thread");
    lemma_ascii_literal("thread");
    reveal_strlit("part");
    lemma_ascii_literal("part");
    reveal_strlit("desc:");
    lemma_ascii_literal("desc:");
    reveal_strlit("event:");
    lemma_ascii_literal("event:");
    reveal_strlit("events:");
    lemma_ascii_literal("events:");
    reveal_strlit("positions:");
    lemma_ascii_literal("positions:");
    reveal_strlit("instr");
    lemma_ascii_literal("instr");
    reveal_strlit("line");
    lemma_ascii_literal("line");
    reveal_strlit("=");
    lemma_ascii_literal("=");
    reveal_strlit("+");
    lemma_ascii_literal("+");
    reveal_strlit("*");
    lemma_ascii_literal("*");
    reveal_strlit("-");
    lemma_ascii_literal("-");
    reveal_strlit("(");
    lemma_ascii_literal("(");
    reveal_strlit(")");
    lemma_ascii_literal(")");
    reveal_strlit("cob");
    lemma_ascii_literal("cob");
    reveal_strlit("cfi");
    lemma_ascii_literal("cfi");
    reveal_strlit("cfl");
    lemma_ascii_literal("cfl");
    reveal_strlit("cfn");
    lemma_ascii_literal("cfn");
    reveal_strlit("ob");
    lemma_ascii_literal("ob");
    reveal_strlit("fl");
    lemma_ascii_literal("fl");
    reveal_strlit("fi");
    lemma_ascii_literal("fi");
    reveal_strlit("fe");
    lemma_ascii_literal("fe");
    reveal_strlit("fn");
    lemma_ascii_literal("fn");
    reveal_strlit("calls=");
    lemma_ascii_literal("calls=");
    reveal_strlit("jump=");
    lemma_ascii_literal("jump=");
    reveal_strlit("jcnd=");
    lemma_ascii_literal("jcnd=");
    reveal_strlit("version:");
    lemma_ascii_literal("version:");
    reveal_strlit("creator:");
    lemma_ascii_literal("creator:");
}

/// A run ends before the newline of its line, at the same place in both
/// buffers.
pub proof fn lemma_run_end_same(s1: Seq<u8>, s2: Seq<u8>, pos: int, e: int, class: ByteClass)
    requires
        same_line(s1, s2, pos, e),
    ensures
        run_end(s1, pos, class) == run_end(s2, pos, class),
        pos <= run_end(s1, pos, class) <= e,
    decreases e - pos,
{
    assert(s1[pos] == s2[pos]);
    if pos < e && class.holds(s1[pos]) {
        lemma_run_end_same(s1, s2, pos + 1, e, class);
    }
}

/// A literal without a newline matches in both buffers or in neither, and
/// ends before the newline of its line.
pub proof fn lemma_tag_same(s1: Seq<u8>, s2: Seq<u8>, pos: int, e: int, lit: Seq<u8>)
    requires
        same_line(s1, s2, pos, e),
        no_newline_in(lit),
    ensures
        spec_tag(s1, pos, lit) == spec_tag(s2, pos, lit),
        spec_tag(s1, pos, lit) matches Some(end) ==> pos <= end <= e,
{
    if tag_at(s1, pos, lit) {
        if pos + lit.len() > e {
            assert(s1[pos + (e - pos)] == lit[e - pos]);
        }
        assert forall|i: int| 0 <= i < lit.len() implies s2[pos + i] == #[trigger] lit[i] by {
            assert(s1[pos + i] == s2[pos + i]);
        }
    }
    if tag_at(s2, pos, lit) {
        if pos + lit.len() > e {
            assert(s2[pos + (e - pos)] == lit[e - pos]);
            assert(s1[e] == s2[e]);
        }
        assert forall|i: int| 0 <= i < lit.len() implies s1[pos + i] == #[trigger] lit[i] by {
            assert(s1[pos + i] == s2[pos + i]);
        }
    }
}

/// The newline of a line is found in both buffers or in neither.
pub proof fn lemma_newline_same(s1: Seq<u8>, s2: Seq<u8>, pos: int, e: int)
    requires
        same_line(s1, s2, pos, e),
    ensures
        spec_tag(s1, pos, bytes_of("\n")) == spec_tag(s2, pos, bytes_of("\n")),
        spec_tag(s1, pos, bytes_of("\n")) matches Some(end) ==> end == pos + 1 && s1[pos]
            == newline(),
{
    reveal_strlit("\n");
    lemma_ascii_literal("\n");
    let lit = bytes_of("\n");
    assert(s1[pos] == s2[pos]);
    if tag_at(s1, pos, lit) {
        assert(s1[pos + 0] == lit[0]);
        assert forall|i: int| 0 <= i < lit.len() implies s2[pos + i] == #[trigger] lit[i] by {}
    }
    if tag_at(s2, pos, lit) {
        assert(s2[pos + 0] == lit[0]);
        assert forall|i: int| 0 <= i < lit.len() implies s1[pos + i] == #[trigger] lit[i] by {}
    }
}

/// The end of a line is the same in both buffers.
pub proof fn lemma_line_end_same(s1: Seq<u8>, s2: Seq<u8>, pos: int, e: int)
    requires
        same_line(s1, s2, pos, e),
    ensures
        line_end(s1, pos) == line_end(s2, pos),
        line_end(s1, pos) matches Some(end) && pos <= end <= e,
    decreases e - pos,
{
    assert(s1[pos] == s2[pos]);
    if s1[pos] != newline() {
        lemma_line_end_same(s1, s2, pos + 1, e);
    }
}

/// The bytes between two places of a line are the same in both buffers.
pub proof fn lemma_subrange_same(s1: Seq<u8>, s2: Seq<u8>, pos: int, e: int, from: int, to: int)
    requires
        same_line(s1, s2, pos, e),
        pos <= from <= to <= e + 1,
    ensures
        s1.subrange(from, to) == s2.subrange(from, to),
{
    assert forall|i: int| 0 <= i < to - from implies s1.subrange(from, to)[i] == s2.subrange(
        from,
        to,
    )[i] by {
        assert(s1[from + i] == s2[from + i]);
    }
    assert(s1.subrange(from, to) =~= s2.subrange(from, to));
}

/// The rest of a line is the same in both buffers.
pub proof fn lemma_no_newline_chars_same(s1: Seq<u8>, s2: Seq<u8>, pos: int, e: int)
    requires
        same_line(s1, s2, pos, e),
    ensures
        spec_no_newline_chars(s1, pos) == spec_no_newline_chars(s2, pos),
        spec_no_newline_chars(s1, pos) matches Some((_, end)) ==> pos <= end <= e,
{
    lemma_line_end_same(s1, s2, pos, e);
    let end = line_end(s1, pos)->0;
    lemma_subrange_same(s1, s2, pos, e, pos, end);
}

/// An integer that starts in a line is the same in both buffers.
pub proof fn lemma_number_same(s1: Seq<u8>, s2: Seq<u8>, pos: int, e: int)
    requires
        same_line(s1, s2, pos, e),
    ensures
        spec_number(s1, pos) == spec_number(s2, pos),
        spec_number(s1, pos) matches Some((_, end)) ==> pos <= end <= e,
{
    lemma_literals_hold_no_newline();
    lemma_tag_same(s1, s2, pos, e, bytes_of("0x"));
    lemma_run_end_same(s1, s2, pos, e, ByteClass::Digit);
    lemma_subrange_same(s1, s2, pos, e, pos, run_end(s1, pos, ByteClass::Digit));
    if let Some(start) = spec_tag(s1, pos, bytes_of("0x")) {
        lemma_run_end_same(s1, s2, start, e, ByteClass::HexDigit);
        lemma_subrange_same(s1, s2, pos, e, start, run_end(s1, start, ByteClass::HexDigit));
    }
}

/// An identifier that starts in a line is the same in both buffers.
pub proof fn lemma_name_same(s1: Seq<u8>, s2: Seq<u8>, pos: int, e: int)
    requires
        same_line(s1, s2, pos, e),
    ensures
        spec_name(s1, pos) == spec_name(s2, pos),
        spec_name(s1, pos) matches Some((_, end)) ==> pos <= end <= e,
{
    assert(s1[pos] == s2[pos]);
    if pos < e {
        lemma_run_end_same(s1, s2, pos + 1, e, ByteClass::Alphanumeric);
        lemma_subrange_same(s1, s2, pos, e, pos, run_end(s1, pos + 1, ByteClass::Alphanumeric));
    }
}

/// Space that starts in a line is the same in both buffers.
pub proof fn lemma_space_same(s1: Seq<u8>, s2: Seq<u8>, pos: int, e: int)
    requires
        same_line(s1, s2, pos, e),
    ensures
        spec_space0(s1, pos) == spec_space0(s2, pos),
        pos <= spec_space0(s1, pos) <= e,
        spec_space1(s1, pos) == spec_space1(s2, pos),
        spec_space1(s1, pos) matches Some(end) ==> pos <= end <= e,
{
    lemma_run_end_same(s1, s2, pos, e, ByteClass::Space);
}

/// A blank or comment line that starts in a line is the same in both
/// buffers, and ends behind the newline of that line at the latest.
pub proof fn lemma_skipped_line_same(s1: Seq<u8>, s2: Seq<u8>, pos: int, e: int)
    requires
        same_line(s1, s2, pos, e),
    ensures
        spec_skipped_line(s1, pos) == spec_skipped_line(s2, pos),
        spec_skipped_line(s1, pos) matches Some(end) ==> pos < end <= e + 1,
{
    lemma_run_end_same(s1, s2, pos, e, ByteClass::Space);
    let blank = run_end(s1, pos, ByteClass::Space);
    assert(s1[blank] == s2[blank]);
    assert(s1[pos] == s2[pos]);
    if pos < e {
        lemma_line_end_same(s1, s2, pos + 1, e);
    } else {
        assert(s1[pos] == newline());
    }
}

} // verus!
