//! Rules on a piece of a buffer: what a rule gives where text stands in a
//! buffer is what it gives on the text alone, moved to that place.

use crate::body::spec_position_id;
use crate::classes::{run_end, ByteClass};
use crate::lexical::{bytes_of, newline, spec_number, spec_tag, tag_at};
use crate::line_local::{lemma_literals_hold_no_newline, no_newline_in};
use vstd::prelude::*;

verus! {

/// Text stands at `pos` with the end of the buffer or a newline behind it.
pub open spec fn line_piece(s: Seq<u8>, pos: int, text: Seq<u8>) -> bool {
    &&& tag_at(s, pos, text)
    &&& pos + text.len() < s.len() ==> s[pos + text.len()] == newline()
}

/// A run in the text ends where it ends in the buffer.
pub proof fn lemma_run_end_shift(s: Seq<u8>, pos: int, text: Seq<u8>, k: int, class: ByteClass)
    requires
        line_piece(s, pos, text),
        0 <= k <= text.len(),
    ensures
        run_end(s, pos + k, class) == pos + run_end(text, k, class),
        k <= run_end(text, k, class) <= text.len(),
    decreases text.len() - k,
{
    if k < text.len() {
        assert(s[pos + k] == text[k]);
        if class.holds(text[k]) {
            lemma_run_end_shift(s, pos, text, k + 1, class);
        }
    }
}

/// A literal without a newline matches in the text where it matches in the
/// buffer.
pub proof fn lemma_tag_shift(s: Seq<u8>, pos: int, text: Seq<u8>, k: int, lit: Seq<u8>)
    requires
        line_piece(s, pos, text),
        0 <= k <= text.len(),
        no_newline_in(lit),
    ensures
        spec_tag(s, pos + k, lit) is Some <==> spec_tag(text, k, lit) is Some,
{
    if tag_at(s, pos + k, lit) {
        if k + lit.len() > text.len() {
            assert(s[pos + k + (text.len() - k)] == lit[text.len() - k]);
        }
        assert forall|i: int| 0 <= i < lit.len() implies text[k + i] == #[trigger] lit[i] by {
            assert(s[pos + (k + i)] == text[k + i]);
            assert(s[pos + k + i] == lit[i]);
        }
    }
    if tag_at(text, k, lit) {
        assert forall|i: int| 0 <= i < lit.len() implies s[pos + k + i] == #[trigger] lit[i] by {
            assert(s[pos + (k + i)] == text[k + i]);
            assert(text[k + i] == lit[i]);
        }
    }
}

/// An integer in the text is the integer at that place of the buffer.
pub proof fn lemma_number_shift(s: Seq<u8>, pos: int, text: Seq<u8>, k: int)
    requires
        line_piece(s, pos, text),
        0 <= k <= text.len(),
    ensures
        match spec_number(text, k) {
            Some((n, end)) => spec_number(s, pos + k) == Some((n, pos + end)) && k <= end
                <= text.len(),
            None => spec_number(s, pos + k) is None,
        },
{
    lemma_literals_hold_no_newline();
    lemma_tag_shift(s, pos, text, k, bytes_of("0x"));
    lemma_run_end_shift(s, pos, text, k, ByteClass::Digit);
    let d = run_end(text, k, ByteClass::Digit);
    assert(s.subrange(pos + k, pos + d) =~= text.subrange(k, d)) by {
        assert forall|i: int| 0 <= i < d - k implies #[trigger] s.subrange(pos + k, pos + d)[i]
            == text.subrange(k, d)[i] by {
            assert(s[pos + (k + i)] == text[k + i]);
        }
    }
    if let Some(start) = spec_tag(text, k, bytes_of("0x")) {
        lemma_run_end_shift(s, pos, text, start, ByteClass::HexDigit);
        let h = run_end(text, start, ByteClass::HexDigit);
        assert(s.subrange(pos + start, pos + h) =~= text.subrange(start, h)) by {
            assert forall|i: int| 0 <= i < h - start implies #[trigger] s.subrange(
                pos + start,
                pos + h,
            )[i] == text.subrange(start, h)[i] by {
                assert(s[pos + (start + i)] == text[start + i]);
            }
        }
    }
}

/// A reference into the name table stands at the start of the text where
/// it stands at that place of the buffer.
pub proof fn lemma_position_id_shift(s: Seq<u8>, pos: int, text: Seq<u8>)
    requires
        line_piece(s, pos, text),
    ensures
        spec_position_id(s, pos) is Some <==> spec_position_id(text, 0) is Some,
{
    lemma_literals_hold_no_newline();
    lemma_tag_shift(s, pos, text, 0, bytes_of("("));
    if let Some(p) = spec_tag(text, 0, bytes_of("(")) {
        lemma_number_shift(s, pos, text, p);
        if let Some((_, q)) = spec_number(text, p) {
            lemma_tag_shift(s, pos, text, q, bytes_of(")"));
        }
    }
}

} // verus!
