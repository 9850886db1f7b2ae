//! Byte classes of the grammar and runs of bytes of one class.

use vstd::prelude::*;
use vstd::slice::slice_subrange;

verus! {

/// A space or a tab: the horizontal whitespace of the format.
pub open spec fn is_space_byte(b: u8) -> bool {
    b == 0x20 || b == 0x09
}

/// An ASCII decimal digit.
pub open spec fn is_digit_byte(b: u8) -> bool {
    0x30 <= b <= 0x39
}

/// An ASCII hexadecimal digit, in either case.
pub open spec fn is_hex_digit_byte(b: u8) -> bool {
    (0x30 <= b <= 0x39) || (0x41 <= b <= 0x46) || (0x61 <= b <= 0x66)
}

/// An ASCII letter, in either case.
pub open spec fn is_alpha_byte(b: u8) -> bool {
    (0x41 <= b <= 0x5A) || (0x61 <= b <= 0x7A)
}

/// An ASCII letter or decimal digit.
pub open spec fn is_alphanumeric_byte(b: u8) -> bool {
    is_alpha_byte(b) || is_digit_byte(b)
}

/// The classes of bytes that the grammar takes runs of.
pub enum ByteClass {
    Space,
    Digit,
    HexDigit,
    Alpha,
    Alphanumeric,
}

impl ByteClass {
    /// Whether `b` belongs to the class.
    pub open spec fn holds(self, b: u8) -> bool {
        match self {
            ByteClass::Space => is_space_byte(b),
            ByteClass::Digit => is_digit_byte(b),
            ByteClass::HexDigit => is_hex_digit_byte(b),
            ByteClass::Alpha => is_alpha_byte(b),
            ByteClass::Alphanumeric => is_alphanumeric_byte(b),
        }
    }
}

/// The end of the longest run of `class` bytes that starts at `pos`; `pos`
/// itself where no such byte stands there.
pub open spec fn run_end(s: Seq<u8>, pos: int, class: ByteClass) -> int
    decreases s.len() - pos,
{
    if 0 <= pos < s.len() && class.holds(s[pos]) {
        run_end(s, pos + 1, class)
    } else {
        pos
    }
}

/// A run lies inside the buffer, holds only bytes of its class, and stops at
/// the end of the buffer or before a byte outside the class.
pub proof fn lemma_run_end(s: Seq<u8>, pos: int, class: ByteClass)
    requires
        0 <= pos <= s.len(),
    ensures
        pos <= run_end(s, pos, class) <= s.len(),
        forall|i: int| pos <= i < run_end(s, pos, class) ==> class.holds(#[trigger] s[i]),
        run_end(s, pos, class) < s.len() ==> !class.holds(s[run_end(s, pos, class)]),
    decreases s.len() - pos,
{
    if pos < s.len() && class.holds(s[pos]) {
        lemma_run_end(s, pos + 1, class);
    }
}

/// The only place that has the three properties of a run's end is the run's
/// end.
pub proof fn lemma_run_end_unique(s: Seq<u8>, pos: int, class: ByteClass, end: int)
    requires
        0 <= pos <= end <= s.len(),
        forall|i: int| pos <= i < end ==> class.holds(#[trigger] s[i]),
        end < s.len() ==> !class.holds(s[end]),
    ensures
        run_end(s, pos, class) == end,
    decreases end - pos,
{
    if pos < end {
        lemma_run_end_unique(s, pos + 1, class, end);
    }
}

/// What it means for `run` to be the leading run of `class` bytes of `input`,
/// with `rest` behind it: `run` is not empty, all of it is in the class, and
/// it cannot be made longer.
pub open spec fn is_leading_run(input: Seq<u8>, rest: Seq<u8>, run: Seq<u8>, class: ByteClass) -> bool {
    &&& run.len() > 0
    &&& run + rest == input
    &&& forall|i: int| 0 <= i < run.len() ==> class.holds(#[trigger] run[i])
    &&& rest.len() > 0 ==> !class.holds(rest[0])
}

/// What the run parsers of nom answer on `input`: the leading run and the
/// rest where the input starts with a byte of the class, and nothing where it
/// is empty or starts with another byte.
pub open spec fn splits_leading_run(
    input: Seq<u8>,
    r: Option<(&[u8], &[u8])>,
    class: ByteClass,
) -> bool {
    match r {
        Some((rest, run)) => is_leading_run(input, rest@, run@, class),
        None => input.len() == 0 || !class.holds(input[0]),
    }
}

/// nom's `is_space` tells whether a byte is a space or a tab.
pub assume_specification[ nom::is_space ](chr: u8) -> (r: bool)
    ensures
        r == is_space_byte(chr),
;

/// nom's `digit` splits off the leading run of ASCII decimal digits. It
/// answers `Done(rest, run)` when the input starts with a digit, and an error
/// or `Incomplete` when the input is empty or starts with another byte.
#[verifier::external_body]
pub(crate) fn digit<'a>(input: &'a [u8]) -> (r: Option<(&'a [u8], &'a [u8])>)
    ensures
        splits_leading_run(input@, r, ByteClass::Digit),
{
    match nom::digit(input) {
        nom::IResult::Done(rest, run) => Some((rest, run)),
        nom::IResult::Error(_) => None,
        nom::IResult::Incomplete(_) => None,
    }
}

/// nom's `hex_digit` splits off the leading run of ASCII hexadecimal digits,
/// of either case, and answers as `digit` does.
#[verifier::external_body]
pub(crate) fn hex_digit<'a>(input: &'a [u8]) -> (r: Option<(&'a [u8], &'a [u8])>)
    ensures
        splits_leading_run(input@, r, ByteClass::HexDigit),
{
    match nom::hex_digit(input) {
        nom::IResult::Done(rest, run) => Some((rest, run)),
        nom::IResult::Error(_) => None,
        nom::IResult::Incomplete(_) => None,
    }
}

/// nom's `alpha` splits off the leading run of ASCII letters, and answers as
/// `digit` does.
#[verifier::external_body]
pub(crate) fn alpha<'a>(input: &'a [u8]) -> (r: Option<(&'a [u8], &'a [u8])>)
    ensures
        splits_leading_run(input@, r, ByteClass::Alpha),
{
    match nom::alpha(input) {
        nom::IResult::Done(rest, run) => Some((rest, run)),
        nom::IResult::Error(_) => None,
        nom::IResult::Incomplete(_) => None,
    }
}

/// nom's `alphanumeric` splits off the leading run of ASCII letters and
/// decimal digits, and answers as `digit` does.
#[verifier::external_body]
pub(crate) fn alphanumeric<'a>(input: &'a [u8]) -> (r: Option<(&'a [u8], &'a [u8])>)
    ensures
        splits_leading_run(input@, r, ByteClass::Alphanumeric),
{
    match nom::alphanumeric(input) {
        nom::IResult::Done(rest, run) => Some((rest, run)),
        nom::IResult::Error(_) => None,
        nom::IResult::Incomplete(_) => None,
    }
}

/// The leading run of the buffer's tail from `pos` ends where the run from
/// `pos` ends.
proof fn lemma_leading_run(s: Seq<u8>, pos: int, r: Option<(&[u8], &[u8])>, class: ByteClass)
    requires
        0 <= pos <= s.len(),
        splits_leading_run(s.subrange(pos, s.len() as int), r, class),
    ensures
        match r {
            Some((rest, run)) => pos + run@.len() <= s.len() && run_end(s, pos, class) == pos
                + run@.len(),
            None => run_end(s, pos, class) == pos,
        },
{
    let tail = s.subrange(pos, s.len() as int);
    match r {
        Some((rest, run)) => {
            let k = run@.len() as int;
            assert((run@ + rest@).len() == tail.len());
            assert forall|i: int| pos <= i < pos + k implies class.holds(#[trigger] s[i]) by {
                assert(s[i] == tail[i - pos]);
                assert(tail[i - pos] == (run@ + rest@)[i - pos]);
                assert((run@ + rest@)[i - pos] == run@[i - pos]);
            }
            if pos + k < s.len() {
                assert(s[pos + k] == tail[k]);
                assert(tail[k] == (run@ + rest@)[k]);
                assert((run@ + rest@)[k] == rest@[0]);
            }
            lemma_run_end_unique(s, pos, class, pos + k);
        },
        None => {
            if pos < s.len() {
                assert(tail[0] == s[pos]);
            }
        },
    }
}

/// The end of the run of decimal digits at `pos`.
pub fn digit_run(input: &[u8], pos: usize) -> (end: usize)
    ensures
        end as int == run_end(input@, pos as int, ByteClass::Digit),
        pos <= end,
        end <= input@.len() || end == pos,
{
    if pos > input.len() {
        return pos;
    }
    let r = digit(slice_subrange(input, pos, input.len()));
    proof {
        lemma_leading_run(input@, pos as int, r, ByteClass::Digit);
    }
    match r {
        Some((_, run)) => pos + run.len(),
        None => pos,
    }
}

/// The end of the run of hexadecimal digits at `pos`.
pub fn hex_digit_run(input: &[u8], pos: usize) -> (end: usize)
    ensures
        end as int == run_end(input@, pos as int, ByteClass::HexDigit),
        pos <= end,
        end <= input@.len() || end == pos,
{
    if pos > input.len() {
        return pos;
    }
    let r = hex_digit(slice_subrange(input, pos, input.len()));
    proof {
        lemma_leading_run(input@, pos as int, r, ByteClass::HexDigit);
    }
    match r {
        Some((_, run)) => pos + run.len(),
        None => pos,
    }
}

/// The end of the run of letters at `pos`.
pub fn alpha_run(input: &[u8], pos: usize) -> (end: usize)
    ensures
        end as int == run_end(input@, pos as int, ByteClass::Alpha),
        pos <= end,
        end <= input@.len() || end == pos,
{
    if pos > input.len() {
        return pos;
    }
    let r = alpha(slice_subrange(input, pos, input.len()));
    proof {
        lemma_leading_run(input@, pos as int, r, ByteClass::Alpha);
    }
    match r {
        Some((_, run)) => pos + run.len(),
        None => pos,
    }
}

/// The end of the run of letters and digits at `pos`.
pub fn alphanumeric_run(input: &[u8], pos: usize) -> (end: usize)
    ensures
        end as int == run_end(input@, pos as int, ByteClass::Alphanumeric),
        pos <= end,
        end <= input@.len() || end == pos,
{
    if pos > input.len() {
        return pos;
    }
    let r = alphanumeric(slice_subrange(input, pos, input.len()));
    proof {
        lemma_leading_run(input@, pos as int, r, ByteClass::Alphanumeric);
    }
    match r {
        Some((_, run)) => pos + run.len(),
        None => pos,
    }
}

/// The end of the run of spaces and tabs at `pos`.
pub fn space_run(input: &[u8], pos: usize) -> (end: usize)
    ensures
        end as int == run_end(input@, pos as int, ByteClass::Space),
        pos <= end,
        end <= input@.len() || end == pos,
{
    if pos > input.len() {
        return pos;
    }
    let mut i: usize = pos;
    while i < input.len() && nom::is_space(input[i])
        invariant
            pos <= i <= input@.len(),
            run_end(input@, pos as int, ByteClass::Space) == run_end(
                input@,
                i as int,
                ByteClass::Space,
            ),
        decreases input@.len() - i,
    {
        i += 1;
    }
    i
}

} // verus!
