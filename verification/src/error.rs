//! Errors of the parser: which rule could not match, and where.

use vstd::prelude::*;

verus! {

/// Why a parse did not succeed.
#[derive(Clone, Copy, Debug, PartialEq, Eq, Structural)]
pub enum ErrorKind {
    /// The rule needs bytes that the buffer does not hold: a line without its
    /// newline.
    Incomplete,
    /// The bytes at the offset match no alternative of the rule.
    Malformed,
    /// The document rule stopped before the end of the buffer.
    TrailingData,
}

/// The rules of the grammar, as far as an error can name them.
#[derive(Clone, Copy, Debug, PartialEq, Eq, Structural)]
pub enum Rule {
    Number,
    Name,
    Space,
    RestOfLine,
    FormatSpec,
    FormatVersion,
    Creator,
    TargetCommand,
    TargetSpec,
    TargetId,
    PartDetail,
    Description,
    InheritedTerm,
    InheritedExpr,
    InheritedDef,
    LongNameDef,
    EventSpecification,
    CostLineDef,
    HeaderLine,
    SubPosition,
    SubPositionList,
    CostLine,
    PositionType,
    PositionSpec,
    CallLine,
    CallSpec,
    UncondJumpSpec,
    CondJumpSpec,
    BodyLine,
    PartData,
    Document,
}

/// A located failure: the rule that was attempted and the offset in the
/// buffer at which it was attempted.
#[derive(Clone, Copy, Debug, PartialEq, Eq, Structural)]
pub struct ParseError {
    pub kind: ErrorKind,
    pub rule: Rule,
    pub offset: usize,
}

/// The error of a rule that does not match at `offset`.
pub open spec fn malformed_at(rule: Rule, offset: usize) -> ParseError {
    ParseError { kind: ErrorKind::Malformed, rule, offset }
}

/// Builds the error of a rule that does not match at `offset`.
pub fn malformed(rule: Rule, offset: usize) -> (e: ParseError)
    ensures
        e == malformed_at(rule, offset),
{
    ParseError { kind: ErrorKind::Malformed, rule, offset }
}

/// What a rule function owes: on success the value and end that the grammar
/// gives at `pos`, and a failure exactly where the grammar gives none, named
/// after the rule and located at `pos`.
pub open spec fn agrees<T: DeepView>(
    r: Result<(T, usize), ParseError>,
    want: Option<(T::V, int)>,
    rule: Rule,
    pos: usize,
) -> bool {
    match r {
        Ok((v, end)) => want == Some((v.deep_view(), end as int)),
        Err(e) => want is None && e == malformed_at(rule, pos),
    }
}

} // verus!
