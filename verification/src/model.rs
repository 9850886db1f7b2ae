//! The document tree that a parse produces, and its mathematical model.
//!
//! Every type has a model in which text is a sequence of characters and a list
//! is a sequence; `deep_view` maps a value to its model.

use vstd::prelude::*;

verus! {

/// Direction of a relative sub-position.
#[derive(Clone, Copy, Debug, PartialEq, Eq, Structural)]
pub enum SubDirection {
    Plus,
    Minus,
}

/// One column of a source position: given outright, as a signed distance from
/// the same column of the previous cost line, or unchanged.
#[derive(Clone, Copy, Debug, PartialEq, Eq, Structural)]
pub enum SubPosition {
    Absolute(u32),
    Relative(SubDirection, u32),
    Same,
}

impl DeepView for SubPosition {
    type V = SubPosition;

    open spec fn deep_view(&self) -> SubPosition {
        *self
    }
}

/// The kind of name that a position line assigns. Several spellings share a
/// kind: `fl`, `fi` and `fe` are all `File`, `cfi` and `cfl` both `CallFile`.
#[derive(Clone, Copy, Debug, PartialEq, Eq, Structural)]
pub enum PositionType {
    Object,
    File,
    Function,
    CallObject,
    CallFile,
    CallFunction,
}

impl DeepView for PositionType {
    type V = PositionType;

    open spec fn deep_view(&self) -> PositionType {
        *self
    }
}

/// A term of an inherited event: an event, or an event with a weight.
#[derive(Clone, Debug, PartialEq, Eq)]
pub enum InheritedExpr {
    Name(String),
    Mul(u32, String),
}

/// The model of a term of an inherited event.
pub enum InheritedExprView {
    Name(Seq<char>),
    Mul(u32, Seq<char>),
}

impl DeepView for InheritedExpr {
    type V = InheritedExprView;

    open spec fn deep_view(&self) -> InheritedExprView {
        match self {
            InheritedExpr::Name(n) => InheritedExprView::Name(n@),
            InheritedExpr::Mul(k, n) => InheritedExprView::Mul(*k, n@),
        }
    }
}

/// A line of a part's header.
#[derive(Clone, Debug, PartialEq, Eq)]
pub enum HeaderLine {
    Cmd(String),
    Pid(u32),
    Thread(u32),
    Part(u32),
    Description(String, String),
    EventSpec(String, Option<Vec<InheritedExpr>>, Option<String>),
    Events(Vec<String>),
    Positions(bool, bool),
}

/// The model of a header line.
pub enum HeaderLineView {
    Cmd(Seq<char>),
    Pid(u32),
    Thread(u32),
    Part(u32),
    Description(Seq<char>, Seq<char>),
    EventSpec(Seq<char>, Option<Seq<InheritedExprView>>, Option<Seq<char>>),
    Events(Seq<Seq<char>>),
    Positions(bool, bool),
}

impl DeepView for HeaderLine {
    type V = HeaderLineView;

    open spec fn deep_view(&self) -> HeaderLineView {
        match self {
            HeaderLine::Cmd(t) => HeaderLineView::Cmd(t@),
            HeaderLine::Pid(n) => HeaderLineView::Pid(*n),
            HeaderLine::Thread(n) => HeaderLineView::Thread(*n),
            HeaderLine::Part(n) => HeaderLineView::Part(*n),
            HeaderLine::Description(n, t) => HeaderLineView::Description(n@, t@),
            HeaderLine::EventSpec(n, inh, long) => HeaderLineView::EventSpec(
                n@,
                inh.deep_view(),
                long.deep_view(),
            ),
            HeaderLine::Events(names) => HeaderLineView::Events(names.deep_view()),
            HeaderLine::Positions(instr, line) => HeaderLineView::Positions(*instr, *line),
        }
    }
}

/// What a position line assigns: a reference into the name table, a name, or
/// both.
#[derive(Clone, Debug, PartialEq, Eq)]
pub struct Position {
    pub id: Option<u32>,
    pub val: Option<String>,
}

/// The model of what a position line assigns.
pub struct PositionView {
    pub id: Option<u32>,
    pub val: Option<Seq<char>>,
}

impl DeepView for Position {
    type V = PositionView;

    open spec fn deep_view(&self) -> PositionView {
        PositionView { id: self.id, val: self.val.deep_view() }
    }
}

/// A cost line: the sub-positions and, where the line has them, the cost
/// values.
#[derive(Clone, Debug, PartialEq, Eq)]
pub struct CostLine {
    pub positions: Vec<SubPosition>,
    pub costs: Option<Vec<u32>>,
}

/// The model of a cost line.
pub struct CostLineView {
    pub positions: Seq<SubPosition>,
    pub costs: Option<Seq<u32>>,
}

impl DeepView for CostLine {
    type V = CostLineView;

    open spec fn deep_view(&self) -> CostLineView {
        CostLineView { positions: self.positions.deep_view(), costs: self.costs.deep_view() }
    }
}

/// A line of a part's body. A call owns the cost line that follows it.
/// `Comment` marks skipped lines; the parser skips them without a mark.
#[derive(Clone, Debug, PartialEq, Eq)]
pub enum BodyLine {
    Comment,
    Cost(CostLine),
    PositionSpec(PositionType, Position),
    CallSpec(u32, Vec<SubPosition>, CostLine),
    UncondJumpSpec(u32, Vec<SubPosition>),
    CondJumpSpec(u32, u32, Vec<SubPosition>),
}

/// The model of a body line.
pub enum BodyLineView {
    Comment,
    Cost(CostLineView),
    PositionSpec(PositionType, PositionView),
    CallSpec(u32, Seq<SubPosition>, CostLineView),
    UncondJumpSpec(u32, Seq<SubPosition>),
    CondJumpSpec(u32, u32, Seq<SubPosition>),
}

impl DeepView for BodyLine {
    type V = BodyLineView;

    open spec fn deep_view(&self) -> BodyLineView {
        match self {
            BodyLine::Comment => BodyLineView::Comment,
            BodyLine::Cost(c) => BodyLineView::Cost(c.deep_view()),
            BodyLine::PositionSpec(t, p) => BodyLineView::PositionSpec(*t, p.deep_view()),
            BodyLine::CallSpec(n, subs, c) => BodyLineView::CallSpec(
                *n,
                subs.deep_view(),
                c.deep_view(),
            ),
            BodyLine::UncondJumpSpec(n, subs) => BodyLineView::UncondJumpSpec(*n, subs.deep_view()),
            BodyLine::CondJumpSpec(n, m, subs) => BodyLineView::CondJumpSpec(
                *n,
                *m,
                subs.deep_view(),
            ),
        }
    }
}

/// One part of a profile: its header lines, then its body lines.
#[derive(Clone, Debug, PartialEq, Eq)]
pub struct CallgrindEntry {
    pub header: Vec<HeaderLine>,
    pub body: Vec<BodyLine>,
}

/// The model of a part.
pub struct CallgrindEntryView {
    pub header: Seq<HeaderLineView>,
    pub body: Seq<BodyLineView>,
}

impl DeepView for CallgrindEntry {
    type V = CallgrindEntryView;

    open spec fn deep_view(&self) -> CallgrindEntryView {
        CallgrindEntryView { header: self.header.deep_view(), body: self.body.deep_view() }
    }
}

/// A whole profile.
#[derive(Clone, Debug, PartialEq, Eq)]
pub struct CallgrindFile {
    pub version: u32,
    pub creator: Option<String>,
    pub data: Vec<CallgrindEntry>,
}

/// The model of a profile.
pub struct CallgrindFileView {
    pub version: u32,
    pub creator: Option<Seq<char>>,
    pub data: Seq<CallgrindEntryView>,
}

impl DeepView for CallgrindFile {
    type V = CallgrindFileView;

    open spec fn deep_view(&self) -> CallgrindFileView {
        CallgrindFileView {
            version: self.version,
            creator: self.creator.deep_view(),
            data: self.data.deep_view(),
        }
    }
}

/// Appending to a vector appends the item's model to the vector's model.
pub proof fn lemma_deep_view_push<T: DeepView>(before: Vec<T>, after: Vec<T>, item: T)
    requires
        after@ == before@.push(item),
    ensures
        after.deep_view() == before.deep_view().push(item.deep_view()),
{
    assert(after.deep_view() =~= before.deep_view().push(item.deep_view()));
}

/// The model of an empty vector is the empty sequence.
pub proof fn lemma_deep_view_empty<T: DeepView>(v: Vec<T>)
    requires
        v@.len() == 0,
    ensures
        v.deep_view() == Seq::<T::V>::empty(),
{
    assert(v.deep_view() =~= Seq::<T::V>::empty());
}

} // verus!
