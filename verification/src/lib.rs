//! A verified parser for the Callgrind profile format.
//!
//! A profile is a text of lines: a format marker, a version line and a creator
//! line, each optional, and then parts, each a run of header lines and a run of
//! body lines. [`parse`] turns a buffer that holds one profile into a
//! [`CallgrindFile`]; [`callgrind`] reads a profile from the start of a buffer
//! and tells where it stopped.
//!
//! The grammar is given as specification functions over byte sequences, one
//! for each rule, and each executable rule is proved to compute exactly what
//! its specification says. The runs of digits and letters are taken by `nom`;
//! what is believed of it stands in [`classes`].
//!
//! - [`classes`], [`lexical`], [`header`], [`body`], [`document`]: the rules,
//!   from bytes to the whole profile.
//! - [`model`], [`error`]: what a parse gives.
//! - [`render`]: the text of a profile, and which profiles the grammar can
//!   produce.
//! - [`tokens`], [`literals`], [`shift`], [`header_laws`], [`body_laws`],
//!   [`document_laws`]: parsing the text of a profile gives the profile back.
//! - [`line_local`], [`header_local`], [`body_local`], [`prefix_laws`]: a rule
//!   reads nothing behind its line, so bytes behind a profile that start no
//!   line are left over.
//! - [`read_laws`]: every profile that is read is one that the grammar can
//!   produce.

pub mod classes;
pub mod error;
pub mod model;
pub mod lexical;
pub mod header;
pub mod body;
pub mod document;
pub mod render;
pub mod tokens;
pub mod literals;
pub mod shift;
pub mod header_laws;
pub mod body_laws;
pub mod document_laws;
pub mod line_local;
pub mod header_local;
pub mod body_local;
pub mod prefix_laws;
pub mod read_laws;

pub use document::{callgrind, default_version, parse};
pub use error::{ErrorKind, ParseError, Rule};
pub use model::{
    BodyLine, CallgrindEntry, CallgrindFile, CostLine, HeaderLine, InheritedExpr, Position,
    PositionType, SubDirection, SubPosition,
};
