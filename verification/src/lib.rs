//! A small JSON codec: a tree value, a single-pass parser over a text buffer,
//! and a serializer to compact text. Two companions live beside it: a
//! levelled log-line formatter and a few helpers.
//!
//! - [`value`], [`number`], [`decimal`], [`object`] and [`error`] hold the
//!   data; [`model`] holds what the data stands for, [`literal`] how a
//!   fraction may be written, [`order`] when numbers are equal and how they
//!   are ordered, [`text`] what is needed of bytes and characters.
//! - [`grammar`] says what a text is; [`parser`] reads it so.
//! - [`render`] says what the text of a tree is, and writes it.
//! - [`laws`] holds what is proved of the three together.
//! - [`trace`] and [`misc`] are the companions.

pub mod decimal;
pub mod error;
pub mod grammar;
pub mod laws;
pub mod literal;
pub mod misc;
pub mod model;
pub mod number;
pub mod object;
pub mod order;
pub mod parser;
pub mod render;
pub mod text;
pub mod trace;
pub mod value;

pub use crate::decimal::Decimal;
pub use crate::error::{Error, IntErrorKind, ParseNumberError};
pub use crate::number::Number;
pub use crate::object::Object;
pub use crate::parser::Parser;
pub use crate::value::{parse, Value};
