//! The Seam validation engine: one schema, every language, no drift.
//!
//! Every binding is a thin layer over this crate and holds no
//! validation logic of its own.

pub mod datetime;
pub mod describe;
pub mod error;
pub mod format;
pub mod host;
pub mod json;
pub mod limits;
pub mod message;
pub mod output;
pub mod parser;
pub mod schema;
pub mod text;
pub mod validate;
pub mod value;

pub use error::{Code, Issue, Path, Segment, ValidationError};
pub use format::Format;
pub use limits::Limits;
pub use parser::parse;
pub use schema::{Field, IntType, IntWidth, ObjectType, Presence, Rule, Schema, Type, UnionType, Variant};
pub use validate::validate;
pub use value::{Entry, Float, Int, Kind, Slot, Value};

use vstd::prelude::*;

verus! {

/// The version every binding reports.
pub const VERSION: &'static str = "0.1.3";

} // verus!
