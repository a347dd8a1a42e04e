//! Derive subset records from a source record: a membership-expression
//! language decides, per field and per profile, inclusion and which doc
//! or attribute override applies; surviving fields are renumbered densely
//! and narrowing/widening conversions are planned between the source and
//! each subset.

pub mod casing;
pub mod convert;
pub mod diag;
pub mod expr;
pub mod parse;
pub mod profmap;
pub mod schema;
pub mod substruct;

pub use crate::substruct::expand;
