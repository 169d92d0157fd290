//! Validated records described by a nested schema.
//!
//! A schema is a tree of record definitions. [`flatten`] turns the tree into
//! a list in which every nested record comes before the record that holds it
//! and inherited tags are resolved. [`generate`] describes, for each record of
//! that list, the members and accessors of the record type. [`record`] gives
//! the records themselves with their two tiers of validation, and [`reflect`]
//! reads and writes their fields through separator-delimited keys.

pub mod flatten;
pub mod generate;
pub mod record;
pub mod reflect;
pub mod schema;
