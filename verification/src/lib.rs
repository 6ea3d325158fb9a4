//! Column selection for delimited tabular text.
//!
//! A selector string such as `"1,3-5,-2"` is parsed into an ordered list of
//! column ranges; applying the parsed selector to a row of fields yields the
//! fields those ranges pick out, in the order the ranges were written.

pub mod model;
pub mod parse;
pub mod render;

pub use model::Range;
pub use model::ResultRow;
pub use model::Target;
