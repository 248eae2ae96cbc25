//! Field selection for a line-oriented text filter: a compact selection
//! syntax, its resolution against the number of fields on a line, and the
//! splitting and re-joining of the line itself.

pub mod field_list;
pub mod field_range;
pub mod laws;
pub mod line;
pub mod parse;
