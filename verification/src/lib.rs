//! A verified reader for the "NX" packed resource container format: a fixed
//! little-endian header, an offset-indexed string table, and a flat array of
//! typed nodes whose children are addressed as contiguous index ranges.

pub mod error;
pub mod layout;
pub mod nx_node;
pub mod nx_file;
pub mod text;
