use vstd::prelude::*;

pub mod attributes;
pub mod laws;
pub mod line;
pub mod text;
pub mod transcripts;

pub use attributes::{get_unquoted_string, GtfLineAttributes};
pub use line::{get_gtf_line_parts, GtfLineParts};
pub use transcripts::{aggregate, Exon, Grouping};

verus! {

} // verus!
