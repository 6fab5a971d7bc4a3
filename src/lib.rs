//! A single-pass group-by engine: records are partitioned by a composite key
//! built from chosen field positions, and one value field is reduced per group.
pub mod field;
pub mod group_by;
pub mod laws;
pub mod table;

pub use field::{parse_int, render_int, Field};
pub use group_by::{group_key, AggregateError, GroupBy};
pub use table::{Aggregate, GroupKey};
