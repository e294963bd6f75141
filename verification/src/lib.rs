//! Column and row boundary detection, cell assignment and header recovery for
//! tables found heuristically in positioned text.
//!
//! Positions are single precision numbers held by their bit patterns; every
//! arithmetic operation on them is proved to round the exact result to the
//! nearest representable value.

pub mod alignment;
pub mod arithmetic;
pub mod body;
pub mod cluster;
pub mod column_order;
pub mod columns;
pub mod guarantees;
pub mod header;
pub mod header_lines;
pub mod header_place;
pub mod item_order;
pub mod line_run;
pub mod lines;
pub mod lookup;
pub mod order;
pub mod precision;
pub mod rounding;
pub mod rows;
pub mod single;
pub mod text;
pub mod thresholds;
pub mod types;
pub mod wrapped;
