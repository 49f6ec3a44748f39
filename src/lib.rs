//! Per-key min/max/sum/count aggregation over `<key>;<decimal>\n` records.
pub mod hashmap;
pub mod parse;
pub mod partition;
pub mod pipeline;
pub mod records;
pub mod scan;
pub mod station;
pub mod summary;
pub mod xor;
