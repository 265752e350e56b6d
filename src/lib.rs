//! Per-key minimum, maximum and mean of `<key>;<value>` records, computed by workers
//! over byte ranges of one buffer and merged into one table in key order.

pub mod cursor;
pub mod engine;
pub mod model;
pub mod ordered;
pub mod partition;
pub mod render;
pub mod scan;
pub mod table;
