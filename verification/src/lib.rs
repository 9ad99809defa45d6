//! Merges timeline CSV files, orders their rows by time and drops repeated detections.
pub mod dedup;
pub mod inputs;
pub mod merge;
pub mod order;
pub mod output;
pub mod records;
pub mod sorting;
pub mod timestamp;
