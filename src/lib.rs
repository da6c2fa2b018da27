//! Per-station minimum, mean and maximum temperature over a file of
//! `station;temperature` lines, computed on record-aligned ranges of the file
//! whose partial results are merged.
//!
//! Readings are held as exact integers in tenths of a degree.

pub mod aggregate;
pub mod partition;
pub mod report;
pub mod station_key;
pub mod stats;
pub mod temperature;
