//! Records, once per calendar day, the first and last time of day at which a
//! device was seen on a given wireless network.
//!
//! The library holds the logic: calendar values and their text forms, the
//! daily log with its idempotent upsert, and the sampler's decisions. Reading
//! the clock, asking the operating system for the network name and writing
//! rows to disk are left to the caller.

pub mod calendar;
pub mod daylog;
pub mod sampler;
pub mod report;
