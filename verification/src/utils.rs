//! Small parsing utilities.

pub mod parse_time;
