//! Appends timestamped records to a log file: `YYYY-MM-DD HH:MM:SS - message\n`.
pub mod line;
pub mod stamp;
pub mod target;
