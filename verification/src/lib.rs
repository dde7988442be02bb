//! Counting lines of code per programming language.
//!
//! The library holds the logic: recognising a language from a file name,
//! counting the lines of a file's contents (whole or chunk by chunk),
//! tallying what a directory walk finds, and rendering the report.
pub mod count;
pub mod lang;
pub mod walk;
pub mod report;
