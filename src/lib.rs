//! Post-processing of a copy/paste detector's text report: groups of duplicated
//! code are read from the report, attributed to a source file and its
//! destinations, and folded into one record per source file with clamped rates.
pub mod aggregate;
pub mod analyzer;
pub mod counter;
pub mod runner;
pub mod text;
