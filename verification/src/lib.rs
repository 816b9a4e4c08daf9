//! Schedule extraction and calendar synthesis.
//!
//! A photographed work-schedule table arrives as an unordered list of labeled
//! document-analysis blocks; this library reconstructs the table grid, derives
//! shift records from its rows, keeps them under a unique natural key, and
//! renders a calendar feed that blends the stored history with synthesized
//! placeholder events on configured weekdays.

pub mod calendar;
pub mod date;
pub mod grid;
pub mod models;
pub mod parse;
pub mod store;
pub mod text;
