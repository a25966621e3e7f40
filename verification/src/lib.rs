//! Weekly download statistics: calendar weeks, per-week totals and the
//! small rules around collecting and reporting them.

pub mod aggregate;
pub mod charts;
pub mod commands;
pub mod config;
pub mod crates_io;
pub mod date;
pub mod format;
pub mod github;
pub mod laws;
pub mod query;
mod text;
pub mod totals;
pub mod version;
pub mod weekly;
