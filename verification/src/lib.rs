//! Usage statistics for assistant session logs: parsing of the logs, grouping
//! of what they record by project, day, model and so on, and the report built
//! from it.
pub mod text;
pub mod time;
pub mod names;
pub mod tokens;
pub mod json;
pub mod sorting;
pub mod event;
pub mod log;
pub mod project;
pub mod union;
pub mod usage;
pub mod sums;
pub mod session;
pub mod tables;
pub mod scan;
pub mod report;
pub mod account;
pub mod anonymize;
pub mod render;
