//! Browse, search and pair prompt-history and session-log records.
pub mod activity;
pub mod app;
pub mod clipboard;
pub mod detail_find;
pub mod formatting;
pub mod frame;
pub mod history;
pub mod json;
pub mod keys;
pub mod listing;
pub mod loader;
pub mod resume;
pub mod search;
pub mod session;
pub mod sort;
pub mod text;
pub mod tool_summary;
pub mod ui;
