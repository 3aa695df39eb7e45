//! A small line-search library: split a text buffer into lines and return,
//! in order, the lines that contain a literal query string, optionally
//! ignoring letter case.  A companion configuration type selects the text
//! source and the matching mode from plain caller-supplied values.

pub mod config;
pub mod engine;
pub mod text;

pub use config::Config;
pub use config::ConfigError;
pub use config::TextSource;
pub use engine::search;
