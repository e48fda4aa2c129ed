//! Line-oriented text search: find the lines of a text that contain a query,
//! with or without regard to letter case.

pub mod config;
pub mod encoding;
pub mod fold;
pub mod lines;
pub mod pattern;
pub mod search;

pub use config::{Config, ConfigError, ConfigView};
pub use lines::split_first_line;
pub use pattern::text_contains;
pub use search::{run, search, search_case_insensitive};
