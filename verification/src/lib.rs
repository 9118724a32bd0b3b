//! A small line-oriented text search library.
//!
//! Given a query string and the full text of a file, the library splits the
//! text into lines and returns, in their original order, the lines that
//! contain the query as a substring, either exactly or after ASCII case
//! folding of both sides.

pub mod config;
pub mod search;
pub mod text;

pub use config::Config;
pub use search::{run_search, search, search_case_insensitive};
