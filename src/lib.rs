//! Line search over a text: the lines that hold a query, exactly or with
//! case folded, each returned as a slice of the text.

pub mod config;
pub mod search;
pub mod text;

pub use config::{find_matches, Config, ConfigError, MIN_ARGS};
pub use search::{search, search_case_insensitive};
pub use text::{line_contains, lines};
