//! A small grep: searching text for a pattern, line by line, with
//! optional context lines before and after each match.
pub mod config;
pub mod grep;
pub mod manylines;
pub mod matcher;
pub mod myerror;
pub mod search;
pub mod text;

pub use config::{search_string_interator, spot_parameters_and_values, Config, ConfigError, Input};
pub use grep::{render_line, GrepState, Popped};
pub use manylines::{popfront, OneLine};
pub use matcher::Matcher;
pub use myerror::NotImplementedError;
pub use search::{listing_lines, print_linee_with_color, search, search_case_insensitive, search_re};
