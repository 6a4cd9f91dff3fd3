//! A small line-oriented text search: pick the lines of a text that contain a
//! query, with or without regard to letter case.
//!
//! - [`config`]: the parameters of a run, built from the tokens of an
//!   invocation.
//! - [`search`]: the search itself, and what holds of its result.
//! - [`lines`]: how a text falls into lines.
//! - [`substring`]: the containment test.
//! - [`encoding`]: lemmas that relate the bytes of a text to its characters.
//!
//! Reading the file and printing the lines found is left to the caller.

use vstd::prelude::*;

pub mod config;
pub mod encoding;
pub mod lines;
pub mod search;
pub mod substring;

pub use config::{Argument, Config, ConfigError, ConfigView};
pub use search::Search;

use search::matching_lines;

verus! {

/// The lines of `content` that a run with this configuration prints: those
/// that contain the configured query, in the configured mode, each a slice
/// of `content`, in the order of `content`.
pub fn run<'a>(config: &Config, content: &'a str) -> (found: Vec<&'a str>)
    ensures
        found.deep_view() == matching_lines(config@.query, content@, config@.case_sensitive),
{
    if config.case_sensitive() {
        Search::case_sensitive(config.query(), content)
    } else {
        Search::case_insensitive(config.query(), content)
    }
}

} // verus!
