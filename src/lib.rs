//! Core of a small line-oriented text search tool: literal and
//! regular-expression search over an input text, and highlighting of the
//! matched byte spans of a line.
use vstd::prelude::*;

pub mod engine;
pub mod error;
pub mod lines;
pub mod model;
pub mod render;
pub mod report;
pub mod search;

pub use error::SearchError;
pub use model::MatchLine;
pub use render::highlight_line;
pub use report::search_and_render;
pub use search::{search_literal, search_regex};

verus! {

/// Reports that the library is linked and usable.
pub fn ping() -> (r: &'static str)
    ensures
        r@ == "ok"@,
{
    "ok"
}

} // verus!
