//! Errors of the search and rendering operations.
use vstd::prelude::*;

verus! {

/// The closed set of failures of the core operations.
#[derive(Debug)]
pub enum SearchError {
    /// The pattern had zero length.
    EmptyPattern,
    /// The pattern is not a valid regular expression; carries the compiler's diagnostic.
    Regex(regex::Error),
    /// A highlighting span is out of bounds, out of order, or not on a character boundary.
    InvalidSpan,
}

} // verus!
