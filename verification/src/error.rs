//! The errors the library reports.

use vstd::prelude::*;

verus! {

/// What went wrong.
#[derive(Debug, Clone, PartialEq, Eq)]
pub enum ScrapsError {
    /// No scrap is known by the requested title and context.
    ScrapNotFound { title: String, ctx: Option<String> },
    /// A page, the stylesheet or the search index could not be written; the
    /// message says which and why.
    Build { message: String },
}

} // verus!
