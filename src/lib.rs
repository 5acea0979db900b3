//! A bounded-depth site crawler: duplicate suppression, depth-limited
//! traversal, link normalisation and path-based grouping of page content.

pub mod address;
pub mod bucket;
pub mod engine;
pub mod links;
pub mod order;
pub mod page;
pub mod visited;

use vstd::prelude::*;

verus! {

/// Depth used when the configuration does not name one.
pub const DEFAULT_MAX_DEPTH: usize = 5;

/// The depth limit that applies when none is configured.
pub fn default_max_depth() -> (r: usize)
    ensures
        r == DEFAULT_MAX_DEPTH,
{
    DEFAULT_MAX_DEPTH
}

} // verus!
