//! The error type of the router.

use vstd::prelude::*;

verus! {

/// An error surfaced by route registration, removal, or matching.
#[derive(Debug)]
pub enum RouterError {
    /// A path pattern could not be compiled: a wildcard segment stands
    /// anywhere but at the end of the pattern.  The payload is the
    /// offending pattern.
    MalformedPath(String),
    /// A route to be removed was not found.  The payload is the route id.
    RouteNotFound(String),
}

} // verus!
