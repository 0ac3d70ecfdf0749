//! A radix-style HTTP request router.
//!
//! Routes are registered with path patterns (`:name` parameters and a
//! trailing `*` wildcard), HTTP method bitsets, host patterns, variable
//! expressions and an optional user predicate; a query selects the first
//! candidate route that passes every criterion — exact-path candidates
//! first, then prefix candidates by decreasing prefix length, each
//! candidate list ordered by priority — and returns the route's metadata
//! together with the values extracted from the path.
//!
//! Paths are compared as given: matching is case-sensitive on the path and
//! no trailing slash is added or removed.  Host comparison is
//! case-insensitive.
//!
//! Two choices on inputs outside the normative pattern syntax: a wildcard
//! segment anywhere but at the end of a pattern is rejected as a malformed
//! path, and a `:` or `*` that does not open a segment is matched
//! literally, with the whole pattern still required to match the whole
//! request path.

mod error;
mod expr;
mod foreign;
mod host;
mod laws;
mod method;
mod num;
mod pattern;
mod route;
mod router;
mod strmap;
mod text;

pub use error::RouterError;
pub use expr::Expr;
pub use host::HostPattern;
pub use method::RadixHttpMethod;
pub use route::{FilterFn, MatchResult, PathOp, RadixMatchOpts, RadixNode, RouteFilter, RouteOpts};
pub use router::RadixRouter;
pub use strmap::StrMap;
