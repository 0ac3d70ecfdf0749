//! The route descriptor, the processed route record, and the request and
//! result types.

use crate::expr::{expr_similar, Expr};
use crate::host::{host_is_wildcard, host_pattern_body, HostPattern};
use crate::method::RadixHttpMethod;
use crate::pattern::{
    compile_frags, frags_view, path_has_param, path_is_exact, path_key_of, Frag,
};
use crate::strmap::StrMap;
use std::sync::Arc;
use vstd::prelude::*;

verus! {

/// How a processed route is indexed: by its full literal path, or by its
/// literal prefix.
#[derive(Debug, Clone, Copy, PartialEq, Eq, Structural)]
pub enum PathOp {
    /// Exact match: the pattern holds no parameter and no wildcard.
    Equal,
    /// Prefix match: the pattern declares a parameter or a wildcard.
    PrefixMatch,
}

/// A user-supplied predicate consulted as the last step of candidate
/// evaluation.  It receives the request variables (an empty map when the
/// request carries none) and the request descriptor with its host already
/// folded to lower case.  Nothing is assumed about its result.
pub trait RouteFilter: Send + Sync {
    fn check(&self, vars: &StrMap, opts: &RadixMatchOpts) -> bool;
}

/// A shared route filter.
pub type FilterFn = Arc<dyn RouteFilter>;

/// A caller-supplied route descriptor.
pub struct RadixNode {
    /// Identifier, unique per route within a router.
    pub id: String,
    /// The path patterns under which the route is reachable.
    pub paths: Vec<String>,
    /// Accepted methods; `None` accepts any method.
    pub methods: Option<RadixHttpMethod>,
    /// Accepted host patterns; `None` accepts any host.
    pub hosts: Option<Vec<String>>,
    /// Reserved; not evaluated.
    pub remote_addrs: Option<Vec<String>>,
    /// Conditions on the request variables.
    pub vars: Option<Vec<Expr>>,
    /// The user predicate, consulted last.
    pub filter_fn: Option<FilterFn>,
    /// Higher values outrank lower ones.
    pub priority: i32,
    /// Opaque payload handed back on a match.
    pub metadata: serde_json::Value,
}

/// A request descriptor.  Every field is optional; none is mutated.
pub struct RadixMatchOpts {
    pub method: Option<String>,
    pub host: Option<String>,
    pub remote_addr: Option<String>,
    pub vars: Option<StrMap>,
}

impl Default for RadixMatchOpts {
    /// A request with nothing set.
    fn default() -> (r: Self)
        ensures
            r.method is None,
            r.host is None,
            r.remote_addr is None,
            r.vars is None,
    {
        RadixMatchOpts { method: None, host: None, remote_addr: None, vars: None }
    }
}

/// What a successful match returns.
pub struct MatchResult {
    /// The matched route's identifier.
    pub id: String,
    /// The matched route's metadata.
    pub metadata: serde_json::Value,
    /// The extracted values: the path captures, and the synthetic keys
    /// `_path`, `_method` and `_host`.
    pub matched: StrMap,
}

/// A processed route record, derived from one `(descriptor, path)` pair.
pub struct RouteOpts {
    pub id: String,
    /// The literal prefix of the pattern: the index key.
    pub path: String,
    /// The pattern as declared.
    pub path_org: String,
    pub path_op: PathOp,
    /// Whether the pattern declares captures.
    pub has_param: bool,
    pub methods: RadixHttpMethod,
    pub hosts: Option<Vec<HostPattern>>,
    pub vars: Option<Vec<Expr>>,
    pub filter_fn: Option<FilterFn>,
    pub priority: i32,
    pub metadata: serde_json::Value,
    /// The compiled pattern; present exactly when `has_param` holds.
    pub compiled: Option<Vec<Frag>>,
}

impl RouteOpts {
    /// The candidate-list order: higher priority first; on equal priority,
    /// the longer declared path first.
    pub fn cmp_priority(&self, other: &Self) -> (r: core::cmp::Ordering)
        ensures
            r == rank_cmp(*self, *other),
    {
        if other.priority != self.priority {
            if other.priority < self.priority {
                core::cmp::Ordering::Less
            } else {
                core::cmp::Ordering::Greater
            }
        } else {
            let ol = other.path_org.as_str().unicode_len();
            let sl = self.path_org.as_str().unicode_len();
            if ol < sl {
                core::cmp::Ordering::Less
            } else if ol == sl {
                core::cmp::Ordering::Equal
            } else {
                core::cmp::Ordering::Greater
            }
        }
    }
}

/// The comparison `cmp_priority` computes: `Less` when `a` outranks `b`.
pub open spec fn rank_cmp(a: RouteOpts, b: RouteOpts) -> core::cmp::Ordering {
    if b.priority < a.priority {
        core::cmp::Ordering::Less
    } else if b.priority > a.priority {
        core::cmp::Ordering::Greater
    } else if b.path_org@.len() < a.path_org@.len() {
        core::cmp::Ordering::Less
    } else if b.path_org@.len() == a.path_org@.len() {
        core::cmp::Ordering::Equal
    } else {
        core::cmp::Ordering::Greater
    }
}

/// `a` ranks at least as high as `b`: stored candidate lists are sorted by
/// this order.
pub open spec fn rank_ge(a: RouteOpts, b: RouteOpts) -> bool {
    a.priority > b.priority || (a.priority == b.priority && a.path_org@.len() >= b.path_org@.len())
}

/// `a` ranks strictly higher than `b`.
pub open spec fn rank_gt(a: RouteOpts, b: RouteOpts) -> bool {
    a.priority > b.priority || (a.priority == b.priority && a.path_org@.len() > b.path_org@.len())
}

/// The record `process_route` derives from `route` and one of its declared
/// paths `p`.  Everything is pinned except the payload of a `Regex`
/// expression and the exact compiled pattern values, whose views are pinned.
pub open spec fn record_rel(route: RadixNode, p: Seq<char>, r: RouteOpts) -> bool {
    &&& r.id@ == route.id@
    &&& r.path@ == path_key_of(p)
    &&& r.path_org@ == p
    &&& r.path_op == (if path_is_exact(p) {
        PathOp::Equal
    } else {
        PathOp::PrefixMatch
    })
    &&& r.has_param == path_has_param(p)
    &&& r.methods.bits == (match route.methods {
        Some(m) => m.bits,
        None => 0u16,
    })
    &&& (match (route.hosts, r.hosts) {
        (None, None) => true,
        (Some(hs), Some(ps)) => ps.len() == hs.len() && (forall|i: int|
            0 <= i < hs.len() ==> (#[trigger] ps[i]).is_wildcard == host_is_wildcard(hs[i]@)
                && ps[i].pattern@ == host_pattern_body(hs[i]@)),
        _ => false,
    })
    &&& (match (route.vars, r.vars) {
        (None, None) => true,
        (Some(es), Some(ds)) => ds.len() == es.len() && (forall|i: int|
            0 <= i < es.len() ==> expr_similar(es[i], #[trigger] ds[i])),
        _ => false,
    })
    &&& r.filter_fn == route.filter_fn
    &&& r.priority == route.priority
    &&& r.metadata == route.metadata
    &&& (match r.compiled {
        Some(fs) => r.has_param && frags_view(fs@) == compile_frags(p),
        None => !r.has_param,
    })
}

} // verus!
