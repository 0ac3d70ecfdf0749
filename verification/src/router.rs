//! The router: an exact-path index and a prefix index over processed route
//! records, and the matcher that walks them.
//!
//! A query tries the exact index first, then the prefix index by strictly
//! decreasing prefix length; within a candidate list, records are kept
//! sorted by priority (ties: longer declared path first), and the first
//! candidate that passes every criterion wins.

use crate::error::RouterError;
use crate::expr::{expr_eval_spec, expr_key, Expr};
use crate::foreign::{lower_of, to_lower};
use crate::host::{host_pattern_accepts, HostPattern};
use crate::method::{method_of, RadixHttpMethod};
use crate::pattern::{
    compile_frags, frags_match, frags_view, frags_wf, match_pattern, pairs_view, parse_path,
    path_is_exact, path_key_of,
};
use crate::route::{
    rank_ge, rank_gt, record_rel, MatchResult, PathOp, RadixMatchOpts, RadixNode, RouteOpts,
};
use crate::strmap::StrMap;
use vstd::prelude::*;
use vstd::string::*;

verus! {

/// One entry of an index: a key and the candidate routes stored under it.
pub struct PathBucket {
    pub key: String,
    pub routes: Vec<RouteOpts>,
}

/// The spec-level form of an index entry.
pub struct BucketView {
    pub key: Seq<char>,
    pub routes: Seq<RouteOpts>,
}

/// The views of an index.
pub open spec fn buckets_view(bs: Seq<PathBucket>) -> Seq<BucketView> {
    bs.map_values(|b: PathBucket| BucketView { key: b.key@, routes: b.routes@ })
}

/// The request fields the matcher reads.
pub struct OptsV {
    pub method: Option<Seq<char>>,
    pub host: Option<Seq<char>>,
    pub vars: Option<Map<Seq<char>, Seq<char>>>,
}

impl View for RadixMatchOpts {
    type V = OptsV;

    open spec fn view(&self) -> OptsV {
        OptsV {
            method: match self.method {
                Some(m) => Some(m@),
                None => None,
            },
            host: match self.host {
                Some(h) => Some(h@),
                None => None,
            },
            vars: match self.vars {
                Some(v) => Some(v@),
                None => None,
            },
        }
    }
}

/// The view of an optional host string.
pub open spec fn opt_str_view(h: Option<String>) -> Option<Seq<char>> {
    match h {
        Some(s) => Some(s@),
        None => None,
    }
}

/// A request view with its host field replaced by the host as given.
pub open spec fn with_raw_host(o: OptsV, raw: Option<String>) -> OptsV {
    OptsV { host: opt_str_view(raw), ..o }
}

// ---------------------------------------------------------------------
// per-candidate evaluation, as specification; the request is taken as
// given, and the host is folded to lower case where a comparison happens
// ---------------------------------------------------------------------

/// Step 1: the method criterion.  An empty bitset passes anything; a
/// non-empty bitset requires a present, known method whose bit is set.
pub open spec fn method_ok(bits: u16, method: Option<Seq<char>>) -> bool {
    bits == 0 || (match method {
        Some(s) => method_of(s) != 0 && bits & method_of(s) == method_of(s),
        None => false,
    })
}

/// Whether some pattern of `hs` accepts the folded host `h`.
pub open spec fn hosts_accept(hs: Seq<HostPattern>, h: Seq<char>) -> bool {
    exists|i: int|
        0 <= i < hs.len() && host_pattern_accepts(
            (#[trigger] hs[i]).is_wildcard,
            hs[i].pattern@,
            h,
        )
}

/// The `_host` value recorded for the first pattern of `hs` accepting the
/// request host `h` (folded for the comparison): `*` plus the suffix for a
/// wildcard pattern, the request host as given for a literal one.
pub open spec fn host_value(hs: Seq<HostPattern>, h: Seq<char>) -> Seq<char>
    decreases hs.len(),
{
    if hs.len() == 0 {
        Seq::empty()
    } else if host_pattern_accepts(hs[0].is_wildcard, hs[0].pattern@, lower_of(h)) {
        if hs[0].is_wildcard {
            "*"@ + hs[0].pattern@
        } else {
            h
        }
    } else {
        host_value(hs.skip(1), h)
    }
}

pub proof fn lemma_host_value_at(hs: Seq<HostPattern>, h: Seq<char>, i: int)
    requires
        0 <= i < hs.len(),
        host_pattern_accepts(hs[i].is_wildcard, hs[i].pattern@, lower_of(h)),
        forall|j: int| 0 <= j < i ==> !host_pattern_accepts(
            (#[trigger] hs[j]).is_wildcard,
            hs[j].pattern@,
            lower_of(h),
        ),
    ensures
        host_value(hs, h) == (if hs[i].is_wildcard {
            "*"@ + hs[i].pattern@
        } else {
            h
        }),
    decreases hs.len(),
{
    if i > 0 {
        assert(hs.skip(1)[i - 1] == hs[i]);
        assert forall|j: int| 0 <= j < i - 1 implies !host_pattern_accepts(
            (#[trigger] hs.skip(1)[j]).is_wildcard,
            hs.skip(1)[j].pattern@,
            lower_of(h),
        ) by {
            assert(hs.skip(1)[j] == hs[j + 1]);
        }
        lemma_host_value_at(hs.skip(1), h, i - 1);
    }
}

/// Step 2: the host criterion, compared case-insensitively.
pub open spec fn hosts_ok(hosts: Option<Vec<HostPattern>>, host: Option<Seq<char>>) -> bool {
    match hosts {
        None => true,
        Some(hs) => match host {
            Some(h) => hosts_accept(hs@, lower_of(h)),
            None => false,
        },
    }
}

/// Step 3: the path-parameter criterion; on success, the captures.
pub open spec fn params_result(r: RouteOpts, path: Seq<char>) -> Option<
    Seq<(Seq<char>, Seq<char>)>,
> {
    match r.compiled {
        None => Some(Seq::empty()),
        Some(fs) => frags_match(frags_view(fs@), path),
    }
}

/// Step 4: the variable criterion, as far as the specification models it.
/// A `Regex` expression contributes only the demand that its variable be
/// present; what the outside pattern accepts is not modelled.
pub open spec fn vars_ok(vars: Option<Vec<Expr>>, rvars: Option<Map<Seq<char>, Seq<char>>>) -> bool {
    match vars {
        None => true,
        Some(es) => es@.len() == 0 || (match rvars {
            Some(m) => forall|i: int| 0 <= i < es@.len() ==> expr_eval_spec(#[trigger] es@[i], m),
            None => false,
        }),
    }
}

/// The modelled criteria of one candidate.
pub open spec fn static_pass(r: RouteOpts, path: Seq<char>, o: OptsV) -> bool {
    &&& method_ok(r.methods.bits, o.method)
    &&& hosts_ok(r.hosts, o.host)
    &&& params_result(r, path) is Some
    &&& vars_ok(r.vars, o.vars)
}

/// Whether a candidate's outcome also hangs on something the specification
/// does not model: a filter callback, or a `Regex` expression on a present
/// variable.
pub open spec fn candidate_dynamic(r: RouteOpts, o: OptsV) -> bool {
    r.filter_fn is Some || (match r.vars {
        Some(es) => match o.vars {
            Some(m) => exists|i: int|
                0 <= i < es@.len() && (#[trigger] es@[i]) is Regex && m.contains_key(
                    expr_key(es@[i]),
                ),
            None => false,
        },
        None => false,
    })
}

/// A candidate the matcher may pass over: it fails a modelled criterion,
/// or its outcome is dynamic.
pub open spec fn rejectable(r: RouteOpts, path: Seq<char>, o: OptsV) -> bool {
    !static_pass(r, path, o) || candidate_dynamic(r, o)
}

/// Every candidate of `s` is rejectable.
pub open spec fn all_rejectable(s: Seq<RouteOpts>, path: Seq<char>, o: OptsV) -> bool {
    forall|i: int| 0 <= i < s.len() ==> rejectable(#[trigger] s[i], path, o)
}

/// Captures folded into a map, in order: later pairs overwrite earlier.
pub open spec fn pairs_into_map(
    m: Map<Seq<char>, Seq<char>>,
    ps: Seq<(Seq<char>, Seq<char>)>,
) -> Map<Seq<char>, Seq<char>>
    decreases ps.len(),
{
    if ps.len() == 0 {
        m
    } else {
        pairs_into_map(m, ps.drop_last()).insert(ps.last().0, ps.last().1)
    }
}

/// The `matched` map a passing candidate produces, before `_path` is added:
/// `_method` when the request names a method, `_host` when the route
/// constrains hosts, then the path captures in declaration order.
pub open spec fn matched_map(r: RouteOpts, path: Seq<char>, o: OptsV) -> Map<Seq<char>, Seq<char>> {
    let m0 = Map::<Seq<char>, Seq<char>>::empty();
    let m1 = match o.method {
        Some(ms) => m0.insert("_method"@, ms),
        None => m0,
    };
    let m2 = match r.hosts {
        Some(hs) => match o.host {
            Some(h) => m1.insert("_host"@, host_value(hs@, h)),
            None => m1,
        },
        None => m1,
    };
    match params_result(r, path) {
        Some(ps) => pairs_into_map(m2, ps),
        None => m2,
    }
}

/// What a returned match says about the winning candidate.
pub open spec fn result_matches(r: RouteOpts, path: Seq<char>, o: OptsV, res: MatchResult) -> bool {
    &&& res.id@ == r.id@
    &&& res.metadata == r.metadata
    &&& res.matched@ == matched_map(r, path, o).insert("_path"@, r.path_org@)
}

/// The matcher's contract over a candidate sequence: a returned match comes
/// from the first candidate that passes every modelled criterion, with every
/// earlier candidate rejectable; an empty answer means every candidate was
/// rejectable.
pub open spec fn match_post(
    cands: Seq<RouteOpts>,
    path: Seq<char>,
    o: OptsV,
    res: Option<MatchResult>,
) -> bool {
    match res {
        Some(mr) => exists|i: int|
            #![trigger cands[i]]
            {
                &&& 0 <= i < cands.len()
                &&& static_pass(cands[i], path, o)
                &&& result_matches(cands[i], path, o, mr)
                &&& forall|j: int| 0 <= j < i ==> rejectable(#[trigger] cands[j], path, o)
            },
        None => all_rejectable(cands, path, o),
    }
}

// ---------------------------------------------------------------------
// the indices, as specification
// ---------------------------------------------------------------------

/// The routes stored under `key`: those of the first entry with that key.
pub open spec fn bucket_routes_of(bv: Seq<BucketView>, key: Seq<char>) -> Seq<RouteOpts>
    decreases bv.len(),
{
    if bv.len() == 0 {
        Seq::empty()
    } else if bv[0].key == key {
        bv[0].routes
    } else {
        bucket_routes_of(bv.skip(1), key)
    }
}

/// Whether the index holds an entry under `key`.
pub open spec fn has_bucket(bv: Seq<BucketView>, key: Seq<char>) -> bool {
    exists|i: int| 0 <= i < bv.len() && (#[trigger] bv[i]).key == key
}

pub proof fn lemma_bucket_routes_at(bv: Seq<BucketView>, key: Seq<char>, i: int)
    requires
        0 <= i < bv.len(),
        bv[i].key == key,
        forall|j: int| 0 <= j < i ==> (#[trigger] bv[j]).key != key,
    ensures
        has_bucket(bv, key),
        bucket_routes_of(bv, key) == bv[i].routes,
    decreases bv.len(),
{
    if i > 0 {
        assert(bv.skip(1)[i - 1] == bv[i]);
        assert forall|j: int| 0 <= j < i - 1 implies (#[trigger] bv.skip(1)[j]).key != key by {
            assert(bv.skip(1)[j] == bv[j + 1]);
        }
        lemma_bucket_routes_at(bv.skip(1), key, i - 1);
    }
}

/// The prefix-index candidates for `path`, for key lengths `l` down to `0`.
pub open spec fn tree_cands(bv: Seq<BucketView>, path: Seq<char>, l: int) -> Seq<RouteOpts>
    decreases l + 1,
{
    if l < 0 {
        Seq::empty()
    } else {
        (if has_bucket(bv, path.take(l)) {
            bucket_routes_of(bv, path.take(l))
        } else {
            Seq::empty()
        }) + tree_cands(bv, path, l - 1)
    }
}

/// The prefix-index candidates for key lengths `hi` down to `lo + 1`.
pub open spec fn tree_cands_range(bv: Seq<BucketView>, path: Seq<char>, hi: int, lo: int) -> Seq<
    RouteOpts,
>
    decreases hi - lo,
{
    if hi <= lo {
        Seq::empty()
    } else {
        (if has_bucket(bv, path.take(hi)) {
            bucket_routes_of(bv, path.take(hi))
        } else {
            Seq::empty()
        }) + tree_cands_range(bv, path, hi - 1, lo)
    }
}

pub proof fn lemma_tree_cands_split(bv: Seq<BucketView>, path: Seq<char>, hi: int, lo: int)
    requires
        -1 <= lo <= hi,
    ensures
        tree_cands(bv, path, hi) == tree_cands_range(bv, path, hi, lo) + tree_cands(bv, path, lo),
    decreases hi - lo,
{
    if hi <= lo {
        assert(tree_cands_range(bv, path, hi, lo) + tree_cands(bv, path, lo) =~= tree_cands(
            bv,
            path,
            hi,
        ));
    } else {
        lemma_tree_cands_split(bv, path, hi - 1, lo);
        assert((if has_bucket(bv, path.take(hi)) {
            bucket_routes_of(bv, path.take(hi))
        } else {
            Seq::<RouteOpts>::empty()
        }) + (tree_cands_range(bv, path, hi - 1, lo) + tree_cands(bv, path, lo)) =~= ((if has_bucket(
            bv,
            path.take(hi),
        ) {
            bucket_routes_of(bv, path.take(hi))
        } else {
            Seq::<RouteOpts>::empty()
        }) + tree_cands_range(bv, path, hi - 1, lo)) + tree_cands(bv, path, lo));
    }
}

// ---------------------------------------------------------------------
// well-formedness
// ---------------------------------------------------------------------

/// A record is internally consistent: its key, kind, flag and compiled
/// pattern all derive from its declared path.
pub open spec fn record_wf(r: RouteOpts) -> bool {
    &&& r.path@ == path_key_of(r.path_org@)
    &&& r.path_op == (if path_is_exact(r.path_org@) {
        PathOp::Equal
    } else {
        PathOp::PrefixMatch
    })
    &&& r.has_param == crate::pattern::path_has_param(r.path_org@)
    &&& (match r.compiled {
        Some(fs) => r.has_param && frags_view(fs@) == compile_frags(r.path_org@) && frags_wf(
            compile_frags(r.path_org@),
        ),
        None => !r.has_param,
    })
}

/// A candidate list is sorted: higher priority first, longer declared path
/// first on ties.
pub open spec fn bucket_sorted(rs: Seq<RouteOpts>) -> bool {
    forall|i: int, j: int| 0 <= i < j < rs.len() ==> rank_ge(#[trigger] rs[i], #[trigger] rs[j])
}

/// An index entry: non-empty, sorted, and every record of the index's
/// kind, stored under its own literal prefix (for an exact pattern, its
/// full path).
pub open spec fn bucket_wf(b: BucketView, op: PathOp) -> bool {
    &&& b.routes.len() > 0
    &&& bucket_sorted(b.routes)
    &&& forall|i: int|
        0 <= i < b.routes.len() ==> record_wf(#[trigger] b.routes[i]) && b.routes[i].path_op == op
            && b.routes[i].path@ == b.key
}

/// No two entries of an index share a key.
pub open spec fn keys_unique(bv: Seq<BucketView>) -> bool {
    forall|i: int, j: int| 0 <= i < j < bv.len() ==> (#[trigger] bv[i]).key != (#[trigger] bv[j]).key
}

/// A whole index of one kind.
pub open spec fn index_wf(bv: Seq<BucketView>, op: PathOp) -> bool {
    keys_unique(bv) && forall|i: int| 0 <= i < bv.len() ==> bucket_wf(#[trigger] bv[i], op)
}

/// A router whose routes may be matched.
pub struct RadixRouter {
    pub(crate) hash_path: Vec<PathBucket>,
    pub(crate) tree_path: Vec<PathBucket>,
}

impl RadixRouter {
    /// The exact index, as specification.
    pub open(crate) spec fn hash_view(self) -> Seq<BucketView> {
        buckets_view(self.hash_path@)
    }

    /// The prefix index, as specification.
    pub open(crate) spec fn tree_view(self) -> Seq<BucketView> {
        buckets_view(self.tree_path@)
    }

    /// The router's structural invariant.
    pub open(crate) spec fn wf(self) -> bool {
        &&& index_wf(self.hash_view(), PathOp::Equal)
        &&& index_wf(self.tree_view(), PathOp::PrefixMatch)
    }

    /// Every candidate the matcher would consider for `path`, in the order
    /// it considers them: the exact-index entry for the full path first,
    /// then the prefix-index entries by strictly decreasing key length.
    pub open(crate) spec fn all_cands(self, path: Seq<char>) -> Seq<RouteOpts> {
        (if has_bucket(self.hash_view(), path) {
            bucket_routes_of(self.hash_view(), path)
        } else {
            Seq::empty()
        }) + tree_cands(self.tree_view(), path, path.len() as int)
    }
}

/// Find the entry holding `key`.
fn find_bucket(bs: &Vec<PathBucket>, key: &str) -> (r: Option<usize>)
    ensures
        match r {
            Some(i) => i < bs@.len() && buckets_view(bs@)[i as int].key == key@ && (forall|j: int|
                0 <= j < i ==> (#[trigger] buckets_view(bs@)[j]).key != key@),
            None => !has_bucket(buckets_view(bs@), key@),
        },
{
    let n = bs.len();
    let mut i: usize = 0;
    while i < n
        invariant
            n == bs@.len(),
            0 <= i <= n,
            forall|j: int| 0 <= j < i ==> (#[trigger] buckets_view(bs@)[j]).key != key@,
        decreases n - i,
    {
        if crate::text::str_eq(bs[i].key.as_str(), key) {
            proof {
                assert(buckets_view(bs@)[i as int].key == key@);
            }
            return Some(i);
        }
        proof {
            assert(buckets_view(bs@)[i as int].key == bs@[i as int].key@);
        }
        i += 1;
    }
    proof {
        assert forall|j: int| 0 <= j < bs@.len() implies (#[trigger] buckets_view(bs@)[j]).key
            != key@ by {}
    }
    None
}

/// The `_host` value for the first pattern accepting the request host:
/// `raw` is the host as given, `folded` its lower-case copy used for the
/// comparisons.
fn host_scan(hs: &Vec<HostPattern>, folded: &str, raw: &str) -> (r: Option<String>)
    requires
        folded@ == lower_of(raw@),
    ensures
        match r {
            Some(v) => hosts_accept(hs@, lower_of(raw@)) && v@ == host_value(hs@, raw@),
            None => !hosts_accept(hs@, lower_of(raw@)),
        },
{
    let n = hs.len();
    let mut i: usize = 0;
    while i < n
        invariant
            n == hs@.len(),
            0 <= i <= n,
            folded@ == lower_of(raw@),
            forall|j: int| 0 <= j < i ==> !host_pattern_accepts(
                (#[trigger] hs@[j]).is_wildcard,
                hs@[j].pattern@,
                folded@,
            ),
        decreases n - i,
    {
        if hs[i].matches_folded(folded) {
            proof {
                lemma_host_value_at(hs@, raw@, i as int);
            }
            let v = if hs[i].is_wildcard {
                let star = String::from_str("*");
                star.concat(hs[i].pattern.as_str())
            } else {
                String::from_str(raw)
            };
            return Some(v);
        }
        i += 1;
    }
    None
}

/// Evaluate one candidate against a request whose host is already folded.
/// `Some` carries the `matched` map (without `_path`); `None` means the
/// candidate failed a modelled criterion or a dynamic check.  `opts` is
/// the request with its host already folded; `raw_host` is the host as
/// given, recorded under `_host` when a literal pattern matches.
fn eval_candidate(
    route: &RouteOpts,
    path: &str,
    opts: &RadixMatchOpts,
    raw_host: &Option<String>,
) -> (r: Option<StrMap>)
    requires
        raw_host matches Some(rh) ==> (opts.host matches Some(f) && f@ == lower_of(rh@)),
        raw_host is None ==> opts.host is None,
    ensures
        match r {
            Some(m) => static_pass(*route, path@, with_raw_host(opts@, *raw_host)) && m@
                == matched_map(*route, path@, with_raw_host(opts@, *raw_host)),
            None => rejectable(*route, path@, with_raw_host(opts@, *raw_host)),
        },
{
    let ghost o = with_raw_host(opts@, *raw_host);
    // step 1: method
    if route.methods.bits != 0 {
        match &opts.method {
            Some(ms) => match RadixHttpMethod::from_str(ms.as_str()) {
                Some(m) => {
                    if !route.methods.contains(m) {
                        return None;
                    }
                },
                None => {
                    return None;
                },
            },
            None => {
                return None;
            },
        }
    }
    let mut matched = StrMap::new();
    if let Some(ms) = &opts.method {
        matched.insert(String::from_str("_method"), ms.clone());
    }
    let ghost m1 = matched@;
    // step 2: host
    if let Some(hs) = &route.hosts {
        match (&opts.host, raw_host) {
            (Some(h), Some(rh)) => match host_scan(hs, h.as_str(), rh.as_str()) {
                Some(hv) => {
                    matched.insert(String::from_str("_host"), hv);
                },
                None => {
                    return None;
                },
            },
            (None, None) => {
                return None;
            },
            _ => {
                proof {
                    assert(false);
                }
                return None;
            },
        }
    }
    let ghost m2 = matched@;
    // step 3: path parameters
    if let Some(frags) = &route.compiled {
        match match_pattern(frags, path) {
            Some(pairs) => {
                let ghost ps = pairs_view(pairs@);
                let n = pairs.len();
                let mut k: usize = 0;
                proof {
                    assert(ps.take(0) =~= Seq::<(Seq<char>, Seq<char>)>::empty());
                }
                while k < n
                    invariant
                        n == pairs@.len(),
                        0 <= k <= n,
                        ps == pairs_view(pairs@),
                        matched@ == pairs_into_map(m2, ps.take(k as int)),
                    decreases n - k,
                {
                    proof {
                        assert(ps.take(k + 1).drop_last() =~= ps.take(k as int));
                        assert(ps.take(k + 1).last() == ps[k as int]);
                    }
                    matched.insert(pairs[k].0.clone(), pairs[k].1.clone());
                    k += 1;
                }
                proof {
                    assert(ps.take(n as int) =~= ps);
                }
            },
            None => {
                return None;
            },
        }
    }
    // step 4: variable expressions
    if let Some(es) = &route.vars {
        if es.len() > 0 {
            match &opts.vars {
                Some(vm) => {
                    let n = es.len();
                    let mut k: usize = 0;
                    while k < n
                        invariant
                            n == es@.len(),
                            0 <= k <= n,
                            route.vars matches Some(es2) && es2@ == es@,
                            opts.vars matches Some(vm2) && vm2@ == vm@,
                            o == with_raw_host(opts@, *raw_host),
                            o.vars == opts@.vars,
                            forall|j: int| 0 <= j < k ==> expr_eval_spec(#[trigger] es@[j], vm@),
                        decreases n - k,
                    {
                        if !es[k].eval(vm) {
                            proof {
                                if expr_eval_spec(es@[k as int], vm@) {
                                    // only a Regex expression answers false
                                    // while the modelled value is true
                                    assert(es@[k as int] is Regex);
                                    assert(vm@.contains_key(expr_key(es@[k as int])));
                                    assert(candidate_dynamic(*route, o));
                                } else {
                                    assert(!vars_ok(route.vars, o.vars));
                                }
                            }
                            return None;
                        }
                        k += 1;
                    }
                },
                None => {
                    return None;
                },
            }
        }
    }
    // step 5: the user predicate
    if let Some(f) = &route.filter_fn {
        proof {
            assert(candidate_dynamic(*route, o));
        }
        let pass = match &opts.vars {
            Some(v) => f.check(v, opts),
            None => {
                let empty = StrMap::new();
                f.check(&empty, opts)
            },
        };
        if !pass {
            return None;
        }
    }
    Some(matched)
}

/// Try the candidates of one list in stored order.
fn scan_bucket(
    routes: &Vec<RouteOpts>,
    path: &str,
    opts: &RadixMatchOpts,
    raw_host: &Option<String>,
) -> (r: Option<(usize, StrMap)>)
    requires
        raw_host matches Some(rh) ==> (opts.host matches Some(f) && f@ == lower_of(rh@)),
        raw_host is None ==> opts.host is None,
    ensures
        ({
            let o = with_raw_host(opts@, *raw_host);
            match r {
                Some((k, m)) => k < routes@.len() && static_pass(routes@[k as int], path@, o)
                    && m@ == matched_map(routes@[k as int], path@, o) && (forall|j: int|
                    0 <= j < k ==> rejectable(#[trigger] routes@[j], path@, o)),
                None => all_rejectable(routes@, path@, o),
            }
        }),
{
    let ghost o = with_raw_host(opts@, *raw_host);
    let n = routes.len();
    let mut k: usize = 0;
    while k < n
        invariant
            o == with_raw_host(opts@, *raw_host),
            raw_host matches Some(rh) ==> (opts.host matches Some(f) && f@ == lower_of(rh@)),
            raw_host is None ==> opts.host is None,
            n == routes@.len(),
            0 <= k <= n,
            forall|j: int| 0 <= j < k ==> rejectable(#[trigger] routes@[j], path@, o),
        decreases n - k,
    {
        match eval_candidate(&routes[k], path, opts, raw_host) {
            Some(m) => {
                return Some((k, m));
            },
            None => {},
        }
        k += 1;
    }
    None
}

pub proof fn lemma_tree_range_join(bv: Seq<BucketView>, path: Seq<char>, hi: int, mid: int, lo: int)
    requires
        lo <= mid <= hi,
    ensures
        tree_cands_range(bv, path, hi, lo) == tree_cands_range(bv, path, hi, mid)
            + tree_cands_range(bv, path, mid, lo),
    decreases hi - mid,
{
    if hi == mid {
        assert(tree_cands_range(bv, path, hi, mid) + tree_cands_range(bv, path, mid, lo)
            =~= tree_cands_range(bv, path, hi, lo));
    } else {
        lemma_tree_range_join(bv, path, hi - 1, mid, lo);
        let head = if has_bucket(bv, path.take(hi)) {
            bucket_routes_of(bv, path.take(hi))
        } else {
            Seq::<RouteOpts>::empty()
        };
        assert(head + (tree_cands_range(bv, path, hi - 1, mid) + tree_cands_range(
            bv,
            path,
            mid,
            lo,
        )) =~= (head + tree_cands_range(bv, path, hi - 1, mid)) + tree_cands_range(
            bv,
            path,
            mid,
            lo,
        ));
    }
}

// ---------------------------------------------------------------------
// registration and removal, as specification
// ---------------------------------------------------------------------

/// Where a record lands in a sorted candidate list: before the first
/// stored record it strictly outranks, after every equal-ranked one.
pub open spec fn insert_pos(rs: Seq<RouteOpts>, ro: RouteOpts) -> int
    decreases rs.len(),
{
    if rs.len() == 0 {
        0
    } else if rank_gt(ro, rs[0]) {
        0
    } else {
        1 + insert_pos(rs.skip(1), ro)
    }
}

/// A candidate list with a record placed at its rank.
pub open spec fn insert_sorted(rs: Seq<RouteOpts>, ro: RouteOpts) -> Seq<RouteOpts> {
    rs.insert(insert_pos(rs, ro), ro)
}

pub proof fn lemma_insert_pos_props(rs: Seq<RouteOpts>, ro: RouteOpts)
    ensures
        0 <= insert_pos(rs, ro) <= rs.len(),
        forall|j: int| 0 <= j < insert_pos(rs, ro) ==> !rank_gt(ro, #[trigger] rs[j]),
        insert_pos(rs, ro) < rs.len() ==> rank_gt(ro, rs[insert_pos(rs, ro)]),
    decreases rs.len(),
{
    if rs.len() > 0 && !rank_gt(ro, rs[0]) {
        lemma_insert_pos_props(rs.skip(1), ro);
        assert forall|j: int| 0 <= j < insert_pos(rs, ro) implies !rank_gt(
            ro,
            #[trigger] rs[j],
        ) by {
            if j > 0 {
                assert(rs.skip(1)[j - 1] == rs[j]);
            }
        }
        if insert_pos(rs, ro) < rs.len() {
            assert(rs.skip(1)[insert_pos(rs.skip(1), ro)] == rs[insert_pos(rs, ro)]);
        }
    }
}

pub proof fn lemma_insert_pos_is(rs: Seq<RouteOpts>, ro: RouteOpts, i: int)
    requires
        0 <= i <= rs.len(),
        i < rs.len() ==> rank_gt(ro, rs[i]),
        forall|j: int| 0 <= j < i ==> !rank_gt(ro, #[trigger] rs[j]),
    ensures
        insert_pos(rs, ro) == i,
    decreases rs.len(),
{
    if rs.len() > 0 && !rank_gt(ro, rs[0]) {
        assert(i > 0);
        assert forall|j: int| 0 <= j < i - 1 implies !rank_gt(ro, #[trigger] rs.skip(1)[j]) by {
            assert(rs.skip(1)[j] == rs[j + 1]);
        }
        if i < rs.len() {
            assert(rs.skip(1)[i - 1] == rs[i]);
        }
        lemma_insert_pos_is(rs.skip(1), ro, i - 1);
    }
}

/// Placing a record keeps the list sorted.
pub proof fn lemma_insert_sorted_sorted(rs: Seq<RouteOpts>, ro: RouteOpts)
    requires
        bucket_sorted(rs),
    ensures
        bucket_sorted(insert_sorted(rs, ro)),
{
    lemma_insert_pos_props(rs, ro);
    let p = insert_pos(rs, ro);
    let ns = insert_sorted(rs, ro);
    assert forall|i: int, j: int| 0 <= i < j < ns.len() implies rank_ge(
        #[trigger] ns[i],
        #[trigger] ns[j],
    ) by {
        if i < p && j < p {
            assert(ns[i] == rs[i] && ns[j] == rs[j]);
        } else if i < p && j == p {
            assert(ns[i] == rs[i] && ns[j] == ro);
        } else if i < p && j > p {
            assert(ns[i] == rs[i] && ns[j] == rs[j - 1]);
        } else if i == p && j > p {
            assert(ns[i] == ro && ns[j] == rs[j - 1]);
            if p < rs.len() {
                assert(rank_gt(ro, rs[p]));
                if j - 1 > p {
                    assert(rank_ge(rs[p], rs[j - 1]));
                }
            }
        } else {
            assert(ns[i] == rs[i - 1] && ns[j] == rs[j - 1]);
        }
    }
}

/// An index with a record placed into the entry holding its key, the entry
/// being created if absent.
pub open spec fn insert_into(bv: Seq<BucketView>, key: Seq<char>, ro: RouteOpts) -> Seq<BucketView>
    decreases bv.len(),
{
    if bv.len() == 0 {
        seq![BucketView { key, routes: seq![ro] }]
    } else if bv[0].key == key {
        seq![BucketView { key, routes: insert_sorted(bv[0].routes, ro) }] + bv.skip(1)
    } else {
        seq![bv[0]] + insert_into(bv.skip(1), key, ro)
    }
}

pub proof fn lemma_insert_into_at(bv: Seq<BucketView>, key: Seq<char>, ro: RouteOpts, i: int)
    requires
        0 <= i < bv.len(),
        bv[i].key == key,
        forall|j: int| 0 <= j < i ==> (#[trigger] bv[j]).key != key,
    ensures
        insert_into(bv, key, ro) =~= bv.update(
            i,
            BucketView { key, routes: insert_sorted(bv[i].routes, ro) },
        ),
    decreases bv.len(),
{
    if i == 0 {
    } else {
        assert(bv.skip(1)[i - 1] == bv[i]);
        assert forall|j: int| 0 <= j < i - 1 implies (#[trigger] bv.skip(1)[j]).key != key by {
            assert(bv.skip(1)[j] == bv[j + 1]);
        }
        lemma_insert_into_at(bv.skip(1), key, ro, i - 1);
        assert(bv.skip(1).update(i - 1, BucketView { key, routes: insert_sorted(bv[i].routes, ro) })
            =~= bv.update(i, BucketView { key, routes: insert_sorted(bv[i].routes, ro) }).skip(1));
    }
}

pub proof fn lemma_insert_into_absent(bv: Seq<BucketView>, key: Seq<char>, ro: RouteOpts)
    requires
        !has_bucket(bv, key),
    ensures
        insert_into(bv, key, ro) =~= bv.push(BucketView { key, routes: seq![ro] }),
    decreases bv.len(),
{
    if bv.len() > 0 {
        assert(bv[0].key != key);
        assert(!has_bucket(bv.skip(1), key)) by {
            if has_bucket(bv.skip(1), key) {
                let j = choose|j: int|
                    0 <= j < bv.skip(1).len() && (#[trigger] bv.skip(1)[j]).key == key;
                assert(bv[j + 1].key == key);
            }
        }
        lemma_insert_into_absent(bv.skip(1), key, ro);
        assert(bv.skip(1).push(BucketView { key, routes: seq![ro] }) =~= bv.push(
            BucketView { key, routes: seq![ro] },
        ).skip(1));
    }
}

/// The records of `rs` whose id is not `id`, in order.
pub open spec fn retained(rs: Seq<RouteOpts>, id: Seq<char>) -> Seq<RouteOpts>
    decreases rs.len(),
{
    if rs.len() == 0 {
        Seq::empty()
    } else {
        (if rs[0].id@ != id {
            seq![rs[0]]
        } else {
            Seq::empty()
        }) + retained(rs.skip(1), id)
    }
}

/// Every retained record stands in the original list.
pub proof fn lemma_retained_sub(rs: Seq<RouteOpts>, id: Seq<char>)
    ensures
        forall|i: int| 0 <= i < retained(rs, id).len() ==> exists|j: int|
            0 <= j < rs.len() && #[trigger] retained(rs, id)[i] == rs[j],
    decreases rs.len(),
{
    if rs.len() > 0 {
        lemma_retained_sub(rs.skip(1), id);
        let ret = retained(rs, id);
        let head: Seq<RouteOpts> = if rs[0].id@ != id {
            seq![rs[0]]
        } else {
            Seq::empty()
        };
        assert forall|i: int| 0 <= i < ret.len() implies exists|j: int|
            0 <= j < rs.len() && #[trigger] ret[i] == rs[j] by {
            if i < head.len() {
                assert(ret[i] == rs[0]);
            } else {
                assert(ret[i] == retained(rs.skip(1), id)[i - head.len()]);
                let j = choose|j: int|
                    0 <= j < rs.skip(1).len() && retained(rs.skip(1), id)[i - head.len()]
                        == rs.skip(1)[j];
                assert(ret[i] == rs[j + 1]);
            }
        }
    }
}

/// Removal keeps a candidate list sorted.
pub proof fn lemma_retained_sorted(rs: Seq<RouteOpts>, id: Seq<char>)
    requires
        bucket_sorted(rs),
    ensures
        bucket_sorted(retained(rs, id)),
    decreases rs.len(),
{
    if rs.len() > 0 {
        assert forall|i: int, j: int| 0 <= i < j < rs.skip(1).len() implies rank_ge(
            #[trigger] rs.skip(1)[i],
            #[trigger] rs.skip(1)[j],
        ) by {
            assert(rs.skip(1)[i] == rs[i + 1] && rs.skip(1)[j] == rs[j + 1]);
        }
        lemma_retained_sorted(rs.skip(1), id);
        lemma_retained_sub(rs.skip(1), id);
        let ret = retained(rs, id);
        let head: Seq<RouteOpts> = if rs[0].id@ != id {
            seq![rs[0]]
        } else {
            Seq::empty()
        };
        assert forall|i: int, j: int| 0 <= i < j < ret.len() implies rank_ge(
            #[trigger] ret[i],
            #[trigger] ret[j],
        ) by {
            if i >= head.len() {
                assert(ret[i] == retained(rs.skip(1), id)[i - head.len()]);
                assert(ret[j] == retained(rs.skip(1), id)[j - head.len()]);
            } else {
                assert(ret[i] == rs[0]);
                assert(ret[j] == retained(rs.skip(1), id)[j - head.len()]);
                let k = choose|k: int|
                    0 <= k < rs.skip(1).len() && retained(rs.skip(1), id)[j - head.len()]
                        == rs.skip(1)[k];
                assert(rs.skip(1)[k] == rs[k + 1]);
                assert(rank_ge(rs[0], rs[k + 1]));
            }
        }
    }
}

/// An index with the records under `id` removed from the entry holding
/// `key`; the entry leaves with its last record.  `None` when the index
/// holds no entry under `key`.
pub open spec fn remove_from(bv: Seq<BucketView>, key: Seq<char>, id: Seq<char>) -> Option<
    Seq<BucketView>,
>
    decreases bv.len(),
{
    if bv.len() == 0 {
        None
    } else if bv[0].key == key {
        let rs = retained(bv[0].routes, id);
        Some(
            if rs.len() == 0 {
                bv.skip(1)
            } else {
                seq![BucketView { key, routes: rs }] + bv.skip(1)
            },
        )
    } else {
        match remove_from(bv.skip(1), key, id) {
            Some(t) => Some(seq![bv[0]] + t),
            None => None,
        }
    }
}

pub proof fn lemma_remove_from_at(bv: Seq<BucketView>, key: Seq<char>, id: Seq<char>, i: int)
    requires
        0 <= i < bv.len(),
        bv[i].key == key,
        forall|j: int| 0 <= j < i ==> (#[trigger] bv[j]).key != key,
    ensures
        remove_from(bv, key, id) == Some(
            if retained(bv[i].routes, id).len() == 0 {
                bv.remove(i)
            } else {
                bv.update(i, BucketView { key, routes: retained(bv[i].routes, id) })
            },
        ),
    decreases bv.len(),
{
    if i == 0 {
        if retained(bv[0].routes, id).len() == 0 {
            assert(bv.skip(1) =~= bv.remove(0));
        } else {
            assert(seq![BucketView { key, routes: retained(bv[0].routes, id) }] + bv.skip(1)
                =~= bv.update(0, BucketView { key, routes: retained(bv[0].routes, id) }));
        }
    } else {
        assert(bv.skip(1)[i - 1] == bv[i]);
        assert forall|j: int| 0 <= j < i - 1 implies (#[trigger] bv.skip(1)[j]).key != key by {
            assert(bv.skip(1)[j] == bv[j + 1]);
        }
        lemma_remove_from_at(bv.skip(1), key, id, i - 1);
        if retained(bv[i].routes, id).len() == 0 {
            assert(seq![bv[0]] + bv.skip(1).remove(i - 1) =~= bv.remove(i));
        } else {
            let b2 = BucketView { key, routes: retained(bv[i].routes, id) };
            assert(seq![bv[0]] + bv.skip(1).update(i - 1, b2) =~= bv.update(i, b2));
        }
    }
}

/// One record folded into the pair of indices.
pub open spec fn insert_record(
    hv: Seq<BucketView>,
    tv: Seq<BucketView>,
    ro: RouteOpts,
) -> (Seq<BucketView>, Seq<BucketView>) {
    if ro.path_op == PathOp::Equal {
        (insert_into(hv, ro.path@, ro), tv)
    } else {
        (hv, insert_into(tv, ro.path@, ro))
    }
}

/// A run of records folded into the pair of indices, first record first.
pub open spec fn insert_records(
    hv: Seq<BucketView>,
    tv: Seq<BucketView>,
    ros: Seq<RouteOpts>,
) -> (Seq<BucketView>, Seq<BucketView>)
    decreases ros.len(),
{
    if ros.len() == 0 {
        (hv, tv)
    } else {
        let p = insert_record(hv, tv, ros[0]);
        insert_records(p.0, p.1, ros.skip(1))
    }
}

pub proof fn lemma_insert_records_push(
    hv: Seq<BucketView>,
    tv: Seq<BucketView>,
    ros: Seq<RouteOpts>,
    ro: RouteOpts,
)
    ensures
        insert_records(hv, tv, ros.push(ro)) == ({
            let p = insert_records(hv, tv, ros);
            insert_record(p.0, p.1, ro)
        }),
    decreases ros.len(),
{
    let ps = ros.push(ro);
    if ros.len() == 0 {
        assert(ps[0] == ro);
        assert(ps.skip(1) =~= Seq::<RouteOpts>::empty());
        let q = insert_record(hv, tv, ro);
        assert(insert_records(hv, tv, ps) == insert_records(q.0, q.1, ps.skip(1)));
        assert(insert_records(q.0, q.1, ps.skip(1)) == q);
        assert(insert_records(hv, tv, ros) == (hv, tv));
    } else {
        assert(ps[0] == ros[0]);
        assert(ps.skip(1) =~= ros.skip(1).push(ro));
        let p = insert_record(hv, tv, ros[0]);
        assert(insert_records(hv, tv, ps) == insert_records(p.0, p.1, ps.skip(1)));
        lemma_insert_records_push(p.0, p.1, ros.skip(1), ro);
        assert(insert_records(hv, tv, ros) == insert_records(p.0, p.1, ros.skip(1)));
    }
}

/// One record removed from the pair of indices.
pub open spec fn remove_record(
    hv: Seq<BucketView>,
    tv: Seq<BucketView>,
    ro: RouteOpts,
) -> Option<(Seq<BucketView>, Seq<BucketView>)> {
    if ro.path_op == PathOp::Equal {
        match remove_from(hv, ro.path@, ro.id@) {
            Some(h) => Some((h, tv)),
            None => None,
        }
    } else {
        match remove_from(tv, ro.path@, ro.id@) {
            Some(t) => Some((hv, t)),
            None => None,
        }
    }
}

/// A run of records removed from the pair of indices, first record first.
pub open spec fn remove_records(
    hv: Seq<BucketView>,
    tv: Seq<BucketView>,
    ros: Seq<RouteOpts>,
) -> Option<(Seq<BucketView>, Seq<BucketView>)>
    decreases ros.len(),
{
    if ros.len() == 0 {
        Some((hv, tv))
    } else {
        match remove_record(hv, tv, ros[0]) {
            Some(p) => remove_records(p.0, p.1, ros.skip(1)),
            None => None,
        }
    }
}

pub proof fn lemma_remove_records_push(
    hv: Seq<BucketView>,
    tv: Seq<BucketView>,
    ros: Seq<RouteOpts>,
    ro: RouteOpts,
)
    requires
        remove_records(hv, tv, ros) is Some,
    ensures
        remove_records(hv, tv, ros.push(ro)) == ({
            let p = remove_records(hv, tv, ros)->Some_0;
            remove_record(p.0, p.1, ro)
        }),
    decreases ros.len(),
{
    let ps = ros.push(ro);
    if ros.len() == 0 {
        assert(ps[0] == ro);
        assert(ps.skip(1) =~= Seq::<RouteOpts>::empty());
        assert(remove_records(hv, tv, ros) == Some((hv, tv)));
        match remove_record(hv, tv, ro) {
            Some(q) => {
                assert(remove_records(hv, tv, ps) == remove_records(q.0, q.1, ps.skip(1)));
                assert(remove_records(q.0, q.1, ps.skip(1)) == Some(q));
            },
            None => {
                assert(remove_records(hv, tv, ps) is None);
            },
        }
    } else {
        assert(ps[0] == ros[0]);
        assert(ps.skip(1) =~= ros.skip(1).push(ro));
        assert(remove_record(hv, tv, ros[0]) is Some);
        let p = remove_record(hv, tv, ros[0])->Some_0;
        assert(remove_records(hv, tv, ps) == remove_records(p.0, p.1, ps.skip(1)));
        assert(remove_records(hv, tv, ros) == remove_records(p.0, p.1, ros.skip(1)));
        lemma_remove_records_push(p.0, p.1, ros.skip(1), ro);
    }
}

/// Whether some record of a candidate list carries `id`.
pub open spec fn bucket_has_id(rs: Seq<RouteOpts>, id: Seq<char>) -> bool {
    exists|i: int| 0 <= i < rs.len() && (#[trigger] rs[i]).id@ == id
}

/// The index holds no record with `id` under `key`: either no entry, or an
/// entry none of whose records carries the id.
pub open spec fn missing_under(bv: Seq<BucketView>, key: Seq<char>, id: Seq<char>) -> bool {
    !has_bucket(bv, key) || !bucket_has_id(bucket_routes_of(bv, key), id)
}

/// A record's removal actually hits something: the indices hold a record
/// with its id under its key.
pub open spec fn hit_record(hv: Seq<BucketView>, tv: Seq<BucketView>, ro: RouteOpts) -> bool {
    !missing_under(
        if ro.path_op == PathOp::Equal {
            hv
        } else {
            tv
        },
        ro.path@,
        ro.id@,
    )
}

/// Every removal of the run hits a record, each at its intermediate state.
pub open spec fn removes_hit(
    hv: Seq<BucketView>,
    tv: Seq<BucketView>,
    ros: Seq<RouteOpts>,
) -> bool
    decreases ros.len(),
{
    if ros.len() == 0 {
        true
    } else {
        hit_record(hv, tv, ros[0]) && (match remove_record(hv, tv, ros[0]) {
            Some(p) => removes_hit(p.0, p.1, ros.skip(1)),
            None => false,
        })
    }
}

pub proof fn lemma_removes_hit_push(
    hv: Seq<BucketView>,
    tv: Seq<BucketView>,
    ros: Seq<RouteOpts>,
    ro: RouteOpts,
)
    requires
        removes_hit(hv, tv, ros),
        remove_records(hv, tv, ros) is Some,
        hit_record(
            remove_records(hv, tv, ros)->Some_0.0,
            remove_records(hv, tv, ros)->Some_0.1,
            ro,
        ),
        remove_record(
            remove_records(hv, tv, ros)->Some_0.0,
            remove_records(hv, tv, ros)->Some_0.1,
            ro,
        ) is Some,
    ensures
        removes_hit(hv, tv, ros.push(ro)),
    decreases ros.len(),
{
    let ps = ros.push(ro);
    if ros.len() == 0 {
        assert(ps[0] == ro);
        assert(ps.skip(1) =~= Seq::<RouteOpts>::empty());
        assert(remove_records(hv, tv, ros) == Some((hv, tv)));
        assert(hit_record(hv, tv, ro));
        assert(remove_record(hv, tv, ro) is Some);
        let q = remove_record(hv, tv, ro)->Some_0;
        assert(removes_hit(q.0, q.1, ps.skip(1)));
        assert(removes_hit(hv, tv, ps));
    } else {
        assert(ps[0] == ros[0]);
        assert(ps.skip(1) =~= ros.skip(1).push(ro));
        assert(remove_record(hv, tv, ros[0]) is Some);
        let p = remove_record(hv, tv, ros[0])->Some_0;
        assert(remove_records(hv, tv, ros) == remove_records(p.0, p.1, ros.skip(1)));
        assert(removes_hit(p.0, p.1, ros.skip(1)));
        lemma_removes_hit_push(p.0, p.1, ros.skip(1), ro);
        assert(removes_hit(p.0, p.1, ps.skip(1)));
        assert(removes_hit(hv, tv, ps));
    }
}

/// The first `n` records a descriptor gives rise to, one per declared path.
pub open spec fn records_for(route: RadixNode, ros: Seq<RouteOpts>, n: int) -> bool {
    &&& ros.len() == n
    &&& 0 <= n <= route.paths@.len()
    &&& forall|i: int|
        0 <= i < n ==> record_rel(route, route.paths@[i]@, #[trigger] ros[i]) && record_wf(ros[i])
}

/// A declared path the pattern compiler rejects.
pub open spec fn path_malformed(p: Seq<char>) -> bool {
    crate::pattern::path_has_param(p) && !frags_wf(compile_frags(p))
}

/// A successful registration: one record per declared path, folded into
/// the indices in order.
pub open spec fn add_ok(
    h0: Seq<BucketView>,
    t0: Seq<BucketView>,
    route: RadixNode,
    h1: Seq<BucketView>,
    t1: Seq<BucketView>,
) -> bool {
    exists|ros: Seq<RouteOpts>|
        #![auto]
        records_for(route, ros, route.paths@.len() as int) && insert_records(h0, t0, ros) == (
        h1,
        t1,
        )
}

/// A run of successful registrations, first descriptor first.
pub open spec fn adds_ok(
    h0: Seq<BucketView>,
    t0: Seq<BucketView>,
    rs: Seq<RadixNode>,
    h1: Seq<BucketView>,
    t1: Seq<BucketView>,
) -> bool
    decreases rs.len(),
{
    if rs.len() == 0 {
        h0 == h1 && t0 == t1
    } else {
        exists|hm: Seq<BucketView>, tm: Seq<BucketView>|
            #![auto]
            add_ok(h0, t0, rs[0], hm, tm) && adds_ok(hm, tm, rs.skip(1), h1, t1)
    }
}

pub proof fn lemma_adds_ok_push(
    h0: Seq<BucketView>,
    t0: Seq<BucketView>,
    rs: Seq<RadixNode>,
    route: RadixNode,
    hm: Seq<BucketView>,
    tm: Seq<BucketView>,
    h2: Seq<BucketView>,
    t2: Seq<BucketView>,
)
    requires
        adds_ok(h0, t0, rs, hm, tm),
        add_ok(hm, tm, route, h2, t2),
    ensures
        adds_ok(h0, t0, rs.push(route), h2, t2),
    decreases rs.len(),
{
    let ps = rs.push(route);
    if rs.len() == 0 {
        assert(ps[0] == route);
        assert(ps.skip(1) =~= Seq::<RadixNode>::empty());
        assert(add_ok(h0, t0, route, h2, t2));
        assert(adds_ok(h2, t2, ps.skip(1), h2, t2));
    } else {
        assert(ps[0] == rs[0]);
        assert(ps.skip(1) =~= rs.skip(1).push(route));
        let (hm1, tm1) = choose|hm1: Seq<BucketView>, tm1: Seq<BucketView>|
            #![auto]
            add_ok(h0, t0, rs[0], hm1, tm1) && adds_ok(hm1, tm1, rs.skip(1), hm, tm);
        lemma_adds_ok_push(hm1, tm1, rs.skip(1), route, hm, tm, h2, t2);
        assert(add_ok(h0, t0, ps[0], hm1, tm1) && adds_ok(hm1, tm1, ps.skip(1), h2, t2));
    }
}

/// What `add_route` did: on success, one record per declared path folded
/// into the indices; on failure, the records of the paths before the
/// offending one are in, and the error names that path.
pub open spec fn add_post(
    h0: Seq<BucketView>,
    t0: Seq<BucketView>,
    route: RadixNode,
    r: Result<(), RouterError>,
    h1: Seq<BucketView>,
    t1: Seq<BucketView>,
) -> bool {
    match r {
        Ok(_) => add_ok(h0, t0, route, h1, t1),
        Err(e) => exists|ros: Seq<RouteOpts>, k: int|
            #![auto]
            {
                &&& 0 <= k < route.paths@.len()
                &&& records_for(route, ros, k)
                &&& insert_records(h0, t0, ros) == (h1, t1)
                &&& path_malformed(route.paths@[k]@)
                &&& e matches RouterError::MalformedPath(p) && p@ == route.paths@[k]@
            },
    }
}

/// What `delete_route` did: on success, the records rebuilt from the
/// declared paths removed in order, each removal hitting a record with the
/// route's id; on failure, either a path the compiler rejects, or a
/// rebuilt key under which no record carries the id — deleting a route
/// that was not registered is an error, also when the key itself is still
/// held for other routes.
pub open spec fn delete_post(
    h0: Seq<BucketView>,
    t0: Seq<BucketView>,
    route: RadixNode,
    r: Result<(), RouterError>,
    h1: Seq<BucketView>,
    t1: Seq<BucketView>,
) -> bool {
    match r {
        Ok(_) => exists|ros: Seq<RouteOpts>|
            #![auto]
            records_for(route, ros, route.paths@.len() as int) && remove_records(h0, t0, ros)
                == Some((h1, t1)) && removes_hit(h0, t0, ros),
        Err(e) => exists|ros: Seq<RouteOpts>, k: int|
            #![auto]
            {
                &&& 0 <= k < route.paths@.len()
                &&& records_for(route, ros, k)
                &&& remove_records(h0, t0, ros) == Some((h1, t1))
                &&& removes_hit(h0, t0, ros)
                &&& {
                    ||| (path_malformed(route.paths@[k]@) && (e
                        matches RouterError::MalformedPath(p) && p@ == route.paths@[k]@))
                    ||| (!path_malformed(route.paths@[k]@) && missing_under(
                        if path_is_exact(route.paths@[k]@) {
                            h1
                        } else {
                            t1
                        },
                        path_key_of(route.paths@[k]@),
                        route.id@,
                    ) && (e matches RouterError::RouteNotFound(id) && id@ == route.id@))
                }
            },
    }
}

impl RadixRouter {
    /// Select the route for a request.  The host comparison is
    /// case-insensitive; the request is not mutated.  `Ok(None)` means no
    /// route matched; no system failure can arise in this design, so the
    /// result is always `Ok`.
    pub fn match_route(&self, path: &str, opts: &RadixMatchOpts) -> (r: Result<
        Option<MatchResult>,
        RouterError,
    >)
        requires
            self.wf(),
        ensures
            r matches Ok(res) && match_post(self.all_cands(path@), path@, opts@, res),
    {
        // work on a copy of the request with the host folded to lower case
        let fopts = RadixMatchOpts {
            method: match &opts.method {
                Some(m) => Some(m.clone()),
                None => None,
            },
            host: match &opts.host {
                Some(h) => Some(to_lower(h.as_str())),
                None => None,
            },
            remote_addr: match &opts.remote_addr {
                Some(a) => Some(a.clone()),
                None => None,
            },
            vars: match &opts.vars {
                Some(v) => Some(v.duplicate()),
                None => None,
            },
        };
        proof {
            assert(with_raw_host(fopts@, opts.host) == opts@);
        }
        let ghost o = opts@;
        let ghost cs = self.all_cands(path@);
        let ghost hv = self.hash_view();
        let ghost tv = self.tree_view();
        let ghost hashseq: Seq<RouteOpts> = if has_bucket(hv, path@) {
            bucket_routes_of(hv, path@)
        } else {
            Seq::empty()
        };
        let plen = path.unicode_len();
        proof {
            assert(cs == hashseq + tree_cands(tv, path@, plen as int));
        }
        // phase 1: the exact index
        match find_bucket(&self.hash_path, path) {
            Some(bi) => {
                proof {
                    lemma_bucket_routes_at(hv, path@, bi as int);
                    assert(hv[bi as int].routes == self.hash_path@[bi as int].routes@);
                }
                match scan_bucket(&self.hash_path[bi].routes, path, &fopts, &opts.host) {
                    Some((k, m)) => {
                        let mut m = m;
                        let route = &self.hash_path[bi].routes[k];
                        m.insert(String::from_str("_path"), route.path_org.clone());
                        let res = MatchResult {
                            id: route.id.clone(),
                            metadata: route.metadata.clone(),
                            matched: m,
                        };
                        proof {
                            assert(cs[k as int] == hashseq[k as int]);
                            assert forall|j: int| 0 <= j < k implies rejectable(
                                #[trigger] cs[j],
                                path@,
                                o,
                            ) by {
                                assert(cs[j] == hashseq[j]);
                            }
                            assert(static_pass(cs[k as int], path@, o));
                            assert(result_matches(cs[k as int], path@, o, res));
                        }
                        return Ok(Some(res));
                    },
                    None => {},
                }
            },
            None => {
                proof {
                    assert(hashseq =~= Seq::<RouteOpts>::empty());
                }
            },
        }
        proof {
            assert(all_rejectable(hashseq, path@, o));
            assert(tree_cands_range(tv, path@, plen as int, plen as int) =~= Seq::<
                RouteOpts,
            >::empty());
            assert(all_rejectable(
                hashseq + tree_cands_range(tv, path@, plen as int, plen as int),
                path@,
                o,
            ));
        }
        // phase 2: the prefix index, longest prefix first
        let mut l: usize = plen;
        loop
            invariant
                self.wf(),
                o == opts@,
                o == with_raw_host(fopts@, opts.host),
                fopts.host matches Some(f) ==> (opts.host matches Some(rh) && f@ == lower_of(
                    rh@,
                )),
                opts.host matches Some(rh2) ==> fopts.host is Some,
                cs == self.all_cands(path@),
                hv == self.hash_view(),
                tv == self.tree_view(),
                hashseq == (if has_bucket(hv, path@) {
                    bucket_routes_of(hv, path@)
                } else {
                    Seq::<RouteOpts>::empty()
                }),
                plen == path@.len(),
                0 <= l <= plen,
                cs == hashseq + tree_cands(tv, path@, plen as int),
                all_rejectable(
                    hashseq + tree_cands_range(tv, path@, plen as int, l as int),
                    path@,
                    o,
                ),
            decreases l,
        {
            let ghost pre = hashseq + tree_cands_range(tv, path@, plen as int, l as int);
            let ghost key = path@.take(l as int);
            let pref = path.substring_char(0, l);
            proof {
                assert(pref@ =~= key);
            }
            match find_bucket(&self.tree_path, pref) {
                Some(bi) => {
                    proof {
                        lemma_bucket_routes_at(tv, key, bi as int);
                        assert(tv[bi as int].routes == self.tree_path@[bi as int].routes@);
                    }
                    let ghost bsr = self.tree_path@[bi as int].routes@;
                    proof {
                        lemma_tree_cands_split(tv, path@, plen as int, l as int);
                        assert(tree_cands(tv, path@, l as int) == bsr + tree_cands(
                            tv,
                            path@,
                            l as int - 1,
                        ));
                        assert(cs =~= (pre + bsr) + tree_cands(tv, path@, l as int - 1));
                    }
                    match scan_bucket(&self.tree_path[bi].routes, path, &fopts, &opts.host) {
                        Some((k, m)) => {
                            let mut m = m;
                            let route = &self.tree_path[bi].routes[k];
                            m.insert(String::from_str("_path"), route.path_org.clone());
                            let res = MatchResult {
                                id: route.id.clone(),
                                metadata: route.metadata.clone(),
                                matched: m,
                            };
                            proof {
                                let i0 = pre.len() + k;
                                assert(cs[i0 as int] == (pre + bsr)[i0 as int]);
                                assert((pre + bsr)[i0 as int] == bsr[k as int]);
                                assert(static_pass(cs[i0 as int], path@, o));
                                assert(result_matches(cs[i0 as int], path@, o, res));
                                assert forall|j: int| 0 <= j < i0 implies rejectable(
                                    #[trigger] cs[j],
                                    path@,
                                    o,
                                ) by {
                                    if j < pre.len() {
                                        assert(cs[j] == pre[j]);
                                        assert(rejectable(pre[j], path@, o));
                                    } else {
                                        assert(cs[j] == (pre + bsr)[j]);
                                        assert((pre + bsr)[j] == bsr[j - pre.len()]);
                                        assert(rejectable(bsr[j - pre.len()], path@, o));
                                    }
                                }
                            }
                            return Ok(Some(res));
                        },
                        None => {
                            proof {
                                lemma_tree_range_join(tv, path@, plen as int, l as int, l - 1);
                                assert(tree_cands_range(tv, path@, l as int - 1, l as int - 1)
                                    =~= Seq::<RouteOpts>::empty());
                                assert(has_bucket(tv, path@.take(l as int)));
                                assert(tree_cands_range(tv, path@, l as int, l as int - 1)
                                    == bucket_routes_of(tv, path@.take(l as int))
                                    + tree_cands_range(tv, path@, l as int - 1, l as int - 1));
                                assert(tree_cands_range(tv, path@, l as int, l - 1) =~= bsr);
                                assert(hashseq + tree_cands_range(tv, path@, plen as int, l - 1)
                                    =~= pre + bsr);
                                assert forall|j: int|
                                    0 <= j < (pre + bsr).len() implies rejectable(
                                    #[trigger] (pre + bsr)[j],
                                    path@,
                                    o,
                                ) by {
                                    if j < pre.len() {
                                        assert((pre + bsr)[j] == pre[j]);
                                    } else {
                                        assert((pre + bsr)[j] == bsr[j - pre.len()]);
                                    }
                                }
                            }
                        },
                    }
                },
                None => {
                    proof {
                        lemma_tree_range_join(tv, path@, plen as int, l as int, l - 1);
                        assert(tree_cands_range(tv, path@, l as int - 1, l as int - 1)
                            =~= Seq::<RouteOpts>::empty());
                        assert(!has_bucket(tv, path@.take(l as int)));
                        assert(tree_cands_range(tv, path@, l as int, l - 1) =~= Seq::<
                            RouteOpts,
                        >::empty());
                        assert(hashseq + tree_cands_range(tv, path@, plen as int, l - 1)
                            =~= pre);
                    }
                },
            }
            if l == 0 {
                proof {
                    lemma_tree_cands_split(tv, path@, plen as int, -1);
                    assert(tree_cands(tv, path@, -1) =~= Seq::<RouteOpts>::empty());
                    assert(tree_cands(tv, path@, plen as int) =~= tree_cands_range(
                        tv,
                        path@,
                        plen as int,
                        -1,
                    ));
                    assert(cs =~= hashseq + tree_cands_range(tv, path@, plen as int, -1));
                    assert(all_rejectable(cs, path@, o));
                }
                return Ok(None);
            }
            l -= 1;
        }
    }
}

/// Placing a well-formed record of an index's kind keeps the index well
/// formed; every key of the result is the record's key or an old key.
pub proof fn lemma_insert_into_wf(bv: Seq<BucketView>, ro: RouteOpts, op: PathOp)
    requires
        index_wf(bv, op),
        record_wf(ro),
        ro.path_op == op,
    ensures
        index_wf(insert_into(bv, ro.path@, ro), op),
        forall|j: int|
            0 <= j < insert_into(bv, ro.path@, ro).len() ==> (#[trigger] insert_into(
                bv,
                ro.path@,
                ro,
            )[j]).key == ro.path@ || (exists|i: int|
                0 <= i < bv.len() && (#[trigger] bv[i]).key == insert_into(bv, ro.path@, ro)[j].key),
    decreases bv.len(),
{
    let key = ro.path@;
    let res = insert_into(bv, key, ro);
    if bv.len() == 0 {
        assert(res =~= seq![BucketView { key, routes: seq![ro] }]);
        assert(res[0].routes[0] == ro);
        assert(bucket_wf(res[0], op));
    } else if bv[0].key == key {
        let b2 = BucketView { key, routes: insert_sorted(bv[0].routes, ro) };
        assert(res =~= seq![b2] + bv.skip(1));
        assert(bucket_wf(bv[0], op));
        lemma_insert_sorted_sorted(bv[0].routes, ro);
        lemma_insert_pos_props(bv[0].routes, ro);
        let p = insert_pos(bv[0].routes, ro);
        assert forall|i: int| 0 <= i < b2.routes.len() implies record_wf(#[trigger] b2.routes[i])
            && b2.routes[i].path_op == op && b2.routes[i].path@ == b2.key by {
            if i < p {
                assert(b2.routes[i] == bv[0].routes[i]);
            } else if i == p {
                assert(b2.routes[i] == ro);
            } else {
                assert(b2.routes[i] == bv[0].routes[i - 1]);
            }
        }
        assert(bucket_wf(b2, op));
        assert forall|i: int, j: int| 0 <= i < j < res.len() implies (#[trigger] res[i]).key != (
        #[trigger] res[j]).key by {
            assert(res[j] == bv[j]);
            if i > 0 {
                assert(res[i] == bv[i]);
            } else {
                assert(res[0].key == bv[0].key);
            }
        }
        assert forall|j: int| 0 <= j < res.len() implies bucket_wf(#[trigger] res[j], op) by {
            if j > 0 {
                assert(res[j] == bv[j]);
            }
        }
    } else {
        let rec = insert_into(bv.skip(1), key, ro);
        assert(res =~= seq![bv[0]] + rec);
        assert forall|i: int, j: int| 0 <= i < j < bv.skip(1).len() implies (#[trigger] bv.skip(1)[i]).key
            != (#[trigger] bv.skip(1)[j]).key by {
            assert(bv.skip(1)[i] == bv[i + 1] && bv.skip(1)[j] == bv[j + 1]);
        }
        assert forall|i: int| 0 <= i < bv.skip(1).len() implies bucket_wf(
            #[trigger] bv.skip(1)[i],
            op,
        ) by {
            assert(bv.skip(1)[i] == bv[i + 1]);
        }
        lemma_insert_into_wf(bv.skip(1), ro, op);
        assert forall|j: int| 0 <= j < res.len() implies bucket_wf(#[trigger] res[j], op) by {
            if j > 0 {
                assert(res[j] == rec[j - 1]);
            }
        }
        assert forall|i: int, j: int| 0 <= i < j < res.len() implies (#[trigger] res[i]).key != (
        #[trigger] res[j]).key by {
            if i == 0 {
                assert(res[j] == rec[j - 1]);
                if rec[j - 1].key == key {
                } else {
                    let i2 = choose|i2: int|
                        0 <= i2 < bv.skip(1).len() && (#[trigger] bv.skip(1)[i2]).key == rec[j
                            - 1].key;
                    assert(bv.skip(1)[i2] == bv[i2 + 1]);
                }
            } else {
                assert(res[i] == rec[i - 1] && res[j] == rec[j - 1]);
                assert(keys_unique(rec));
            }
        }
        assert forall|j: int| #![trigger res[j]] 0 <= j < res.len() implies res[j].key == key || (
        exists|i: int| 0 <= i < bv.len() && (#[trigger] bv[i]).key == res[j].key) by {
            if j == 0 {
                assert(bv[0].key == res[0].key);
            } else {
                assert(res[j] == rec[j - 1]);
                if rec[j - 1].key != key {
                    let i2 = choose|i2: int|
                        0 <= i2 < bv.skip(1).len() && (#[trigger] bv.skip(1)[i2]).key == rec[j
                            - 1].key;
                    assert(bv[i2 + 1].key == res[j].key);
                }
            }
        }
    }
}

/// Removal keeps an index well formed; every surviving key is an old key.
pub proof fn lemma_remove_from_wf(bv: Seq<BucketView>, key: Seq<char>, id: Seq<char>, op: PathOp)
    requires
        index_wf(bv, op),
        remove_from(bv, key, id) is Some,
    ensures
        index_wf(remove_from(bv, key, id)->Some_0, op),
        forall|j: int|
            0 <= j < remove_from(bv, key, id)->Some_0.len() ==> exists|i: int|
                0 <= i < bv.len() && (#[trigger] bv[i]).key == (#[trigger] remove_from(
                    bv,
                    key,
                    id,
                )->Some_0[j]).key,
    decreases bv.len(),
{
    let res = remove_from(bv, key, id)->Some_0;
    if bv.len() == 0 {
    } else if bv[0].key == key {
        let rs = retained(bv[0].routes, id);
        assert(bucket_wf(bv[0], op));
        lemma_retained_sorted(bv[0].routes, id);
        lemma_retained_sub(bv[0].routes, id);
        assert forall|i: int, j: int| 0 <= i < j < bv.skip(1).len() implies (#[trigger] bv.skip(
            1,
        )[i]).key != (#[trigger] bv.skip(1)[j]).key by {
            assert(bv.skip(1)[i] == bv[i + 1] && bv.skip(1)[j] == bv[j + 1]);
        }
        if rs.len() == 0 {
            assert(res =~= bv.skip(1));
            assert forall|j: int| 0 <= j < res.len() implies bucket_wf(#[trigger] res[j], op) by {
                assert(res[j] == bv[j + 1]);
            }
            assert forall|j: int| #![trigger res[j]] 0 <= j < res.len() implies exists|i: int|
                0 <= i < bv.len() && (#[trigger] bv[i]).key == res[j].key by {
                assert(bv[j + 1].key == res[j].key);
            }
        } else {
            let b2 = BucketView { key, routes: rs };
            assert(res =~= seq![b2] + bv.skip(1));
            assert forall|i: int| 0 <= i < rs.len() implies record_wf(#[trigger] rs[i])
                && rs[i].path_op == op && rs[i].path@ == b2.key by {
                let j = choose|j: int| 0 <= j < bv[0].routes.len() && rs[i] == bv[0].routes[j];
            }
            assert(bucket_wf(b2, op));
            assert forall|j: int| 0 <= j < res.len() implies bucket_wf(#[trigger] res[j], op) by {
                if j > 0 {
                    assert(res[j] == bv[j]);
                }
            }
            assert forall|i: int, j: int| 0 <= i < j < res.len() implies (#[trigger] res[i]).key
                != (#[trigger] res[j]).key by {
                assert(res[j] == bv[j]);
                if i > 0 {
                    assert(res[i] == bv[i]);
                } else {
                    assert(res[0].key == bv[0].key);
                }
            }
            assert forall|j: int| #![trigger res[j]] 0 <= j < res.len() implies exists|i: int|
                0 <= i < bv.len() && (#[trigger] bv[i]).key == res[j].key by {
                if j == 0 {
                    assert(bv[0].key == res[0].key);
                } else {
                    assert(bv[j].key == res[j].key);
                }
            }
        }
    } else {
        assert forall|i: int, j: int| 0 <= i < j < bv.skip(1).len() implies (#[trigger] bv.skip(
            1,
        )[i]).key != (#[trigger] bv.skip(1)[j]).key by {
            assert(bv.skip(1)[i] == bv[i + 1] && bv.skip(1)[j] == bv[j + 1]);
        }
        assert forall|i: int| 0 <= i < bv.skip(1).len() implies bucket_wf(
            #[trigger] bv.skip(1)[i],
            op,
        ) by {
            assert(bv.skip(1)[i] == bv[i + 1]);
        }
        let rec = remove_from(bv.skip(1), key, id)->Some_0;
        lemma_remove_from_wf(bv.skip(1), key, id, op);
        assert(res =~= seq![bv[0]] + rec);
        assert forall|j: int| 0 <= j < res.len() implies bucket_wf(#[trigger] res[j], op) by {
            if j > 0 {
                assert(res[j] == rec[j - 1]);
            }
        }
        assert forall|j: int| #![trigger res[j]] 0 <= j < res.len() implies exists|i: int|
            0 <= i < bv.len() && (#[trigger] bv[i]).key == res[j].key by {
            if j == 0 {
                assert(bv[0].key == res[0].key);
            } else {
                assert(res[j] == rec[j - 1]);
                let i2 = choose|i2: int|
                    0 <= i2 < bv.skip(1).len() && (#[trigger] bv.skip(1)[i2]).key == rec[j - 1].key;
                assert(bv[i2 + 1].key == res[j].key);
            }
        }
        assert forall|i: int, j: int| 0 <= i < j < res.len() implies (#[trigger] res[i]).key != (
        #[trigger] res[j]).key by {
            if i == 0 {
                assert(res[j] == rec[j - 1]);
                let i2 = choose|i2: int|
                    0 <= i2 < bv.skip(1).len() && (#[trigger] bv.skip(1)[i2]).key == rec[j - 1].key;
                assert(bv.skip(1)[i2] == bv[i2 + 1]);
            } else {
                assert(res[i] == rec[i - 1] && res[j] == rec[j - 1]);
                assert(keys_unique(rec));
            }
        }
    }
}

/// Whether `a` outranks `b`.
fn rank_gt_exec(a: &RouteOpts, b: &RouteOpts) -> (r: bool)
    ensures
        r == rank_gt(*a, *b),
{
    if a.priority > b.priority {
        true
    } else if a.priority == b.priority {
        a.path_org.as_str().unicode_len() > b.path_org.as_str().unicode_len()
    } else {
        false
    }
}

/// Place a record into a candidate list at its rank.
fn insert_sorted_vec(rs: &mut Vec<RouteOpts>, ro: RouteOpts)
    ensures
        final(rs)@ == insert_sorted(old(rs)@, ro),
{
    let ghost orig = old(rs)@;
    let n = rs.len();
    let mut i: usize = 0;
    while i < n
        invariant
            n == orig.len(),
            old(rs)@ == orig,
            rs@ == orig,
            0 <= i <= n,
            forall|j: int| 0 <= j < i ==> !rank_gt(ro, #[trigger] orig[j]),
        decreases n - i,
    {
        if rank_gt_exec(&ro, &rs[i]) {
            proof {
                assert(rank_gt(ro, orig[i as int]));
                lemma_insert_pos_is(orig, ro, i as int);
            }
            rs.insert(i, ro);
            return ;
        }
        i += 1;
    }
    proof {
        lemma_insert_pos_is(orig, ro, n as int);
        assert(orig.insert(n as int, ro) =~= orig.push(ro));
    }
    rs.push(ro);
}

/// Place a record into an index, creating its entry if absent.
fn index_insert(bs: &mut Vec<PathBucket>, ro: RouteOpts)
    ensures
        buckets_view(final(bs)@) == insert_into(buckets_view(old(bs)@), ro.path@, ro),
{
    let ghost bv = buckets_view(bs@);
    let ghost key = ro.path@;
    match find_bucket(bs, ro.path.as_str()) {
        Some(i) => {
            proof {
                lemma_insert_into_at(bv, key, ro, i as int);
            }
            let mut b = bs.remove(i);
            insert_sorted_vec(&mut b.routes, ro);
            bs.insert(i, b);
            proof {
                assert(buckets_view(bs@) =~= bv.update(
                    i as int,
                    BucketView { key, routes: insert_sorted(bv[i as int].routes, ro) },
                ));
            }
        },
        None => {
            proof {
                lemma_insert_into_absent(bv, key, ro);
            }
            let keystr = ro.path.clone();
            let mut routes: Vec<RouteOpts> = Vec::new();
            routes.push(ro);
            bs.push(PathBucket { key: keystr, routes });
            proof {
                assert(buckets_view(bs@) =~= bv.push(BucketView { key, routes: seq![ro] }));
            }
        },
    }
}

/// The records of `routes` whose id is not `id`, in order.
fn retain_other_ids(routes: Vec<RouteOpts>, id: &str) -> (kept: Vec<RouteOpts>)
    ensures
        kept@ == retained(routes@, id@),
{
    let ghost orig = routes@;
    let mut routes = routes;
    let mut kept: Vec<RouteOpts> = Vec::new();
    proof {
        assert(kept@ + retained(routes@, id@) =~= retained(orig, id@));
    }
    while routes.len() > 0
        invariant
            kept@ + retained(routes@, id@) == retained(orig, id@),
        decreases routes@.len(),
    {
        let ghost before = routes@;
        let r0 = routes.remove(0);
        proof {
            assert(before.skip(1) =~= routes@);
        }
        if !crate::text::str_eq(r0.id.as_str(), id) {
            proof {
                assert((kept@ + seq![r0]) + retained(routes@, id@) =~= kept@ + (seq![r0]
                    + retained(routes@, id@)));
                assert(seq![r0] + retained(routes@, id@) =~= retained(before, id@));
            }
            kept.push(r0);
        } else {
            proof {
                assert(retained(before, id@) =~= Seq::<RouteOpts>::empty() + retained(
                    routes@,
                    id@,
                ));
                assert(Seq::<RouteOpts>::empty() + retained(routes@, id@) =~= retained(
                    routes@,
                    id@,
                ));
            }
        }
    }
    proof {
        assert(retained(routes@, id@) =~= Seq::<RouteOpts>::empty());
        assert(kept@ + Seq::<RouteOpts>::empty() =~= kept@);
    }
    kept
}

/// Remove the records stored under `id` from the entry holding `key`; the
/// entry leaves with its last record.  `false` when there is no such entry.
/// Whether some record of a candidate list carries `id`.
fn bucket_contains_id(rs: &Vec<RouteOpts>, id: &str) -> (r: bool)
    ensures
        r == bucket_has_id(rs@, id@),
{
    let n = rs.len();
    let mut i: usize = 0;
    while i < n
        invariant
            n == rs@.len(),
            0 <= i <= n,
            forall|j: int| 0 <= j < i ==> (#[trigger] rs@[j]).id@ != id@,
        decreases n - i,
    {
        if crate::text::str_eq(rs[i].id.as_str(), id) {
            return true;
        }
        i += 1;
    }
    false
}

/// Remove the records stored under `id` from the entry holding `key`; the
/// entry leaves with its last record.  `false` — with nothing changed —
/// when no record with that id is stored under `key`, whether or not the
/// key itself is held for other records.
fn index_remove(bs: &mut Vec<PathBucket>, key: &str, id: &str) -> (found: bool)
    ensures
        found == (has_bucket(buckets_view(old(bs)@), key@) && bucket_has_id(
            bucket_routes_of(buckets_view(old(bs)@), key@),
            id@,
        )),
        found ==> remove_from(buckets_view(old(bs)@), key@, id@) == Some(
            buckets_view(final(bs)@),
        ),
        !found ==> final(bs)@ == old(bs)@,
{
    let ghost bv = buckets_view(bs@);
    match find_bucket(bs, key) {
        Some(i) => {
            proof {
                lemma_bucket_routes_at(bv, key@, i as int);
            }
            if !bucket_contains_id(&bs[i].routes, id) {
                return false;
            }
            proof {
                lemma_remove_from_at(bv, key@, id@, i as int);
            }
            let b = bs.remove(i);
            let keystr = b.key;
            let kept = retain_other_ids(b.routes, id);
            if kept.len() > 0 {
                bs.insert(i, PathBucket { key: keystr, routes: kept });
                proof {
                    assert(buckets_view(bs@) =~= bv.update(
                        i as int,
                        BucketView { key: key@, routes: retained(bv[i as int].routes, id@) },
                    ));
                }
            } else {
                proof {
                    assert(buckets_view(bs@) =~= bv.remove(i as int));
                }
            }
            true
        },
        None => false,
    }
}

/// Build the processed record for one declared path of a descriptor.
fn process_route(path: &str, route: &RadixNode) -> (r: Result<RouteOpts, RouterError>)
    ensures
        match r {
            Ok(ro) => record_rel(*route, path@, ro) && record_wf(ro),
            Err(e) => path_malformed(path@) && (e matches RouterError::MalformedPath(p) && p@
                == path@),
        },
{
    let (key, op, has_param) = parse_path(path);
    let compiled = if has_param {
        match crate::pattern::compile_pattern(path) {
            Ok(fs) => Some(fs),
            Err(e) => {
                return Err(e);
            },
        }
    } else {
        None
    };
    let methods = match &route.methods {
        Some(m) => *m,
        None => RadixHttpMethod::empty(),
    };
    let hosts = match &route.hosts {
        Some(hs) => {
            let n = hs.len();
            let mut ps: Vec<HostPattern> = Vec::new();
            let mut i: usize = 0;
            while i < n
                invariant
                    n == hs@.len(),
                    0 <= i <= n,
                    ps@.len() == i,
                    forall|j: int|
                        0 <= j < i ==> (#[trigger] ps@[j]).is_wildcard
                            == crate::host::host_is_wildcard(hs@[j]@) && ps@[j].pattern@
                            == crate::host::host_pattern_body(hs@[j]@),
                decreases n - i,
            {
                ps.push(HostPattern::new(hs[i].as_str()));
                i += 1;
            }
            Some(ps)
        },
        None => None,
    };
    let vars = match &route.vars {
        Some(es) => {
            let n = es.len();
            let mut ds: Vec<Expr> = Vec::new();
            let mut i: usize = 0;
            while i < n
                invariant
                    n == es@.len(),
                    0 <= i <= n,
                    ds@.len() == i,
                    forall|j: int|
                        0 <= j < i ==> crate::expr::expr_similar(es@[j], #[trigger] ds@[j]),
                decreases n - i,
            {
                ds.push(es[i].duplicate());
                i += 1;
            }
            Some(ds)
        },
        None => None,
    };
    let filter_fn = match &route.filter_fn {
        Some(f) => Some(crate::foreign::arc_clone(f)),
        None => None,
    };
    Ok(
        RouteOpts {
            id: route.id.clone(),
            path: key,
            path_org: String::from_str(path),
            path_op: op,
            has_param,
            methods,
            hosts,
            vars,
            filter_fn,
            priority: route.priority,
            metadata: route.metadata.clone(),
            compiled,
        },
    )
}

impl RadixRouter {
    /// Build a router from an initial batch of routes.  Fails when any
    /// declared path holds a wildcard segment anywhere but at the end.
    pub fn new(routes: Vec<RadixNode>) -> (r: Result<RadixRouter, RouterError>)
        ensures
            match r {
                Ok(router) => router.wf() && adds_ok(
                    Seq::empty(),
                    Seq::empty(),
                    routes@,
                    router.hash_view(),
                    router.tree_view(),
                ),
                Err(e) => exists|k: int, i: int|
                    #![auto]
                    {
                        &&& 0 <= k < routes@.len()
                        &&& 0 <= i < routes@[k].paths@.len()
                        &&& path_malformed(routes@[k].paths@[i]@)
                        &&& e matches RouterError::MalformedPath(p) && p@ == routes@[k].paths@[i]@
                    },
            },
    {
        let ghost orig = routes@;
        let mut rest = routes;
        let mut router = RadixRouter { hash_path: Vec::new(), tree_path: Vec::new() };
        let ghost mut processed: int = 0;
        proof {
            assert(router.hash_view() =~= Seq::<BucketView>::empty());
            assert(router.tree_view() =~= Seq::<BucketView>::empty());
            assert(orig.take(0) =~= Seq::<RadixNode>::empty());
            assert(orig.skip(0) =~= orig);
        }
        while rest.len() > 0
            invariant
                orig == routes@,
                router.wf(),
                0 <= processed <= orig.len(),
                processed + rest@.len() == orig.len(),
                rest@ == orig.skip(processed),
                adds_ok(
                    Seq::empty(),
                    Seq::empty(),
                    orig.take(processed),
                    router.hash_view(),
                    router.tree_view(),
                ),
            decreases rest@.len(),
        {
            let ghost before = rest@;
            let ghost hm = router.hash_view();
            let ghost tm = router.tree_view();
            let rt = rest.remove(0);
            let ghost g = rt;
            proof {
                assert(g == orig[processed]);
                assert(before.skip(1) =~= orig.skip(processed + 1));
            }
            match router.add_route(rt) {
                Ok(_) => {
                    proof {
                        lemma_adds_ok_push(
                            Seq::empty(),
                            Seq::empty(),
                            orig.take(processed),
                            g,
                            hm,
                            tm,
                            router.hash_view(),
                            router.tree_view(),
                        );
                        assert(orig.take(processed + 1) =~= orig.take(processed).push(
                            orig[processed],
                        ));
                        processed = processed + 1;
                    }
                },
                Err(e) => {
                    proof {
                        let (ros, ki) = choose|ros: Seq<RouteOpts>, ki: int|
                            #![auto]
                            {
                                &&& 0 <= ki < g.paths@.len()
                                &&& records_for(g, ros, ki)
                                &&& insert_records(hm, tm, ros) == (
                                router.hash_view(),
                                router.tree_view(),
                                )
                                &&& path_malformed(g.paths@[ki]@)
                                &&& e matches RouterError::MalformedPath(p) && p@ == g.paths@[ki]@
                            };
                        assert(0 <= processed < orig.len());
                        assert(orig[processed] == g);
                        assert(0 <= ki < orig[processed].paths@.len());
                        assert(path_malformed(orig[processed].paths@[ki]@));
                        assert(e matches RouterError::MalformedPath(p) && p@
                            == orig[processed].paths@[ki]@);
                    }
                    return Err(e);
                },
            }
        }
        proof {
            assert(orig.take(processed) =~= orig);
        }
        Ok(router)
    }

    /// Register a route under each of its declared paths.  On failure the
    /// paths before the offending one stay registered; callers should
    /// treat a partial failure as fatal.
    pub fn add_route(&mut self, route: RadixNode) -> (r: Result<(), RouterError>)
        requires
            old(self).wf(),
        ensures
            final(self).wf(),
            add_post(
                old(self).hash_view(),
                old(self).tree_view(),
                route,
                r,
                final(self).hash_view(),
                final(self).tree_view(),
            ),
    {
        let ghost h0 = old(self).hash_view();
        let ghost t0 = old(self).tree_view();
        let ghost mut ros: Seq<RouteOpts> = Seq::empty();
        let n = route.paths.len();
        let mut i: usize = 0;
        while i < n
            invariant
                h0 == old(self).hash_view(),
                t0 == old(self).tree_view(),
                index_wf(self.hash_view(), PathOp::Equal),
                index_wf(self.tree_view(), PathOp::PrefixMatch),
                0 <= i <= n,
                n == route.paths@.len(),
                records_for(route, ros, i as int),
                insert_records(h0, t0, ros) == (self.hash_view(), self.tree_view()),
            decreases n - i,
        {
            match process_route(route.paths[i].as_str(), &route) {
                Ok(ro) => {
                    let ghost g = ro;
                    proof {
                        lemma_insert_records_push(h0, t0, ros, g);
                    }
                    if ro.path_op == PathOp::Equal {
                        proof {
                            lemma_insert_into_wf(self.hash_view(), g, PathOp::Equal);
                        }
                        index_insert(&mut self.hash_path, ro);
                    } else {
                        proof {
                            assert(g.path_op == PathOp::PrefixMatch);
                            lemma_insert_into_wf(self.tree_view(), g, PathOp::PrefixMatch);
                        }
                        index_insert(&mut self.tree_path, ro);
                    }
                    proof {
                        ros = ros.push(g);
                        assert(ros[i as int] == g);
                        assert forall|j: int| 0 <= j < i + 1 implies record_rel(
                            route,
                            route.paths@[j]@,
                            #[trigger] ros[j],
                        ) && record_wf(ros[j]) by {
                            if j < i {
                                assert(ros[j] == ros.drop_last()[j]);
                            }
                        }
                    }
                },
                Err(e) => {
                    return Err(e);
                },
            }
            i += 1;
        }
        Ok(())
    }

    /// Remove a route under each of its declared paths.  Fails when a path
    /// is malformed or when a rebuilt index key is not registered; the
    /// removals before the failing path stay done.
    pub fn delete_route(&mut self, route: RadixNode) -> (r: Result<(), RouterError>)
        requires
            old(self).wf(),
        ensures
            final(self).wf(),
            delete_post(
                old(self).hash_view(),
                old(self).tree_view(),
                route,
                r,
                final(self).hash_view(),
                final(self).tree_view(),
            ),
    {
        let ghost h0 = old(self).hash_view();
        let ghost t0 = old(self).tree_view();
        let ghost mut ros: Seq<RouteOpts> = Seq::empty();
        let n = route.paths.len();
        let mut i: usize = 0;
        while i < n
            invariant
                h0 == old(self).hash_view(),
                t0 == old(self).tree_view(),
                index_wf(self.hash_view(), PathOp::Equal),
                index_wf(self.tree_view(), PathOp::PrefixMatch),
                0 <= i <= n,
                n == route.paths@.len(),
                records_for(route, ros, i as int),
                remove_records(h0, t0, ros) == Some((self.hash_view(), self.tree_view())),
                removes_hit(h0, t0, ros),
            decreases n - i,
        {
            match process_route(route.paths[i].as_str(), &route) {
                Ok(ro) => {
                    let ghost g = ro;
                    proof {
                        lemma_remove_records_push(h0, t0, ros, g);
                        assert(g.id@ == route.id@);
                    }
                    let ghost hcur = self.hash_view();
                    let ghost tcur = self.tree_view();
                    let found = if ro.path_op == PathOp::Equal {
                        index_remove(&mut self.hash_path, ro.path.as_str(), route.id.as_str())
                    } else {
                        proof {
                            assert(g.path_op == PathOp::PrefixMatch);
                        }
                        index_remove(&mut self.tree_path, ro.path.as_str(), route.id.as_str())
                    };
                    if !found {
                        proof {
                            assert(!path_malformed(route.paths@[i as int]@));
                            assert(g.path@ == path_key_of(route.paths@[i as int]@));
                            assert((g.path_op == PathOp::Equal) == path_is_exact(
                                route.paths@[i as int]@,
                            ));
                            assert(missing_under(
                                if path_is_exact(route.paths@[i as int]@) {
                                    self.hash_view()
                                } else {
                                    self.tree_view()
                                },
                                path_key_of(route.paths@[i as int]@),
                                route.id@,
                            ));
                        }
                        return Err(RouterError::RouteNotFound(route.id.clone()));
                    }
                    proof {
                        assert(hit_record(hcur, tcur, g));
                        lemma_removes_hit_push(h0, t0, ros, g);
                        if g.path_op == PathOp::Equal {
                            lemma_remove_from_wf(hcur, g.path@, g.id@, PathOp::Equal);
                        } else {
                            lemma_remove_from_wf(tcur, g.path@, g.id@, PathOp::PrefixMatch);
                        }
                        ros = ros.push(g);
                        assert(ros[i as int] == g);
                        assert forall|j: int| 0 <= j < i + 1 implies record_rel(
                            route,
                            route.paths@[j]@,
                            #[trigger] ros[j],
                        ) && record_wf(ros[j]) by {
                            if j < i {
                                assert(ros[j] == ros.drop_last()[j]);
                            }
                        }
                    }
                },
                Err(e) => {
                    return Err(e);
                },
            }
            i += 1;
        }
        Ok(())
    }

    /// Replace a route: remove the old descriptor, then register the new
    /// one.  The two steps are not atomic: on failure the router may hold
    /// neither route.
    pub fn update_route(&mut self, old_route: RadixNode, new_route: RadixNode) -> (r: Result<
        (),
        RouterError,
    >)
        requires
            old(self).wf(),
        ensures
            final(self).wf(),
            match r {
                Ok(_) => exists|hm: Seq<BucketView>, tm: Seq<BucketView>|
                    #![auto]
                    delete_post(
                        old(self).hash_view(),
                        old(self).tree_view(),
                        old_route,
                        Result::<(), RouterError>::Ok(()),
                        hm,
                        tm,
                    ) && add_post(
                        hm,
                        tm,
                        new_route,
                        Result::<(), RouterError>::Ok(()),
                        final(self).hash_view(),
                        final(self).tree_view(),
                    ),
                Err(e) => delete_post(
                    old(self).hash_view(),
                    old(self).tree_view(),
                    old_route,
                    Result::<(), RouterError>::Err(e),
                    final(self).hash_view(),
                    final(self).tree_view(),
                ) || (exists|hm: Seq<BucketView>, tm: Seq<BucketView>|
                    #![auto]
                    delete_post(
                        old(self).hash_view(),
                        old(self).tree_view(),
                        old_route,
                        Result::<(), RouterError>::Ok(()),
                        hm,
                        tm,
                    ) && add_post(
                        hm,
                        tm,
                        new_route,
                        Result::<(), RouterError>::Err(e),
                        final(self).hash_view(),
                        final(self).tree_view(),
                    )),
            },
    {
        let ghost h0 = old(self).hash_view();
        let ghost t0 = old(self).tree_view();
        let dr = self.delete_route(old_route);
        match dr {
            Ok(_) => {},
            Err(e) => {
                return Err(e);
            },
        }
        let ghost hm = self.hash_view();
        let ghost tm = self.tree_view();
        let ar = self.add_route(new_route);
        match ar {
            Ok(_) => {
                proof {
                    assert(delete_post(h0, t0, old_route, Result::<(), RouterError>::Ok(()), hm, tm));
                    assert(add_post(
                        hm,
                        tm,
                        new_route,
                        Result::<(), RouterError>::Ok(()),
                        self.hash_view(),
                        self.tree_view(),
                    ));
                }
                Ok(())
            },
            Err(e) => {
                proof {
                    assert(delete_post(h0, t0, old_route, Result::<(), RouterError>::Ok(()), hm, tm));
                    assert(add_post(
                        hm,
                        tm,
                        new_route,
                        Result::<(), RouterError>::Err(e),
                        self.hash_view(),
                        self.tree_view(),
                    ));
                }
                Err(e)
            },
        }
    }
}

} // verus!
