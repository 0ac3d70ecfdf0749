//! Variable expressions, evaluated against the request's variable map.

use crate::foreign::regex_is_match;
use crate::num::{num_gt_spec, num_gt_str};
use crate::strmap::StrMap;
use crate::text::str_eq;
use vstd::prelude::*;
use vstd::string::*;

verus! {

/// A condition on one named request variable.
pub enum Expr {
    /// `var == value`.
    Eq(String, String),
    /// `var != value`; also true when the variable is missing.
    Neq(String, String),
    /// `var > value`, both operands read as decimal numbers.
    Gt(String, String),
    /// `var < value`, both operands read as decimal numbers.
    Lt(String, String),
    /// `var` is one of the listed values.
    In(String, Vec<String>),
    /// `var` matches the compiled regular expression.
    Regex(String, regex::Regex),
}

/// The variable name an expression reads.
pub open spec fn expr_key(e: Expr) -> Seq<char> {
    match e {
        Expr::Eq(k, _) => k@,
        Expr::Neq(k, _) => k@,
        Expr::Gt(k, _) => k@,
        Expr::Lt(k, _) => k@,
        Expr::In(k, _) => k@,
        Expr::Regex(k, _) => k@,
    }
}

/// The value of an expression against a variable map.  For the `Regex`
/// variant this only says that the variable must be present; what the
/// outside pattern accepts is not modelled.
pub open spec fn expr_eval_spec(e: Expr, m: Map<Seq<char>, Seq<char>>) -> bool {
    match e {
        Expr::Eq(k, v) => m.contains_key(k@) && m[k@] == v@,
        Expr::Neq(k, v) => !(m.contains_key(k@) && m[k@] == v@),
        Expr::Gt(k, v) => m.contains_key(k@) && num_gt_spec(m[k@], v@),
        Expr::Lt(k, v) => m.contains_key(k@) && num_gt_spec(v@, m[k@]),
        Expr::In(k, vs) => m.contains_key(k@) && (exists|i: int|
            0 <= i < vs@.len() && vs@[i]@ == m[k@]),
        Expr::Regex(k, _) => m.contains_key(k@),
    }
}

/// Two expressions with the same shape: same variant, same strings.  The
/// compiled pattern of a `Regex` expression is outside the comparison.
pub open spec fn expr_similar(a: Expr, b: Expr) -> bool {
    match (a, b) {
        (Expr::Eq(k1, v1), Expr::Eq(k2, v2)) => k1@ == k2@ && v1@ == v2@,
        (Expr::Neq(k1, v1), Expr::Neq(k2, v2)) => k1@ == k2@ && v1@ == v2@,
        (Expr::Gt(k1, v1), Expr::Gt(k2, v2)) => k1@ == k2@ && v1@ == v2@,
        (Expr::Lt(k1, v1), Expr::Lt(k2, v2)) => k1@ == k2@ && v1@ == v2@,
        (Expr::In(k1, vs1), Expr::In(k2, vs2)) => k1@ == k2@ && vs1@.map_values(|s: String| s@)
            == vs2@.map_values(|s: String| s@),
        (Expr::Regex(k1, _), Expr::Regex(k2, _)) => k1@ == k2@,
        _ => false,
    }
}

impl Expr {
    /// Evaluate this expression against the request variables.  The value
    /// of a `Regex` expression on a present variable is whatever the
    /// compiled pattern answers.
    pub fn eval(&self, vars: &StrMap) -> (r: bool)
        ensures
            !(*self is Regex) ==> r == expr_eval_spec(*self, vars@),
            r ==> expr_eval_spec(*self, vars@),
    {
        match self {
            Expr::Eq(k, v) => match vars.get(k.as_str()) {
                Some(x) => str_eq(x.as_str(), v.as_str()),
                None => false,
            },
            Expr::Neq(k, v) => match vars.get(k.as_str()) {
                Some(x) => !str_eq(x.as_str(), v.as_str()),
                None => true,
            },
            Expr::Gt(k, v) => match vars.get(k.as_str()) {
                Some(x) => num_gt_str(x.as_str(), v.as_str()),
                None => false,
            },
            Expr::Lt(k, v) => match vars.get(k.as_str()) {
                Some(x) => num_gt_str(v.as_str(), x.as_str()),
                None => false,
            },
            Expr::In(k, vs) => match vars.get(k.as_str()) {
                Some(x) => {
                    let n = vs.len();
                    let mut i: usize = 0;
                    let mut found = false;
                    while i < n
                        invariant
                            n == vs@.len(),
                            0 <= i <= n,
                            found == (exists|j: int| 0 <= j < i && vs@[j]@ == x@),
                        decreases n - i,
                    {
                        if !found && str_eq(vs[i].as_str(), x.as_str()) {
                            found = true;
                        }
                        i += 1;
                    }
                    found
                },
                None => false,
            },
            Expr::Regex(k, re) => match vars.get(k.as_str()) {
                Some(x) => regex_is_match(re, x.as_str()),
                None => false,
            },
        }
    }

    /// A copy with the same shape; the compiled pattern of a `Regex`
    /// expression is cloned through the outside crate.
    pub fn duplicate(&self) -> (r: Expr)
        ensures
            expr_similar(*self, r),
    {
        match self {
            Expr::Eq(k, v) => Expr::Eq(k.clone(), v.clone()),
            Expr::Neq(k, v) => Expr::Neq(k.clone(), v.clone()),
            Expr::Gt(k, v) => Expr::Gt(k.clone(), v.clone()),
            Expr::Lt(k, v) => Expr::Lt(k.clone(), v.clone()),
            Expr::In(k, vs) => {
                let n = vs.len();
                let mut out: Vec<String> = Vec::new();
                let mut i: usize = 0;
                while i < n
                    invariant
                        n == vs@.len(),
                        0 <= i <= n,
                        out@.len() == i,
                        forall|j: int| 0 <= j < i ==> out@[j]@ == vs@[j]@,
                    decreases n - i,
                {
                    out.push(vs[i].clone());
                    i += 1;
                }
                proof {
                    assert(out@.map_values(|s: String| s@) =~= vs@.map_values(|s: String| s@));
                }
                Expr::In(k.clone(), out)
            },
            Expr::Regex(k, re) => Expr::Regex(k.clone(), crate::foreign::regex_clone(re)),
        }
    }
}

} // verus!
