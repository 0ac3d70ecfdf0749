//! Host patterns: a literal host, or `*` followed by the suffix to match.
//! Both sides of a comparison are folded to lower case.

use crate::foreign::{lower_of, to_lower};
use crate::text::{str_eq, str_ends_with};
use vstd::prelude::*;
use vstd::string::*;

verus! {

/// A compiled host pattern.  A wildcard pattern stores the suffix including
/// its leading dot (`*.example.com` stores `.example.com`); the stored text
/// is always the lower-case fold of the declared pattern.
#[derive(Debug)]
pub struct HostPattern {
    pub is_wildcard: bool,
    pub pattern: String,
}

/// Whether a declared host pattern is a wildcard.
pub open spec fn host_is_wildcard(p: Seq<char>) -> bool {
    p.len() > 0 && p[0] == '*'
}

/// The stored (folded) body of a declared host pattern.
pub open spec fn host_pattern_body(p: Seq<char>) -> Seq<char> {
    if host_is_wildcard(p) {
        lower_of(p.skip(1))
    } else {
        lower_of(p)
    }
}

/// Whether a host pattern accepts an already-folded host.
pub open spec fn host_pattern_accepts(is_wildcard: bool, pattern: Seq<char>, folded: Seq<char>) -> bool {
    if is_wildcard {
        pattern.is_suffix_of(folded)
    } else {
        folded == pattern
    }
}

impl HostPattern {
    /// Compile a declared host pattern.
    pub fn new(pattern: &str) -> (r: HostPattern)
        ensures
            r.is_wildcard == host_is_wildcard(pattern@),
            r.pattern@ == host_pattern_body(pattern@),
    {
        let len = pattern.unicode_len();
        if len > 0 && pattern.get_char(0) == '*' {
            let rest = pattern.substring_char(1, len);
            proof {
                assert(rest@ =~= pattern@.skip(1));
            }
            HostPattern { is_wildcard: true, pattern: to_lower(rest) }
        } else {
            HostPattern { is_wildcard: false, pattern: to_lower(pattern) }
        }
    }

    /// Whether a request host matches this pattern; the host is folded to
    /// lower case first.
    pub fn matches(&self, host: &str) -> (r: bool)
        ensures
            r == host_pattern_accepts(self.is_wildcard, self.pattern@, lower_of(host@)),
    {
        let folded = to_lower(host);
        self.matches_folded(folded.as_str())
    }

    /// Whether an already-folded host matches this pattern.
    pub fn matches_folded(&self, folded: &str) -> (r: bool)
        ensures
            r == host_pattern_accepts(self.is_wildcard, self.pattern@, folded@),
    {
        if self.is_wildcard {
            str_ends_with(folded, self.pattern.as_str())
        } else {
            str_eq(folded, self.pattern.as_str())
        }
    }
}

} // verus!
