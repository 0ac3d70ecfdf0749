//! HTTP methods as a bitset over a closed set of ten methods.

use crate::foreign::{to_upper, upper_of};
use crate::text::str_eq;
use vstd::prelude::*;
use vstd::string::*;

verus! {

/// A set of HTTP methods, one bit per method.  An empty set on a route
/// means that any method (including none) is acceptable.
#[derive(Debug, Clone, Copy, PartialEq, Eq, Structural)]
pub struct RadixHttpMethod {
    pub bits: u16,
}

/// The bit of a single upper-case method name; `0` for an unknown name.
pub open spec fn method_bit(u: Seq<char>) -> u16 {
    if u == "GET"@ {
        1u16
    } else if u == "POST"@ {
        2u16
    } else if u == "PUT"@ {
        4u16
    } else if u == "DELETE"@ {
        8u16
    } else if u == "PATCH"@ {
        16u16
    } else if u == "HEAD"@ {
        32u16
    } else if u == "OPTIONS"@ {
        64u16
    } else if u == "CONNECT"@ {
        128u16
    } else if u == "TRACE"@ {
        256u16
    } else if u == "PURGE"@ {
        512u16
    } else {
        0u16
    }
}

/// The bit a method string parses to, case-insensitively; `0` when the
/// string names no known method.
pub open spec fn method_of(s: Seq<char>) -> u16 {
    method_bit(upper_of(s))
}

/// The union of the bits of a sequence of method strings, unknown names
/// ignored.
pub open spec fn methods_of(ss: Seq<Seq<char>>) -> u16
    decreases ss.len(),
{
    if ss.len() == 0 {
        0u16
    } else {
        methods_of(ss.drop_last()) | method_of(ss.last())
    }
}

impl RadixHttpMethod {
    /// The empty method set.
    pub fn empty() -> (r: RadixHttpMethod)
        ensures
            r.bits == 0,
    {
        RadixHttpMethod { bits: 0 }
    }

    /// Whether no method is in the set.
    pub fn is_empty(&self) -> (r: bool)
        ensures
            r == (self.bits == 0),
    {
        self.bits == 0
    }

    /// Whether every bit of `m` is in the set.
    pub fn contains(&self, m: RadixHttpMethod) -> (r: bool)
        ensures
            r == (self.bits & m.bits == m.bits),
    {
        self.bits & m.bits == m.bits
    }

    /// Parse one method name, case-insensitively.  For an ASCII name the
    /// upper-case fold is pinned character-wise, so the result on a
    /// concrete name follows from this contract alone.
    pub fn from_str(s: &str) -> (r: Option<RadixHttpMethod>)
        ensures
            match r {
                Some(m) => m.bits == method_of(s@) && m.bits != 0,
                None => method_of(s@) == 0,
            },
            s.is_ascii() ==> upper_of(s@).len() == s@.len() && (forall|i: int|
                0 <= i < s@.len() ==> crate::foreign::ascii_upper_pair(s@[i], upper_of(s@)[i])),
    {
        let u = to_upper(s);
        let us = u.as_str();
        if str_eq(us, "GET") {
            Some(RadixHttpMethod { bits: 1 })
        } else if str_eq(us, "POST") {
            Some(RadixHttpMethod { bits: 2 })
        } else if str_eq(us, "PUT") {
            Some(RadixHttpMethod { bits: 4 })
        } else if str_eq(us, "DELETE") {
            Some(RadixHttpMethod { bits: 8 })
        } else if str_eq(us, "PATCH") {
            Some(RadixHttpMethod { bits: 16 })
        } else if str_eq(us, "HEAD") {
            Some(RadixHttpMethod { bits: 32 })
        } else if str_eq(us, "OPTIONS") {
            Some(RadixHttpMethod { bits: 64 })
        } else if str_eq(us, "CONNECT") {
            Some(RadixHttpMethod { bits: 128 })
        } else if str_eq(us, "TRACE") {
            Some(RadixHttpMethod { bits: 256 })
        } else if str_eq(us, "PURGE") {
            Some(RadixHttpMethod { bits: 512 })
        } else {
            None
        }
    }

    /// Parse several method names into one set; unknown names are ignored.
    pub fn from_slice(methods: &[&str]) -> (r: RadixHttpMethod)
        ensures
            r.bits == methods_of(methods@.map_values(|m: &str| m@)),
    {
        let ghost ss = methods@.map_values(|m: &str| m@);
        let n = methods.len();
        let mut bits: u16 = 0;
        let mut i: usize = 0;
        while i < n
            invariant
                n == methods@.len(),
                ss == methods@.map_values(|m: &str| m@),
                0 <= i <= n,
                bits == methods_of(ss.take(i as int)),
            decreases n - i,
        {
            match Self::from_str(methods[i]) {
                Some(m) => {
                    bits = bits | m.bits;
                },
                None => {
                },
            }
            proof {
                assert(ss.take(i + 1).drop_last() =~= ss.take(i as int));
                assert(ss.take(i + 1).last() == methods@[i as int]@);
                assert(method_of(ss.take(i + 1).last()) == 0 ==> bits == (bits | 0u16)) by (bit_vector);
            }
            i += 1;
        }
        proof {
            assert(ss.take(n as int) =~= ss);
        }
        RadixHttpMethod { bits }
    }
}

} // verus!
