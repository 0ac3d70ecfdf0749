//! Trusted declarations for the outside crates (`serde_json`, `regex`) and
//! for the std case-folding functions that the router relies on.  Nothing in
//! this module is verified; each item's contract states only what the
//! documentation or source of the relied-upon function plainly shows.

use std::sync::Arc;
use vstd::prelude::*;

verus! {

/// What `str::to_lowercase` returns: a function of the input characters alone.
pub uninterp spec fn lower_of(s: Seq<char>) -> Seq<char>;

/// What `str::to_uppercase` returns: a function of the input characters alone.
pub uninterp spec fn upper_of(s: Seq<char>) -> Seq<char>;

/// `b` is `a` folded to lower case, where `a` is an ASCII character:
/// `A`..`Z` map to `a`..`z`; everything else is unchanged.
pub open spec fn ascii_lower_pair(a: char, b: char) -> bool {
    if 65 <= a as int && a as int <= 90 {
        b as int == a as int + 32
    } else {
        b == a
    }
}

/// `b` is `a` folded to upper case, where `a` is an ASCII character:
/// `a`..`z` map to `A`..`Z`; everything else is unchanged.
pub open spec fn ascii_upper_pair(a: char, b: char) -> bool {
    if 97 <= a as int && a as int <= 122 {
        b as int == a as int - 32
    } else {
        b == a
    }
}

/// Relies on `str::to_lowercase`: the result is the Unicode lower-case form
/// of the input, a function of the input characters alone; on ASCII input it
/// is the character-wise ASCII lower-case form.
#[verifier::external_body]
pub fn to_lower(s: &str) -> (r: String)
    ensures
        r@ == lower_of(s@),
        s@.len() == 0 ==> r@.len() == 0,
        s.is_ascii() ==> r@.len() == s@.len() && (forall|i: int|
            0 <= i < s@.len() ==> ascii_lower_pair(s@[i], r@[i])),
{
    s.to_lowercase()
}

/// Relies on `str::to_uppercase`: the result is the Unicode upper-case form
/// of the input, a function of the input characters alone; on ASCII input it
/// is the character-wise ASCII upper-case form.
#[verifier::external_body]
pub fn to_upper(s: &str) -> (r: String)
    ensures
        r@ == upper_of(s@),
        s@.len() == 0 ==> r@.len() == 0,
        s.is_ascii() ==> r@.len() == s@.len() && (forall|i: int|
            0 <= i < s@.len() ==> ascii_upper_pair(s@[i], r@[i])),
{
    s.to_uppercase()
}

#[verifier::external_type_specification]
#[verifier::external_body]
pub struct ExValue(serde_json::Value);

/// Relies on `serde_json::Value::clone` (derived): the clone equals the
/// original value.
pub assume_specification[ <serde_json::Value as Clone>::clone ](
    v: &serde_json::Value,
) -> (r: serde_json::Value)
    ensures
        r == *v,
;

#[verifier::external_type_specification]
#[verifier::external_body]
pub struct ExRegex(regex::Regex);

/// Relies on `regex::Regex::is_match`.  The compiled pattern inside a
/// `regex::Regex` is opaque here, so nothing is stated about the result.
#[verifier::external_body]
pub fn regex_is_match(re: &regex::Regex, text: &str) -> bool {
    re.is_match(text)
}

/// Relies on `regex::Regex::clone` (derived).  The clone matches the same
/// pattern, but the value also carries a cache pool that the derived clone
/// does not preserve exactly, so no equality is stated.
#[verifier::external_body]
pub fn regex_clone(re: &regex::Regex) -> regex::Regex {
    re.clone()
}

/// Relies on `std::sync::Arc::clone`: the clone is a pointer to the same
/// allocation, hence equal to the original.
#[verifier::external_body]
pub fn arc_clone<T: ?Sized>(a: &Arc<T>) -> (r: Arc<T>)
    ensures
        r == *a,
{
    a.clone()
}

} // verus!
