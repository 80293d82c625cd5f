//! The canonicalizer as the rest of the crawler consumes it.
//!
//! Policy, fixed here once for the whole crate: a URL is kept only if it
//! is (or resolves to) an absolute URL with a host; the fragment and the
//! query are always removed; the textual form is the `url` crate's
//! serialization. Fetching a page over the network is not the library's
//! business and stays with the caller.

use vstd::prelude::*;

use crate::canon;
use crate::canon::is_canonical;
use crate::canon::normalize_spec;

verus! {

/// Returns the canonical absolute form of `url`, resolved against
/// `base_url` when `url` is relative, or `None` when `url` is rejected
/// (empty, hostless like `mailto:` or `javascript:`, malformed, or
/// relative under a malformed base).
pub fn normalize_url(base_url: &str, url: &str) -> (r: Option<String>)
    ensures
        (r is Some) == (normalize_spec(url@, base_url@) is Some),
        (r matches Some(c) ==> normalize_spec(url@, base_url@) == Some(c@) && is_canonical(c@)
            && normalize_spec(c@, c@) == Some(c@)),
{
    canon::canonicalize(url, base_url)
}

} // verus!
