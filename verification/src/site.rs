//! Site URL helpers for the pages around the feed.

use vstd::prelude::*;
use vstd::string::StringExecFns;

verus! {

/// The absolute URL of a path on the site: the site root followed by the
/// path, exactly.
pub fn absolute_url(site_url: &str, path: &str) -> (r: String)
    ensures
        r@ == site_url@ + path@,
{
    let mut out = site_url.to_owned();
    out.append(path);
    out
}

} // verus!
