//! Post-processing for Markdown produced from rendered web pages.
//!
//! Two composable text transforms make up the core: a table compactor that
//! normalizes whitespace in Markdown table rows while leaving fenced code
//! blocks untouched, and a link resolver that rewrites relative link and
//! image destinations to absolute URLs against a base URL. A small helper
//! escapes CSS selector strings as JavaScript string literals, and another
//! computes the browser idle timeout.

use vstd::prelude::*;

pub mod escape;
pub mod links;
pub mod table;
pub mod text;

verus! {

/// Seconds the browser may sit idle: the page-load timeout plus a fixed
/// buffer, saturating at the largest representable value.
pub fn idle_browser_timeout(timeout_secs: u64) -> (r: u64)
    ensures
        r == if timeout_secs + 30 <= u64::MAX { timeout_secs + 30 } else { u64::MAX as int },
{
    if timeout_secs <= u64::MAX - 30 {
        timeout_secs + 30
    } else {
        u64::MAX
    }
}

} // verus!
