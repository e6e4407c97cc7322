//! Decisions about response handling that depend only on plain values.
use vstd::prelude::*;

use crate::strutil::str_eq;

verus! {

/// Content types whose bodies are worth compressing before transfer.
pub open spec fn spec_should_compress(content_type: Seq<char>) -> bool {
    ||| content_type == "text/plain"@
    ||| content_type == "text/html"@
    ||| content_type == "text/css"@
    ||| content_type == "text/javascript"@
    ||| content_type == "application/json"@
    ||| content_type == "application/xml"@
    ||| content_type == "text/xml"@
}

pub struct PerformanceOptimizations;

impl PerformanceOptimizations {
    /// Compression pays off only for textual content types.
    pub fn should_compress(content_type: &str) -> (r: bool)
        ensures
            r == spec_should_compress(content_type@),
    {
        str_eq(content_type, "text/plain") || str_eq(content_type, "text/html") || str_eq(
            content_type,
            "text/css",
        ) || str_eq(content_type, "text/javascript") || str_eq(content_type, "application/json")
            || str_eq(content_type, "application/xml") || str_eq(content_type, "text/xml")
    }
}

} // verus!
