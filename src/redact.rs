//! Redaction of sensitive values in diagnostics.

use vstd::prelude::*;

verus! {

/// What stands in for a sensitive value in safe mode.
pub open spec fn redaction_marker() -> Seq<char> {
    "[REDACTED]"@
}

/// The text shown for the sensitive value `detail`: the marker in safe mode,
/// the value itself otherwise. Only the text differs, never what is done.
pub fn sensitive_text<'a>(safe_mode: bool, detail: &'a str) -> (r: &'a str)
    ensures
        r@ == if safe_mode {
            redaction_marker()
        } else {
            detail@
        },
{
    if safe_mode {
        "[REDACTED]"
    } else {
        detail
    }
}

} // verus!
