//! What the status line shows after an operation.

use vstd::prelude::*;
use vstd::string::to_string_from_display_ensures;
use vstd::string::StringExecFns;

verus! {

/// The status text of an operation that went well: nothing to report.
pub const RESULT_SUCCESS: &'static str = "";

/// The status text for the outcome `outcome` of an operation: the text for
/// success, or `msg`, a colon, a blank and the error as it prints.
pub fn result<E: core::fmt::Display>(outcome: Result<(), E>, msg: &str) -> (r: String)
    ensures
        outcome is Ok ==> r@ == RESULT_SUCCESS@,
        outcome matches Err(e) ==> exists|t: String| #[trigger]
            to_string_from_display_ensures::<E>(&e, t) && r@ == msg@ + ": "@ + t@,
{
    match outcome {
        Ok(()) => RESULT_SUCCESS.to_owned(),
        Err(e) => {
            let t = e.to_string();
            let mut out = msg.to_owned();
            out.append(": ");
            out.append(t.as_str());
            out
        },
    }
}

} // verus!
