//! How a child process has ended.

use vstd::prelude::*;

verus! {

/// The status that a child's end comes to, given its exit code and the signal that
/// killed it, where it has one: the code, or one for a signal.
pub fn child_status(code: Option<i32>, signal: Option<i32>) -> (r: i32)
    ensures
        r == match (code, signal) {
            (Some(c), _) => c,
            (None, Some(_)) => 1,
            (None, None) => 0,
        },
{
    match code {
        Some(c) => c,
        None => match signal {
            Some(_) => 1,
            None => 0,
        },
    }
}

} // verus!
