//! What this build is.

use vstd::prelude::*;

verus! {

/// The version of this build.
pub const VERSION: &'static str = "0.1.0";

/// The version that a server reports to its clients.
pub fn version() -> (text: String)
    ensures
        text@ == VERSION@,
{
    VERSION.to_owned()
}

} // verus!
