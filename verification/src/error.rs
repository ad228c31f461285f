//! The error of every decoding function.

use vstd::prelude::*;

verus! {

/// Text that is not a `Link` header value. Which rule the text broke is not
/// recorded: a missing bracket, a URI that does not parse, a parameter without
/// `=` and a missing or unreadable header value all give this one value.
#[derive(Clone, Copy, Debug, PartialEq, Eq, Structural)]
pub struct InvalidLink;

impl InvalidLink {
    /// The message of the error, `invalid link`.
    pub fn to_string(&self) -> (message: String)
        ensures
            message@ == "invalid link"@,
    {
        "invalid link".to_owned()
    }
}

} // verus!
