//! URI references. Their grammar belongs to the `http` crate: this module asks
//! its parser and keeps the text in which it writes what it has read.

use vstd::prelude::*;
use crate::error::InvalidLink;

verus! {

/// What the URI parser of the `http` crate makes of `text`: `None` where it
/// rejects `text`, else the text in which it writes the URI that it has read.
pub uninterp spec fn uri_rendering(text: Seq<char>) -> Option<Seq<char>>;

/// Whether `rendered` is what the URI parser writes for some text.
pub open spec fn is_rendering(rendered: Seq<char>) -> bool {
    exists|text: Seq<char>| uri_rendering(text) == Some(rendered)
}

/// Calls `http::Uri::from_str` on `text` and, where that gives a `Uri`, turns
/// it into text through the `Display` of `Uri`.
///
/// Not proved: that the outcome depends on the characters of `text` alone,
/// which is what makes it `uri_rendering(text@)`. Nothing else is claimed of
/// the outcome.
#[verifier::external_body]
fn render_uri(text: &str) -> (rendered: Option<String>)
    ensures
        match rendered {
            Some(r) => uri_rendering(text@) == Some(r@),
            None => uri_rendering(text@) is None,
        },
{
    match text.parse::<http::Uri>() {
        Ok(uri) => Some(uri.to_string()),
        Err(_) => None,
    }
}

/// A URI reference that the URI parser has accepted, held as the text in which
/// the parser writes it.
#[derive(Debug)]
pub struct UriRef {
    text: String,
}

impl View for UriRef {
    type V = Seq<char>;

    closed spec fn view(&self) -> Seq<char> {
        self.text@
    }
}

impl UriRef {
    /// What holds of every URI reference: its text is one that the URI
    /// parser writes.
    #[verifier::type_invariant]
    pub open spec fn wf(self) -> bool {
        is_rendering(self@)
    }

    /// Reads a URI reference. Fails exactly where the URI parser rejects
    /// `text`.
    pub fn parse(text: &str) -> (r: Result<UriRef, InvalidLink>)
        ensures
            match r {
                Ok(uri) => uri_rendering(text@) == Some(uri@),
                Err(_) => uri_rendering(text@) is None,
            },
    {
        match render_uri(text) {
            Some(rendered) => Ok(UriRef { text: rendered }),
            None => Err(InvalidLink),
        }
    }

    /// The text of the URI reference.
    pub fn as_str(&self) -> (text: &str)
        ensures
            text@ == self@,
    {
        self.text.as_str()
    }
}

} // verus!
