//! URIs, as the `http` crate reads them.

use crate::text;
use vstd::prelude::*;

verus! {

/// The parts of a URI that the proxy looks at.
pub struct UriParts {
    pub scheme: Option<String>,
    pub host: Option<String>,
}

impl UriParts {
    /// The scheme and the host as text.
    pub open spec fn parts(&self) -> (Option<Seq<char>>, Option<Seq<char>>) {
        (text::opt_string(self.scheme), text::opt_string(self.host))
    }
}

/// What `http::Uri` reads from a text: its scheme and its host, or nothing where the text is no
/// URI.
pub uninterp spec fn uri_parts(s: Seq<char>) -> Option<(Option<Seq<char>>, Option<Seq<char>>)>;

/// Reads a URI with `http::Uri::from_str`, and takes from it what `Uri::scheme_str` and
/// `Uri::host` give. Of the result it is claimed that it depends on the text alone, and that the
/// empty text is no URI.
#[verifier::external_body]
pub(crate) fn read_uri(s: &str) -> (r: Option<UriParts>)
    ensures
        match r {
            Some(u) => uri_parts(s@) == Some(u.parts()),
            None => uri_parts(s@) is None,
        },
        s@.len() == 0 ==> r is None,
{
    match s.parse::<http::Uri>() {
        Ok(u) => Some(
            UriParts {
                scheme: u.scheme_str().map(String::from),
                host: u.host().map(String::from),
            },
        ),
        Err(_) => None,
    }
}

} // verus!
