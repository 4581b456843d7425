//! Where a repository keeps its `PACKAGES` index. The download itself is
//! network I/O and stays outside the library.

use vstd::prelude::*;

use crate::text::{chars_of, push_str, strip_trailing, strip_trailing_chars, string_of};

verus! {

/// Why fetching failed: the underlying error as a message.
#[derive(Debug)]
pub struct FetchError(pub String);

impl FetchError {
    /// The message.
    pub fn message(&self) -> (r: &String)
        ensures
            r@ == self.0@,
    {
        &self.0
    }
}

/// `<repo_base>/src/contrib/PACKAGES`, with trailing slashes of the base
/// removed first.
pub open spec fn packages_url_spec(repo_base: Seq<char>) -> Seq<char> {
    strip_trailing(repo_base, '/') + "/src/contrib/PACKAGES"@
}

/// The URL of a repository's `PACKAGES` file.
pub fn packages_url(repo_base: &str) -> (r: String)
    ensures
        r@ == packages_url_spec(repo_base@),
{
    let base = chars_of(repo_base);
    let mut out = strip_trailing_chars(&base, '/');
    push_str(&mut out, "/src/contrib/PACKAGES");
    string_of(out.as_slice())
}

} // verus!
