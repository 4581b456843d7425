//! The cache: fetched text is stored under a file name derived from its
//! URL. Reading and writing the files is I/O and stays outside the library.

use std::path::{Path, PathBuf};
use vstd::prelude::*;

use crate::text::{chars_of, string_of};

verus! {

#[verifier::external_type_specification]
#[verifier::external_body]
pub struct ExPath(Path);

#[verifier::external_type_specification]
#[verifier::external_body]
pub struct ExPathBuf(PathBuf);

/// `c` is an ASCII letter or digit (`char::is_ascii_alphanumeric`).
pub open spec fn is_ascii_alnum(c: char) -> bool {
    ||| 'a' <= c <= 'z'
    ||| 'A' <= c <= 'Z'
    ||| '0' <= c <= '9'
}

/// The cache file name of a URL: every character that is not an ASCII
/// letter or digit becomes `_`.
pub open spec fn cache_key_spec(url: Seq<char>) -> Seq<char> {
    url.map_values(|c: char| if is_ascii_alnum(c) { c } else { '_' })
}

/// A cache file name is as long as its URL and made only of ASCII letters,
/// digits and `_`, so it is one safe path component.
pub proof fn lemma_cache_key_safe(url: Seq<char>)
    ensures
        cache_key_spec(url).len() == url.len(),
        forall|i: int|
            0 <= i < url.len() ==> is_ascii_alnum(#[trigger] cache_key_spec(url)[i])
                || cache_key_spec(url)[i] == '_',
{
}

/// The cache file name of a URL.
pub fn cache_key(url: &str) -> (r: String)
    ensures
        r@ == cache_key_spec(url@),
{
    let v = chars_of(url);
    let mut out: Vec<char> = Vec::new();
    let n = v.len();
    let mut i: usize = 0;
    while i < n
        invariant
            n == v@.len(),
            v@ == url@,
            i <= n,
            out@ == cache_key_spec(url@).take(i as int),
        decreases n - i,
    {
        let c = v[i];
        let keep = ('a' <= c && c <= 'z') || ('A' <= c && c <= 'Z') || ('0' <= c && c <= '9');
        if keep {
            out.push(c);
        } else {
            out.push('_');
        }
        i = i + 1;
        assert(out@ =~= cache_key_spec(url@).take(i as int));
    }
    assert(cache_key_spec(url@).take(n as int) =~= cache_key_spec(url@));
    string_of(out.as_slice())
}

/// The path that `Path::join` makes of the directory `dir` and the
/// component `name`.
pub uninterp spec fn joined_path(dir: &Path, name: Seq<char>) -> PathBuf;

/// `Path::join`: `dir` with `name` added as its last component. Its result
/// depends on `dir` and `name` alone (for the target the crate is built
/// for); what the joined path holds is left unsaid, as paths have no model
/// here, so it is named by [`joined_path`].
#[verifier::external_body]
fn join_path(dir: &Path, name: &str) -> (p: PathBuf)
    ensures
        p == joined_path(dir, name@),
{
    dir.join(name)
}

/// The cache file of `url` inside `cache_dir`: the directory joined with
/// [`cache_key`] of the URL.
pub fn cache_path(cache_dir: &Path, url: &str) -> (r: PathBuf)
    ensures
        r == joined_path(cache_dir, cache_key_spec(url@)),
{
    let key = cache_key(url);
    join_path(cache_dir, key.as_str())
}

} // verus!
