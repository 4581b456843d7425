//! Where a repository keeps a package's source tarball. Downloading and
//! running `R CMD INSTALL` are I/O and stay outside the library.

use vstd::prelude::*;

use crate::fetch::packages_url_spec;
use crate::text::{chars_of, push_str, strip_trailing, strip_trailing_chars, string_of};

verus! {

/// `<repo_base>/src/contrib/<name>_<version>.tar.gz`, with trailing
/// slashes of the base removed first.
pub open spec fn tarball_url_spec(repo_base: Seq<char>, name: Seq<char>, version: Seq<char>) -> Seq<
    char,
> {
    strip_trailing(repo_base, '/') + "/src/contrib/"@ + name + "_"@ + version + ".tar.gz"@
}

/// The URL of a package's source tarball.
pub fn tarball_url(repo_base: &str, name: &str, version: &str) -> (r: String)
    ensures
        r@ == tarball_url_spec(repo_base@, name@, version@),
{
    let base = chars_of(repo_base);
    let mut out = strip_trailing_chars(&base, '/');
    push_str(&mut out, "/src/contrib/");
    push_str(&mut out, name);
    push_str(&mut out, "_");
    push_str(&mut out, version);
    push_str(&mut out, ".tar.gz");
    string_of(out.as_slice())
}

/// The tarball sits in the directory of the repository's `PACKAGES` file:
/// both URLs are the base without its trailing slashes followed by
/// `/src/contrib/`; the file name is the package name, `_`, the characters of
/// the version exactly as given (`7.3-61` stays `7.3-61`), and `.tar.gz`.
pub proof fn lemma_tarball_beside_index(repo_base: Seq<char>, name: Seq<char>, version: Seq<char>)
    ensures
        ({
            let dir = strip_trailing(repo_base, '/') + "/src/contrib/"@;
            &&& packages_url_spec(repo_base) == dir + "PACKAGES"@
            &&& tarball_url_spec(repo_base, name, version) == dir + name + "_"@ + version
                + ".tar.gz"@
        }),
{
    reveal_strlit("/src/contrib/PACKAGES");
    reveal_strlit("/src/contrib/");
    reveal_strlit("PACKAGES");
    let dir = strip_trailing(repo_base, '/') + "/src/contrib/"@;
    assert("/src/contrib/PACKAGES"@ =~= "/src/contrib/"@ + "PACKAGES"@);
    assert(packages_url_spec(repo_base) =~= dir + "PACKAGES"@);
}

/// The version can be read back from the tarball URL: it is the text between
/// the `_` after the name and the final `.tar.gz`, so two different versions
/// of a package in one repository never share a URL.
pub proof fn lemma_tarball_url_version(
    repo_base: Seq<char>,
    name: Seq<char>,
    v1: Seq<char>,
    v2: Seq<char>,
)
    ensures
        ({
            let u = tarball_url_spec(repo_base, name, v1);
            let start: int = (strip_trailing(repo_base, '/') + "/src/contrib/"@ + name
                + "_"@).len() as int;
            u.subrange(start, start + v1.len()) == v1
        }),
        tarball_url_spec(repo_base, name, v1) == tarball_url_spec(repo_base, name, v2) ==> v1
            == v2,
{
    let p = strip_trailing(repo_base, '/') + "/src/contrib/"@ + name + "_"@;
    let sfx = ".tar.gz"@;
    let u1 = tarball_url_spec(repo_base, name, v1);
    let u2 = tarball_url_spec(repo_base, name, v2);
    assert(u1 == p + v1 + sfx);
    assert(u2 == p + v2 + sfx);
    assert forall|i: int| 0 <= i < v1.len() implies u1[p.len() + i] == v1[i] by {
        assert((p + v1)[p.len() + i] == v1[i]);
    }
    assert(u1.subrange(p.len() as int, p.len() + v1.len() as int) =~= v1);
    if u1 == u2 {
        assert(v1.len() == v2.len());
        assert forall|i: int| 0 <= i < v1.len() implies v1[i] == v2[i] by {
            assert((p + v1)[p.len() + i] == v1[i]);
            assert((p + v2)[p.len() + i] == v2[i]);
            assert(u1[p.len() + i] == u2[p.len() + i]);
        }
        assert(v1 =~= v2);
    }
}

} // verus!
