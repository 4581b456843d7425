//! Commands: read a `PACKAGES` text, resolve the roots, and write the
//! lockfile text, all as plain values (files and network stay outside).

use vstd::prelude::*;

use crate::lockfile::{render, render_spec};
use crate::metadata::{
    dcf_records, index_of, lemma_index_keys_distinct, packages_of, IndexView, PackageIndex,
};
use crate::resolution::{lemma_merge_into_empty, merge, Resolution, ResolutionView};
use crate::resolver::{
    lemma_resolve_sound, resolve, resolve_spec, ResolveError, ResolveErrorView,
};

verus! {

/// The roots resolved one after the other and merged, later results
/// replacing earlier ones; the first failure stops it.
pub open spec fn lock_roots(idx: IndexView, roots: Seq<Seq<char>>) -> Result<
    ResolutionView,
    ResolveErrorView,
>
    decreases roots.len(),
{
    if roots.len() == 0 {
        Ok(seq![])
    } else {
        match lock_roots(idx, roots.drop_last()) {
            Err(e) => Err(e),
            Ok(m) => match resolve_spec(idx, roots.last()) {
                Err(e) => Err(e),
                Ok(r) => Ok(merge(m, r)),
            },
        }
    }
}

/// The lockfile text for the roots, or the first resolution error.
pub open spec fn lock_spec(packages: Seq<char>, roots: Seq<Seq<char>>) -> Result<
    Seq<char>,
    ResolveErrorView,
> {
    match lock_roots(index_of(packages_of(dcf_records(packages))), roots) {
        Ok(m) => Ok(render_spec(m)),
        Err(e) => Err(e),
    }
}

pub open spec fn string_views(s: Seq<String>) -> Seq<Seq<char>> {
    s.map_values(|x: String| x@)
}

pub open spec fn text_result(r: Result<String, ResolveError>) -> Result<
    Seq<char>,
    ResolveErrorView,
> {
    match r {
        Ok(s) => Ok(s@),
        Err(e) => Err(e@),
    }
}

/// Resolves the roots against the `PACKAGES` text and renders the lockfile.
pub fn lock_from_packages(packages_text: &str, roots: &[String]) -> (r: Result<
    String,
    ResolveError,
>)
    ensures
        text_result(r) == lock_spec(packages_text@, string_views(roots@)),
{
    let index = PackageIndex::from_packages_file(packages_text);
    let ghost idx = index@;
    let ghost rs = string_views(roots@);
    let mut combined = Resolution::new();
    let n = roots.len();
    let mut i: usize = 0;
    while i < n
        invariant
            n == roots@.len(),
            rs == string_views(roots@),
            idx == index@,
            idx == index_of(packages_of(dcf_records(packages_text@))),
            i <= n,
            lock_roots(idx, rs.take(i as int)) == Ok::<ResolutionView, ResolveErrorView>(
                combined@,
            ),
        decreases n - i,
    {
        assert(rs.take(i + 1).drop_last() =~= rs.take(i as int));
        assert(rs.take(i + 1).last() == roots@[i as int]@);
        match resolve(&index, roots[i].as_str()) {
            Err(e) => {
                proof {
                    lemma_lock_roots_err(idx, rs, i + 1);
                }
                return Err(e);
            },
            Ok(r) => {
                combined.extend(&r);
            },
        }
        i = i + 1;
    }
    assert(rs.take(n as int) =~= rs);
    Ok(render(&combined))
}

proof fn lemma_lock_roots_err(idx: IndexView, rs: Seq<Seq<char>>, j: int)
    requires
        0 <= j <= rs.len(),
        lock_roots(idx, rs.take(j)) is Err,
    ensures
        lock_roots(idx, rs) == lock_roots(idx, rs.take(j)),
    decreases rs.len() - j,
{
    if j < rs.len() {
        assert(rs.take(j + 1).drop_last() =~= rs.take(j));
        lemma_lock_roots_err(idx, rs, j + 1);
    } else {
        assert(rs.take(j) =~= rs);
    }
}

/// Locking a single root writes exactly the resolution of that root, or
/// fails with its error.
pub proof fn lemma_lock_single_root(packages: Seq<char>, root: Seq<char>)
    ensures
        lock_spec(packages, seq![root]) == match resolve_spec(
            index_of(packages_of(dcf_records(packages))),
            root,
        ) {
            Ok(m) => Ok(render_spec(m)),
            Err(e) => Err(e),
        },
{
    let idx = index_of(packages_of(dcf_records(packages)));
    let roots = seq![root];
    assert(roots.drop_last() =~= Seq::<Seq<char>>::empty());
    assert(roots.last() == root);
    assert(lock_roots(idx, Seq::<Seq<char>>::empty()) == Ok::<ResolutionView, ResolveErrorView>(
        seq![],
    ));
    lemma_index_keys_distinct(packages_of(dcf_records(packages)));
    lemma_resolve_sound(idx, root);
    match resolve_spec(idx, root) {
        Ok(m) => {
            lemma_merge_into_empty(m);
        },
        Err(_) => {},
    }
}

} // verus!
