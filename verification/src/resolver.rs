//! Dependency resolution: choose, for a root package and everything it
//! depends on, the highest version that meets the constraints, and report
//! missing packages, unsatisfiable constraints and conflicts.
//!
//! The resolver is greedy: a package keeps the first version chosen for it,
//! and a later constraint that this version does not meet is a conflict.

use vstd::prelude::*;

use crate::assoc::{assoc_find, assoc_get, assoc_keys, lemma_assoc_find_range};
use crate::resolution::{
    lemma_resolution_insert, sorted_insert, sorted_names, str_lt, Resolution, ResolutionView,
    lemma_str_lt_irreflexive,
};
use crate::metadata::{
    dep_views, versions_in, Dependency, IndexView, Package, PackageIndex, PackageView,
};
use crate::version::{admits, lemma_version_order_basics, lemma_version_order_transitive,
    opt_constraint, version_order, Constraint, Op};

verus! {

/// Why resolution failed.
#[derive(Debug, PartialEq, Eq)]
pub enum ResolveError {
    /// The index has no package of this name.
    NotFound(String),
    /// The package exists, but no version meets the constraint.
    Unsatisfiable(String),
    /// The package was asked for in versions that do not fit together.
    Conflict(String),
}

/// A resolution error as plain values.
pub enum ResolveErrorView {
    NotFound(Seq<char>),
    Unsatisfiable(Seq<char>),
    Conflict(Seq<char>),
}

impl View for ResolveError {
    type V = ResolveErrorView;

    open spec fn view(&self) -> ResolveErrorView {
        match self {
            ResolveError::NotFound(n) => ResolveErrorView::NotFound(n@),
            ResolveError::Unsatisfiable(n) => ResolveErrorView::Unsatisfiable(n@),
            ResolveError::Conflict(n) => ResolveErrorView::Conflict(n@),
        }
    }
}

/// The packages that ship with R (base and recommended): they are not in
/// `PACKAGES` and never need installing.
pub open spec fn builtin_spec(n: Seq<char>) -> bool {
    ||| n == "R"@
    ||| n == "base"@
    ||| n == "compiler"@
    ||| n == "datasets"@
    ||| n == "graphics"@
    ||| n == "grDevices"@
    ||| n == "grid"@
    ||| n == "methods"@
    ||| n == "parallel"@
    ||| n == "splines"@
    ||| n == "stats"@
    ||| n == "stats4"@
    ||| n == "tcltk"@
    ||| n == "tools"@
    ||| n == "utils"@
    ||| n == "translations"@
    ||| n == "boot"@
    ||| n == "class"@
    ||| n == "cluster"@
    ||| n == "codetools"@
    ||| n == "foreign"@
    ||| n == "KernSmooth"@
    ||| n == "lattice"@
    ||| n == "MASS"@
    ||| n == "Matrix"@
    ||| n == "mgcv"@
    ||| n == "nlme"@
    ||| n == "nnet"@
    ||| n == "rpart"@
    ||| n == "spatial"@
    ||| n == "survival"@
}

fn same(a: &String, b: &str) -> (r: bool)
    ensures
        r == (a@ == b@),
{
    *a == b.to_owned()
}

/// Whether `name` ships with R and needs no installing.
pub fn is_builtin(name: &str) -> (r: bool)
    ensures
        r == builtin_spec(name@),
{
    let n = name.to_owned();
    same(&n, "R") || same(&n, "base") || same(&n, "compiler") || same(&n, "datasets") || same(
        &n,
        "graphics",
    ) || same(&n, "grDevices") || same(&n, "grid") || same(&n, "methods") || same(
        &n,
        "parallel",
    ) || same(&n, "splines") || same(&n, "stats") || same(&n, "stats4") || same(&n, "tcltk")
        || same(&n, "tools") || same(&n, "utils") || same(&n, "translations") || same(&n, "boot")
        || same(&n, "class") || same(&n, "cluster") || same(&n, "codetools") || same(
        &n,
        "foreign",
    ) || same(&n, "KernSmooth") || same(&n, "lattice") || same(&n, "MASS") || same(&n, "Matrix")
        || same(&n, "mgcv") || same(&n, "nlme") || same(&n, "nnet") || same(&n, "rpart") || same(
        &n,
        "spatial",
    ) || same(&n, "survival")
}

/// Whether a version meets an optional constraint (`None` admits all).
pub open spec fn admits_opt(c: Option<(Op, Seq<u64>)>, v: Seq<u64>) -> bool {
    match c {
        Some(c) => admits(c, v),
        None => true,
    }
}

/// The highest version among `ps` that meets `c`; among equal versions the
/// last one (what `Iterator::max_by` picks).
pub open spec fn best_in(ps: Seq<PackageView>, c: Option<(Op, Seq<u64>)>) -> Option<PackageView>
    decreases ps.len(),
{
    if ps.len() == 0 {
        None
    } else {
        let prev = best_in(ps.drop_last(), c);
        let p = ps.last();
        if !admits_opt(c, p.1) {
            prev
        } else {
            match prev {
                Some(b) => if version_order(b.1, p.1) > 0 {
                    Some(b)
                } else {
                    Some(p)
                },
                None => Some(p),
            }
        }
    }
}

/// What [`best_in`] picks meets the constraint, is one of the candidates,
/// and no candidate that meets the constraint is higher; it is `None` exactly
/// when no candidate meets the constraint.
pub proof fn lemma_best_in(ps: Seq<PackageView>, c: Option<(Op, Seq<u64>)>)
    ensures
        match best_in(ps, c) {
            Some(b) => {
                &&& admits_opt(c, b.1)
                &&& ps.contains(b)
                &&& forall|j: int|
                    0 <= j < ps.len() && admits_opt(c, #[trigger] ps[j].1) ==> version_order(
                        ps[j].1,
                        b.1,
                    ) <= 0
            },
            None => forall|j: int| 0 <= j < ps.len() ==> !admits_opt(c, #[trigger] ps[j].1),
        },
    decreases ps.len(),
{
    if ps.len() > 0 {
        let d = ps.drop_last();
        let p = ps.last();
        lemma_best_in(d, c);
        lemma_version_order_basics(p.1, p.1);
        match best_in(d, c) {
            Some(b) => {
                lemma_version_order_basics(b.1, p.1);
                assert forall|j: int|
                    0 <= j < ps.len() && admits_opt(c, #[trigger] ps[j].1) implies version_order(
                    ps[j].1,
                    best_in(ps, c).unwrap().1,
                ) <= 0 by {
                    if j < d.len() {
                        assert(ps[j] == d[j]);
                        lemma_version_order_transitive(ps[j].1, b.1, p.1);
                    }
                }
                assert(d.contains(b));
                let k = choose|k: int| 0 <= k < d.len() && d[k] == b;
                assert(ps[k] == b);
                assert(ps[ps.len() - 1] == p);
            },
            None => {
                assert forall|j: int| 0 <= j < ps.len() && j < d.len() implies #[trigger] ps[j]
                    == d[j] by {}
                assert(ps[ps.len() - 1] == p);
            },
        }
    }
}

pub open spec fn opt_constraint_ref(c: Option<&Constraint>) -> Option<(Op, Seq<u64>)> {
    match c {
        Some(c) => Some(c@),
        None => None,
    }
}

/// The highest version of `name` in the index that meets `constraint`
/// (any version when it is `None`).
pub fn best_match<'a>(index: &'a PackageIndex, name: &str, constraint: Option<&Constraint>) -> (r:
    Option<&'a Package>)
    ensures
        match r {
            Some(p) => best_in(versions_in(index@, name@), opt_constraint_ref(constraint)) == Some(
                p@,
            ),
            None => best_in(versions_in(index@, name@), opt_constraint_ref(constraint)) is None,
        },
{
    let vs = index.versions_of(name);
    let ghost ps = crate::metadata::package_views(vs@);
    let ghost c = opt_constraint_ref(constraint);
    let mut best: Option<&Package> = None;
    let n = vs.len();
    let mut i: usize = 0;
    while i < n
        invariant
            n == vs@.len(),
            ps == crate::metadata::package_views(vs@),
            c == opt_constraint_ref(constraint),
            i <= n,
            match best {
                Some(b) => best_in(ps.take(i as int), c) == Some(b@),
                None => best_in(ps.take(i as int), c) is None,
            },
        decreases n - i,
    {
        let p = &vs[i];
        assert(ps.take(i + 1).drop_last() =~= ps.take(i as int));
        assert(ps.take(i + 1).last() == p@);
        let ok = match constraint {
            Some(cc) => cc.matches(&p.version),
            None => true,
        };
        if ok {
            match best {
                Some(b) => {
                    if b.version.order_value(&p.version) <= 0 {
                        best = Some(p);
                    }
                },
                None => {
                    best = Some(p);
                },
            }
        }
        i = i + 1;
    }
    assert(ps.take(n as int) =~= ps);
    best
}

/// A pending request: a package name and the constraint asked of it.
pub type Request = (Seq<char>, Option<(Op, Seq<u64>)>);

/// The resolver's state: the versions chosen so far and the requests still
/// to handle (the last one is handled next).
pub struct ResolveState {
    pub resolved: ResolutionView,
    pub queue: Seq<Request>,
}

/// The outcome of one step: go on from a new state, or stop with a result.
pub enum ResolveStep {
    Continue(ResolveState),
    Finished(Result<ResolutionView, ResolveErrorView>),
}

/// The state at the start: nothing chosen, the root asked for without a
/// constraint.
pub open spec fn resolve_start(root: Seq<char>) -> ResolveState {
    ResolveState { resolved: seq![], queue: seq![(root, None)] }
}

/// One step: take the last request. Built-in packages are skipped. A
/// package already chosen must meet the request's constraint, or it is a
/// conflict. Otherwise the package must exist in the index and have a version
/// meeting the constraint; the highest such version is chosen and its
/// dependencies are queued in order.
pub open spec fn resolve_step(idx: IndexView, st: ResolveState) -> ResolveStep {
    if st.queue.len() == 0 {
        ResolveStep::Finished(Ok(st.resolved))
    } else {
        let (name, c) = st.queue.last();
        let q = st.queue.drop_last();
        if builtin_spec(name) {
            ResolveStep::Continue(ResolveState { resolved: st.resolved, queue: q })
        } else {
            match assoc_get(st.resolved, name) {
                Some(v) => if !admits_opt(c, v) {
                    ResolveStep::Finished(Err(ResolveErrorView::Conflict(name)))
                } else {
                    ResolveStep::Continue(ResolveState { resolved: st.resolved, queue: q })
                },
                None => if versions_in(idx, name).len() == 0 {
                    ResolveStep::Finished(Err(ResolveErrorView::NotFound(name)))
                } else {
                    match best_in(versions_in(idx, name), c) {
                        None => ResolveStep::Finished(Err(ResolveErrorView::Unsatisfiable(name))),
                        Some(p) => ResolveStep::Continue(
                            ResolveState {
                                resolved: sorted_insert(st.resolved, name, p.1),
                                queue: q + p.2,
                            },
                        ),
                    }
                },
            }
        }
    }
}

/// The result after at most `fuel` steps, `None` when not yet finished.
pub open spec fn resolve_run(idx: IndexView, st: ResolveState, fuel: nat) -> Option<
    Result<ResolutionView, ResolveErrorView>,
>
    decreases fuel,
{
    if fuel == 0 {
        None
    } else {
        match resolve_step(idx, st) {
            ResolveStep::Finished(r) => Some(r),
            ResolveStep::Continue(next) => resolve_run(idx, next, (fuel - 1) as nat),
        }
    }
}

/// The result of resolving `root` against the index.
pub open spec fn resolve_spec(idx: IndexView, root: Seq<char>) -> Result<
    ResolutionView,
    ResolveErrorView,
> {
    let f = choose|f: nat| resolve_run(idx, resolve_start(root), f) is Some;
    match resolve_run(idx, resolve_start(root), f) {
        Some(r) => r,
        None => Ok(seq![]),
    }
}

/// Running longer never changes a result once there is one.
pub proof fn lemma_resolve_run_deterministic(
    idx: IndexView,
    st: ResolveState,
    f1: nat,
    f2: nat,
)
    requires
        resolve_run(idx, st, f1) is Some,
        resolve_run(idx, st, f2) is Some,
    ensures
        resolve_run(idx, st, f1) == resolve_run(idx, st, f2),
    decreases f1,
{
    match resolve_step(idx, st) {
        ResolveStep::Finished(r) => {},
        ResolveStep::Continue(next) => {
            lemma_resolve_run_deterministic(idx, next, (f1 - 1) as nat, (f2 - 1) as nat);
        },
    }
}

pub open spec fn result_view(r: Result<Resolution, ResolveError>) -> Result<
    ResolutionView,
    ResolveErrorView,
> {
    match r {
        Ok(m) => Ok(m@),
        Err(e) => Err(e@),
    }
}

pub open spec fn queue_views(q: Seq<(String, Option<Constraint>)>) -> Seq<Request> {
    q.map_values(|e: (String, Option<Constraint>)| (e.0@, opt_constraint(e.1)))
}

fn copy_constraint(c: &Option<Constraint>) -> (r: Option<Constraint>)
    ensures
        opt_constraint(r) == opt_constraint(*c),
{
    match c {
        Some(c) => Some(c.clone()),
        None => None,
    }
}

proof fn lemma_resolved_bound(res: ResolutionView, idx: IndexView)
    requires
        sorted_names(res),
        assoc_keys(idx).no_duplicates(),
        forall|j: int| 0 <= j < res.len() ==> assoc_get(idx, #[trigger] res[j].0) is Some,
    ensures
        res.len() <= idx.len(),
{
    let a = assoc_keys(res);
    let b = assoc_keys(idx);
    assert(a.no_duplicates()) by {
        assert forall|i: int, j: int| 0 <= i < a.len() && 0 <= j < a.len() && i != j implies a[i]
            != a[j] by {
            if i < j {
                assert(str_lt(res[i].0, res[j].0));
                lemma_str_lt_irreflexive(res[i].0);
            } else {
                assert(str_lt(res[j].0, res[i].0));
                lemma_str_lt_irreflexive(res[j].0);
            }
        }
    }
    a.unique_seq_to_set();
    b.unique_seq_to_set();
    assert(a.to_set().subset_of(b.to_set())) by {
        assert forall|x: Seq<char>| a.to_set().contains(x) implies b.to_set().contains(x) by {
            let j = choose|j: int| 0 <= j < a.len() && a[j] == x;
            assert(assoc_get(idx, res[j].0) is Some);
            lemma_assoc_find_range(idx, x);
            assert(b[assoc_find(idx, x)] == x);
        }
    }
    vstd::set_lib::lemma_len_subset(a.to_set(), b.to_set());
}

/// Resolves `root` and everything it depends on, choosing for each package
/// the highest version that meets the first constraint met on the way.
pub fn resolve(index: &PackageIndex, root: &str) -> (r: Result<Resolution, ResolveError>)
    ensures
        result_view(r) == resolve_spec(index@, root@),
        exists|f: nat| resolve_run(index@, resolve_start(root@), f) == Some(result_view(r)),
{
    proof {
        use_type_invariant(index);
    }
    let ghost idx = index@;
    let ghost start = resolve_start(root@);
    let mut resolved = Resolution::new();
    let mut queue: Vec<(String, Option<Constraint>)> = Vec::new();
    queue.push((root.to_owned(), None));
    let ghost mut k: nat = 0;
    assert(queue_views(queue@) =~= start.queue);
    loop
        invariant
            idx == index@,
            start == resolve_start(root@),
            index.wf(),
            resolved.wf(),
            forall|j: int|
                0 <= j < resolved@.len() ==> assoc_get(idx, #[trigger] resolved@[j].0) is Some,
            forall|f: nat|
                #[trigger] resolve_run(idx, start, k + f) == resolve_run(
                    idx,
                    ResolveState { resolved: resolved@, queue: queue_views(queue@) },
                    f,
                ),
        decreases idx.len() - resolved@.len(), queue@.len(),
    {
        let ghost cur = ResolveState { resolved: resolved@, queue: queue_views(queue@) };
        proof {
            lemma_resolved_bound(resolved@, idx);
        }
        assert(resolve_run(idx, start, k + 1) == resolve_run(idx, cur, 1));
        let ghost old_queue = queue@;
        match queue.pop() {
            None => {
                assert(cur.queue.len() == 0);
                let r = Ok(resolved);
                assert(resolve_run(idx, start, k + 1) == Some(result_view(r)));
                proof {
                    let f = choose|f: nat| resolve_run(idx, start, f) is Some;
                    lemma_resolve_run_deterministic(idx, start, f, k + 1);
                }
                return r;
            },
            Some((name, constraint)) => {
                assert(queue_views(queue@) =~= cur.queue.drop_last());
                assert(cur.queue.last() == (name@, opt_constraint(constraint)));
                if is_builtin(name.as_str()) {
                    proof {
                        assert forall|f: nat| #[trigger]
                            resolve_run(idx, start, (k + 1) + f) == resolve_run(
                                idx,
                                ResolveState { resolved: resolved@, queue: queue_views(queue@) },
                                f,
                            ) by {
                            assert(resolve_run(idx, start, k + (f + 1)) == resolve_run(
                                idx,
                                cur,
                                f + 1,
                            ));
                        }
                        k = k + 1;
                    }
                    continue ;
                }
                match resolved.get(name.as_str()) {
                    Some(chosen) => {
                        let ok = match &constraint {
                            Some(c) => c.matches(chosen),
                            None => true,
                        };
                        if !ok {
                            let r = Err(ResolveError::Conflict(name));
                            assert(resolve_run(idx, start, k + 1) == Some(result_view(r)));
                            proof {
                                let f = choose|f: nat| resolve_run(idx, start, f) is Some;
                                lemma_resolve_run_deterministic(idx, start, f, k + 1);
                            }
                            return r;
                        }
                        proof {
                            assert forall|f: nat| #[trigger]
                                resolve_run(idx, start, (k + 1) + f) == resolve_run(
                                    idx,
                                    ResolveState {
                                        resolved: resolved@,
                                        queue: queue_views(queue@),
                                    },
                                    f,
                                ) by {
                                assert(resolve_run(idx, start, k + (f + 1)) == resolve_run(
                                    idx,
                                    cur,
                                    f + 1,
                                ));
                            }
                            k = k + 1;
                        }
                        continue ;
                    },
                    None => {},
                }
                if index.versions_of(name.as_str()).len() == 0 {
                    let r = Err(ResolveError::NotFound(name));
                    assert(resolve_run(idx, start, k + 1) == Some(result_view(r)));
                    proof {
                        let f = choose|f: nat| resolve_run(idx, start, f) is Some;
                        lemma_resolve_run_deterministic(idx, start, f, k + 1);
                    }
                    return r;
                }
                match best_match(index, name.as_str(), constraint.as_ref()) {
                    None => {
                        let r = Err(ResolveError::Unsatisfiable(name));
                        assert(resolve_run(idx, start, k + 1) == Some(result_view(r)));
                        proof {
                            let f = choose|f: nat| resolve_run(idx, start, f) is Some;
                            lemma_resolve_run_deterministic(idx, start, f, k + 1);
                        }
                        return r;
                    },
                    Some(pkg) => {
                        let ghost pv = pkg@;
                        let ghost before = resolved@;
                        proof {
                            lemma_resolution_insert(before, name@, pv.1, name@);
                        }
                        resolved.insert(name, pkg.version.copy());
                        let nd = pkg.depends.len();
                        let ghost q0 = queue_views(queue@);
                        let mut i: usize = 0;
                        while i < nd
                            invariant
                                nd == pkg.depends@.len(),
                                pv == pkg@,
                                i <= nd,
                                queue_views(queue@) == q0 + dep_views(pkg.depends@).take(i as int),
                            decreases nd - i,
                        {
                            let d = &pkg.depends[i];
                            let ghost qb = queue@;
                            queue.push((d.name.clone(), copy_constraint(&d.constraint)));
                            i = i + 1;
                            assert(queue_views(queue@) =~= queue_views(qb).push(
                                (d.name@, opt_constraint(d.constraint)),
                            ));
                            assert(dep_views(pkg.depends@).take(i as int) =~= dep_views(
                                pkg.depends@,
                            ).take(i - 1).push(d@));
                        }
                        assert(dep_views(pkg.depends@).take(nd as int) =~= pv.2);
                        proof {
                            assert forall|j: int|
                                0 <= j < resolved@.len() implies assoc_get(
                                idx,
                                #[trigger] resolved@[j].0,
                            ) is Some by {
                                let key = resolved@[j].0;
                                lemma_resolution_insert(before, name@, pv.1, key);
                                if key != name@ {
                                    crate::resolution::lemma_sorted_get(resolved@, key);
                                    lemma_assoc_find_range(before, key);
                                    let m = assoc_find(before, key);
                                    assert(before[m].0 == key);
                                    assert(assoc_get(idx, before[m].0) is Some);
                                } else {
                                    assert(versions_in(idx, name@).len() > 0);
                                }
                            }
                            assert forall|f: nat| #[trigger]
                                resolve_run(idx, start, (k + 1) + f) == resolve_run(
                                    idx,
                                    ResolveState {
                                        resolved: resolved@,
                                        queue: queue_views(queue@),
                                    },
                                    f,
                                ) by {
                                assert(resolve_run(idx, start, k + (f + 1)) == resolve_run(
                                    idx,
                                    cur,
                                    f + 1,
                                ));
                            }
                            k = k + 1;
                            lemma_resolved_bound(resolved@, idx);
                        }
                    },
                }
            },
        }
    }
}

/// A request is met by a resolution when it names a built-in package, or
/// the version chosen for its package meets its constraint.
pub open spec fn request_met(m: ResolutionView, d: Request) -> bool {
    ||| builtin_spec(d.0)
    ||| match assoc_get(m, d.0) {
        Some(w) => admits_opt(d.1, w),
        None => false,
    }
}

/// Every request of `ds` is met by `m`.
pub open spec fn requests_met(m: ResolutionView, ds: Seq<Request>) -> bool {
    forall|e: int| 0 <= e < ds.len() ==> request_met(m, #[trigger] ds[e])
}

/// What a successful resolution of `root` guarantees: names are sorted and
/// distinct; no built-in package is listed; the root is listed unless it is
/// built in; and every listed version is a version of that package in the
/// index whose dependencies are all met by the resolution.
pub open spec fn sound_resolution(idx: IndexView, root: Seq<char>, m: ResolutionView) -> bool {
    &&& sorted_names(m)
    &&& forall|n: Seq<char>| #[trigger] assoc_get(m, n) is Some ==> !builtin_spec(n)
    &&& request_met(m, (root, None))
    &&& forall|n: Seq<char>|
        #[trigger] assoc_get(m, n) is Some ==> exists|p: PackageView|
            #[trigger] versions_in(idx, n).contains(p) && p.1 == assoc_get(m, n).unwrap()
                && requests_met(m, p.2)
}

spec fn pending_or_met(st: ResolveState, d: Request) -> bool {
    st.queue.contains(d) || request_met(st.resolved, d)
}

spec fn entry_ok(idx: IndexView, st: ResolveState, n: Seq<char>, v: Seq<u64>) -> bool {
    exists|p: PackageView|
        #[trigger] versions_in(idx, n).contains(p) && p.1 == v && forall|e: int|
            0 <= e < p.2.len() ==> pending_or_met(st, #[trigger] p.2[e])
}

spec fn state_inv(idx: IndexView, root: Seq<char>, st: ResolveState) -> bool {
    &&& sorted_names(st.resolved)
    &&& forall|n: Seq<char>| #[trigger] assoc_get(st.resolved, n) is Some ==> !builtin_spec(n)
    &&& pending_or_met(st, (root, None))
    &&& forall|n: Seq<char>|
        #[trigger] assoc_get(st.resolved, n) is Some ==> entry_ok(
            idx,
            st,
            n,
            assoc_get(st.resolved, n).unwrap(),
        )
}

proof fn lemma_entry_transfer(
    idx: IndexView,
    a: ResolveState,
    b: ResolveState,
    n: Seq<char>,
    v: Seq<u64>,
)
    requires
        entry_ok(idx, a, n, v),
        forall|d: Request| pending_or_met(a, d) ==> #[trigger] pending_or_met(b, d),
    ensures
        entry_ok(idx, b, n, v),
{
    let p = choose|p: PackageView|
        #[trigger] versions_in(idx, n).contains(p) && p.1 == v && forall|e: int|
            0 <= e < p.2.len() ==> pending_or_met(a, #[trigger] p.2[e]);
    assert forall|e: int| 0 <= e < p.2.len() implies pending_or_met(b, #[trigger] p.2[e]) by {
        assert(pending_or_met(a, p.2[e]));
    }
}

proof fn lemma_inv_same_resolved(idx: IndexView, root: Seq<char>, a: ResolveState, b: ResolveState)
    requires
        state_inv(idx, root, a),
        b.resolved == a.resolved,
        forall|d: Request| pending_or_met(a, d) ==> #[trigger] pending_or_met(b, d),
    ensures
        state_inv(idx, root, b),
{
    assert forall|n: Seq<char>| #[trigger] assoc_get(b.resolved, n) is Some implies entry_ok(
        idx,
        b,
        n,
        assoc_get(b.resolved, n).unwrap(),
    ) by {
        lemma_entry_transfer(idx, a, b, n, assoc_get(a.resolved, n).unwrap());
    }
    assert(pending_or_met(a, (root, None)));
}

proof fn lemma_inv_insert(
    idx: IndexView,
    root: Seq<char>,
    st: ResolveState,
    p: PackageView,
)
    requires
        state_inv(idx, root, st),
        st.queue.len() > 0,
        !builtin_spec(st.queue.last().0),
        assoc_get(st.resolved, st.queue.last().0) is None,
        best_in(versions_in(idx, st.queue.last().0), st.queue.last().1) == Some(p),
    ensures
        state_inv(
            idx,
            root,
            ResolveState {
                resolved: sorted_insert(st.resolved, st.queue.last().0, p.1),
                queue: st.queue.drop_last() + p.2,
            },
        ),
{
    let (n, c) = st.queue.last();
    let q = st.queue.drop_last();
    let b = ResolveState { resolved: sorted_insert(st.resolved, n, p.1), queue: q + p.2 };
    lemma_best_in(versions_in(idx, n), c);
    lemma_resolution_insert(st.resolved, n, p.1, n);
    assert forall|d: Request| pending_or_met(st, d) implies #[trigger] pending_or_met(b, d) by {
        lemma_resolution_insert(st.resolved, n, p.1, d.0);
        if st.queue.contains(d) {
            let j = choose|j: int| 0 <= j < st.queue.len() && st.queue[j] == d;
            if j < q.len() {
                assert(b.queue[j] == d);
            }
        }
    }
    assert forall|e: int| 0 <= e < p.2.len() implies pending_or_met(b, #[trigger] p.2[e]) by {
        assert(b.queue[q.len() + e] == p.2[e]);
    }
    assert forall|x: Seq<char>| #[trigger] assoc_get(b.resolved, x) is Some implies !builtin_spec(
        x,
    ) by {
        lemma_resolution_insert(st.resolved, n, p.1, x);
    }
    assert forall|x: Seq<char>| #[trigger] assoc_get(b.resolved, x) is Some implies entry_ok(
        idx,
        b,
        x,
        assoc_get(b.resolved, x).unwrap(),
    ) by {
        lemma_resolution_insert(st.resolved, n, p.1, x);
        if x == n {
            assert(versions_in(idx, n).contains(p));
        } else {
            lemma_entry_transfer(idx, st, b, x, assoc_get(st.resolved, x).unwrap());
        }
    }
    assert(pending_or_met(st, (root, None)));
}

proof fn lemma_step_inv(idx: IndexView, root: Seq<char>, st: ResolveState)
    requires
        state_inv(idx, root, st),
    ensures
        match resolve_step(idx, st) {
            ResolveStep::Continue(next) => state_inv(idx, root, next),
            ResolveStep::Finished(Ok(m)) => sound_resolution(idx, root, m),
            ResolveStep::Finished(Err(_)) => true,
        },
{
    if st.queue.len() == 0 {
        let m = st.resolved;
        assert(request_met(m, (root, None)));
        assert forall|x: Seq<char>| #[trigger] assoc_get(m, x) is Some implies exists|
            p: PackageView,
        |
            #[trigger] versions_in(idx, x).contains(p) && p.1 == assoc_get(m, x).unwrap()
                && requests_met(m, p.2) by {
            assert(entry_ok(idx, st, x, assoc_get(m, x).unwrap()));
            let p = choose|p: PackageView|
                #[trigger] versions_in(idx, x).contains(p) && p.1 == assoc_get(m, x).unwrap()
                    && forall|e: int| 0 <= e < p.2.len() ==> pending_or_met(st, #[trigger] p.2[e]);
            assert forall|e: int| 0 <= e < p.2.len() implies request_met(m, #[trigger] p.2[e]) by {
                assert(pending_or_met(st, p.2[e]));
            }
        }
    } else {
        let (n, c) = st.queue.last();
        let q = st.queue.drop_last();
        let b = ResolveState { resolved: st.resolved, queue: q };
        if builtin_spec(n) || (assoc_get(st.resolved, n) is Some && admits_opt(
            c,
            assoc_get(st.resolved, n).unwrap(),
        )) {
            assert forall|d: Request| pending_or_met(st, d) implies #[trigger] pending_or_met(
                b,
                d,
            ) by {
                if st.queue.contains(d) {
                    let j = choose|j: int| 0 <= j < st.queue.len() && st.queue[j] == d;
                    if j < q.len() {
                        assert(b.queue[j] == d);
                    }
                }
            }
            lemma_inv_same_resolved(idx, root, st, b);
        } else if assoc_get(st.resolved, n) is None && versions_in(idx, n).len() > 0 {
            match best_in(versions_in(idx, n), c) {
                Some(p) => lemma_inv_insert(idx, root, st, p),
                None => {},
            }
        }
    }
}

proof fn lemma_run_sound(idx: IndexView, root: Seq<char>, st: ResolveState, f: nat)
    requires
        state_inv(idx, root, st),
    ensures
        resolve_run(idx, st, f) matches Some(Ok(m)) ==> sound_resolution(idx, root, m),
    decreases f,
{
    if f > 0 {
        lemma_step_inv(idx, root, st);
        match resolve_step(idx, st) {
            ResolveStep::Continue(next) => lemma_run_sound(idx, root, next, (f - 1) as nat),
            ResolveStep::Finished(_) => {},
        }
    }
}

/// A request that resolving `root` can make: the root itself, or a
/// dependency listed by some package of the index.
pub open spec fn requested(idx: IndexView, root: Seq<char>, d: Request) -> bool {
    ||| d == (root, None::<(Op, Seq<u64>)>)
    ||| exists|n: Seq<char>, p: PackageView|
        #[trigger] versions_in(idx, n).contains(p) && #[trigger] p.2.contains(d)
}

/// What a resolution error says: the package named is not built in and
/// was requested; for `NotFound` the index has no version of it; for
/// `Unsatisfiable` it has versions, none of which meets the constraint of the
/// request; for `Conflict` a version of it from the index (the one chosen)
/// fails the constraint of the request.
pub open spec fn error_explained(idx: IndexView, root: Seq<char>, e: ResolveErrorView) -> bool {
    match e {
        ResolveErrorView::NotFound(n) => {
            &&& !builtin_spec(n)
            &&& versions_in(idx, n).len() == 0
            &&& exists|c: Option<(Op, Seq<u64>)>| requested(idx, root, (n, c))
        },
        ResolveErrorView::Unsatisfiable(n) => {
            &&& !builtin_spec(n)
            &&& versions_in(idx, n).len() > 0
            &&& exists|c: Option<(Op, Seq<u64>)>|
                requested(idx, root, (n, c)) && forall|j: int|
                    0 <= j < versions_in(idx, n).len() ==> !admits_opt(
                        c,
                        #[trigger] versions_in(idx, n)[j].1,
                    )
        },
        ResolveErrorView::Conflict(n) => {
            &&& !builtin_spec(n)
            &&& exists|c: Option<(Op, Seq<u64>)>, p: PackageView|
                requested(idx, root, (n, c)) && versions_in(idx, n).contains(p) && !admits_opt(
                    c,
                    p.1,
                )
        },
    }
}

spec fn origin_inv(idx: IndexView, root: Seq<char>, st: ResolveState) -> bool {
    &&& sorted_names(st.resolved)
    &&& forall|j: int| 0 <= j < st.queue.len() ==> requested(idx, root, #[trigger] st.queue[j])
    &&& forall|n: Seq<char>|
        #[trigger] assoc_get(st.resolved, n) is Some ==> exists|p: PackageView|
            #[trigger] versions_in(idx, n).contains(p) && p.1 == assoc_get(st.resolved, n).unwrap()
}

proof fn lemma_step_origin(idx: IndexView, root: Seq<char>, st: ResolveState)
    requires
        origin_inv(idx, root, st),
    ensures
        match resolve_step(idx, st) {
            ResolveStep::Continue(next) => origin_inv(idx, root, next),
            ResolveStep::Finished(Err(e)) => error_explained(idx, root, e),
            ResolveStep::Finished(Ok(_)) => true,
        },
{
    if st.queue.len() > 0 {
        let (n, c) = st.queue.last();
        let q = st.queue.drop_last();
        assert(requested(idx, root, st.queue[st.queue.len() - 1]));
        assert forall|j: int| 0 <= j < q.len() implies requested(idx, root, #[trigger] q[j]) by {
            assert(q[j] == st.queue[j]);
        }
        if !builtin_spec(n) {
            match assoc_get(st.resolved, n) {
                Some(v) => {
                    if !admits_opt(c, v) {
                        let p = choose|p: PackageView|
                            #[trigger] versions_in(idx, n).contains(p) && p.1 == v;
                        assert(requested(idx, root, (n, c)) && versions_in(idx, n).contains(p)
                            && !admits_opt(c, p.1));
                    }
                },
                None => {
                    let vs = versions_in(idx, n);
                    if vs.len() > 0 {
                        lemma_best_in(vs, c);
                        match best_in(vs, c) {
                            None => {
                                assert(requested(idx, root, (n, c)));
                            },
                            Some(p) => {
                                let r2 = sorted_insert(st.resolved, n, p.1);
                                let q2 = q + p.2;
                                assert forall|j: int| 0 <= j < q2.len() implies requested(
                                    idx,
                                    root,
                                    #[trigger] q2[j],
                                ) by {
                                    if j < q.len() {
                                        assert(q2[j] == q[j]);
                                    } else {
                                        assert(q2[j] == p.2[j - q.len()]);
                                        assert(p.2.contains(q2[j]));
                                    }
                                }
                                lemma_resolution_insert(st.resolved, n, p.1, n);
                                assert forall|x: Seq<char>| #[trigger]
                                    assoc_get(r2, x) is Some implies exists|pp: PackageView|
                                    #[trigger] versions_in(idx, x).contains(pp) && pp.1
                                        == assoc_get(r2, x).unwrap() by {
                                    lemma_resolution_insert(st.resolved, n, p.1, x);
                                    if x == n {
                                        assert(versions_in(idx, x).contains(p));
                                    }
                                }
                            },
                        }
                    } else {
                        assert(requested(idx, root, (n, c)));
                    }
                },
            }
        }
    }
}

proof fn lemma_run_origin(idx: IndexView, root: Seq<char>, st: ResolveState, f: nat)
    requires
        origin_inv(idx, root, st),
    ensures
        resolve_run(idx, st, f) matches Some(Err(e)) ==> error_explained(idx, root, e),
    decreases f,
{
    if f > 0 {
        lemma_step_origin(idx, root, st);
        match resolve_step(idx, st) {
            ResolveStep::Continue(next) => lemma_run_origin(idx, root, next, (f - 1) as nat),
            ResolveStep::Finished(_) => {},
        }
    }
}

/// Every error that resolution reports is explained by the index and the
/// requests made (see [`error_explained`]).
pub proof fn lemma_resolve_errors(idx: IndexView, root: Seq<char>)
    requires
        assoc_keys(idx).no_duplicates(),
    ensures
        resolve_spec(idx, root) matches Err(e) ==> error_explained(idx, root, e),
{
    let st = resolve_start(root);
    assert(requested(idx, root, st.queue[0]));
    assert(origin_inv(idx, root, st));
    lemma_resolve_terminates(idx, root);
    let f = choose|f: nat| resolve_run(idx, st, f) is Some;
    lemma_run_origin(idx, root, st, f);
}

proof fn lemma_run_terminates(idx: IndexView, st: ResolveState)
    requires
        assoc_keys(idx).no_duplicates(),
        sorted_names(st.resolved),
        forall|j: int|
            0 <= j < st.resolved.len() ==> assoc_get(idx, #[trigger] st.resolved[j].0) is Some,
    ensures
        exists|f: nat| resolve_run(idx, st, f) is Some,
    decreases idx.len() - st.resolved.len(), st.queue.len(),
{
    lemma_resolved_bound(st.resolved, idx);
    match resolve_step(idx, st) {
        ResolveStep::Finished(r) => {
            assert(resolve_run(idx, st, 1) is Some);
        },
        ResolveStep::Continue(next) => {
            let (n, c) = st.queue.last();
            assert(st.queue.len() > 0);
            if !builtin_spec(n) && assoc_get(st.resolved, n) is None {
                let p = best_in(versions_in(idx, n), c).unwrap();
                assert(next.resolved == sorted_insert(st.resolved, n, p.1));
                lemma_resolution_insert(st.resolved, n, p.1, n);
                assert forall|j: int| 0 <= j < next.resolved.len() implies assoc_get(
                    idx,
                    #[trigger] next.resolved[j].0,
                ) is Some by {
                    let key = next.resolved[j].0;
                    lemma_resolution_insert(st.resolved, n, p.1, key);
                    if key != n {
                        crate::resolution::lemma_sorted_get(next.resolved, key);
                        lemma_assoc_find_range(st.resolved, key);
                        let m = assoc_find(st.resolved, key);
                        assert(st.resolved[m].0 == key);
                    }
                }
                lemma_resolved_bound(next.resolved, idx);
            } else {
                assert(next.resolved == st.resolved);
                assert(next.queue.len() == st.queue.len() - 1);
            }
            lemma_run_terminates(idx, next);
            let f = choose|f: nat| resolve_run(idx, next, f) is Some;
            assert(resolve_run(idx, st, f + 1) == resolve_run(idx, next, f));
        },
    }
}

/// Resolution against an index whose names are distinct always finishes.
pub proof fn lemma_resolve_terminates(idx: IndexView, root: Seq<char>)
    requires
        assoc_keys(idx).no_duplicates(),
    ensures
        exists|f: nat| resolve_run(idx, resolve_start(root), f) is Some,
{
    lemma_run_terminates(idx, resolve_start(root));
}

/// A successful resolution is consistent: sorted distinct names, no
/// built-in package, the root included unless built in, and every chosen
/// version a real version of its package whose dependencies the resolution
/// meets.
pub proof fn lemma_resolve_sound(idx: IndexView, root: Seq<char>)
    requires
        assoc_keys(idx).no_duplicates(),
    ensures
        resolve_spec(idx, root) matches Ok(m) ==> sound_resolution(idx, root, m),
{
    let st = resolve_start(root);
    assert(st.queue.contains((root, None))) by {
        assert(st.queue[0] == (root, None::<(Op, Seq<u64>)>));
    }
    assert(state_inv(idx, root, st));
    lemma_resolve_terminates(idx, root);
    let f = choose|f: nat| resolve_run(idx, st, f) is Some;
    lemma_run_sound(idx, root, st, f);
}

/// Every base and recommended package of R (`R`, `base`, `compiler`,
/// `datasets`, `graphics`, `grDevices`, `grid`, `methods`, `parallel`,
/// `splines`, `stats`, `stats4`, `tcltk`, `tools`, `utils`, `translations`,
/// `boot`, `class`, `cluster`, `codetools`, `foreign`, `KernSmooth`,
/// `lattice`, `MASS`, `Matrix`, `mgcv`, `nlme`, `nnet`, `rpart`, `spatial`,
/// `survival`) is built in, so resolution never asks the index for it: no
/// error of any resolution names it, and no resolution lists it.
pub proof fn lemma_shipped_packages_skipped(idx: IndexView, root: Seq<char>, n: Seq<char>)
    requires
        assoc_keys(idx).no_duplicates(),
        ({
            ||| n == "R"@
            ||| n == "base"@
            ||| n == "compiler"@
            ||| n == "datasets"@
            ||| n == "graphics"@
            ||| n == "grDevices"@
            ||| n == "grid"@
            ||| n == "methods"@
            ||| n == "parallel"@
            ||| n == "splines"@
            ||| n == "stats"@
            ||| n == "stats4"@
            ||| n == "tcltk"@
            ||| n == "tools"@
            ||| n == "utils"@
            ||| n == "translations"@
            ||| n == "boot"@
            ||| n == "class"@
            ||| n == "cluster"@
            ||| n == "codetools"@
            ||| n == "foreign"@
            ||| n == "KernSmooth"@
            ||| n == "lattice"@
            ||| n == "MASS"@
            ||| n == "Matrix"@
            ||| n == "mgcv"@
            ||| n == "nlme"@
            ||| n == "nnet"@
            ||| n == "rpart"@
            ||| n == "spatial"@
            ||| n == "survival"@
        }),
    ensures
        builtin_spec(n),
        resolve_spec(idx, root) != Err::<ResolutionView, ResolveErrorView>(
            ResolveErrorView::NotFound(n),
        ),
        resolve_spec(idx, root) != Err::<ResolutionView, ResolveErrorView>(
            ResolveErrorView::Unsatisfiable(n),
        ),
        resolve_spec(idx, root) != Err::<ResolutionView, ResolveErrorView>(
            ResolveErrorView::Conflict(n),
        ),
        resolve_spec(idx, root) matches Ok(m) ==> assoc_get(m, n) is None,
{
    lemma_resolve_errors(idx, root);
    lemma_resolve_sound(idx, root);
}

} // verus!
