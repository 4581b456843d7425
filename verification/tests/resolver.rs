use uvr::metadata::PackageIndex;
use uvr::resolver::{best_match, is_builtin, resolve, ResolveError};
use uvr::version::{Constraint, Version};

const SAMPLE: &str = "\
Package: pkgA
Version: 1.0.0

Package: pkgA
Version: 1.2.0

Package: pkgB
Version: 2.0.0
Depends: R (>= 3.0.0), pkgA (>= 1.1.0)
";

fn index() -> PackageIndex {
    PackageIndex::from_packages_file(SAMPLE)
}

#[test]
fn picks_highest_when_unconstrained() {
    let idx = index();
    let p = best_match(&idx, "pkgA", None).unwrap();
    assert_eq!(p.version, Version::parse("1.2.0").unwrap());
}

#[test]
fn respects_constraint() {
    let idx = index();
    let c = Constraint::parse("< 1.1.0").unwrap();
    let p = best_match(&idx, "pkgA", Some(&c)).unwrap();
    assert_eq!(p.version, Version::parse("1.0.0").unwrap());
}

#[test]
fn none_when_missing_or_unsatisfiable() {
    let idx = index();
    assert!(best_match(&idx, "missing", None).is_none());
    let c = Constraint::parse(">= 9.0").unwrap();
    assert!(best_match(&idx, "pkgA", Some(&c)).is_none());
}

#[test]
fn resolves_transitive_deps() {
    let idx = index();
    let res = resolve(&idx, "pkgB").unwrap();
    assert_eq!(res.get("pkgB").unwrap(), &Version::parse("2.0.0").unwrap());
    assert_eq!(res.get("pkgA").unwrap(), &Version::parse("1.2.0").unwrap());
    assert!(!res.contains_key("R"));
}

#[test]
fn skips_builtin_packages() {
    let idx = PackageIndex::from_packages_file(
        "Package: pkgB\nVersion: 2.0.0\nDepends: R (>= 3.0.0), utils, methods\n",
    );
    let res = resolve(&idx, "pkgB").unwrap();
    assert!(!res.contains_key("utils"));
    assert!(!res.contains_key("methods"));
    assert_eq!(res.get("pkgB").unwrap(), &Version::parse("2.0.0").unwrap());
}

#[test]
fn missing_dependency_is_not_found() {
    let idx =
        PackageIndex::from_packages_file("Package: x\nVersion: 1.0\nDepends: nope (>= 1.0)\n");
    assert_eq!(
        resolve(&idx, "x"),
        Err(ResolveError::NotFound("nope".to_string()))
    );
}

const CONFLICT_SAMPLE: &str = "\
Package: pkgA
Version: 1.0.0

Package: pkgA
Version: 1.2.0

Package: low
Version: 1.0.0
Depends: pkgA (< 1.1.0)

Package: high
Version: 1.0.0
Depends: pkgA (>= 1.2.0)

Package: root
Version: 1.0.0
Depends: low, high
";

#[test]
fn detects_version_conflict() {
    let idx = PackageIndex::from_packages_file(CONFLICT_SAMPLE);
    assert_eq!(
        resolve(&idx, "root"),
        Err(ResolveError::Conflict("pkgA".to_string()))
    );
}

#[test]
fn unsatisfiable_constraint_is_reported() {
    let idx = PackageIndex::from_packages_file(
        "Package: a\nVersion: 1.0\nDepends: b (>= 5)\n\nPackage: b\nVersion: 1.0\n",
    );
    assert_eq!(
        resolve(&idx, "a"),
        Err(ResolveError::Unsatisfiable("b".to_string()))
    );
}

#[test]
fn root_not_in_index_is_not_found_and_builtin_root_is_empty() {
    let idx = index();
    assert_eq!(
        resolve(&idx, "zzz"),
        Err(ResolveError::NotFound("zzz".to_string()))
    );
    assert!(resolve(&idx, "utils").unwrap().is_empty());
}

#[test]
fn shared_dependency_resolved_once_in_name_order() {
    let idx = PackageIndex::from_packages_file(
        "Package: top\nVersion: 1\nDepends: b, a\n\nPackage: a\nVersion: 1\nDepends: c (>= 2)\n\nPackage: b\nVersion: 3\nImports: c\n\nPackage: c\nVersion: 2\n\nPackage: c\nVersion: 1\n",
    );
    let res = resolve(&idx, "top").unwrap();
    let names: Vec<&str> = res.entries().iter().map(|e| e.0.as_str()).collect();
    assert_eq!(names, vec!["a", "b", "c", "top"]);
    assert_eq!(res.get("c").unwrap(), &Version::parse("2").unwrap());
    assert_eq!(res.len(), 4);
}

#[test]
fn ties_pick_the_later_entry() {
    let idx = PackageIndex::from_packages_file(
        "Package: t\nVersion: 1.0\nDepends: first\n\nPackage: t\nVersion: 1.0.0\nDepends: second\n",
    );
    let p = best_match(&idx, "t", None).unwrap();
    assert_eq!(p.depends[0].name, "second");
}

#[test]
fn knows_builtin_packages() {
    for n in ["R", "base", "utils", "methods", "stats", "Matrix", "survival", "translations"] {
        assert!(is_builtin(n), "{n}");
    }
    for n in ["pkgA", "r", "matrix", "", "jsonlite"] {
        assert!(!is_builtin(n), "{n}");
    }
}
