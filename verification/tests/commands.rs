use uvr::commands::lock_from_packages;
use uvr::resolver::ResolveError;

const PACKAGES: &str = "\
Package: pkgA
Version: 1.0.0

Package: pkgA
Version: 1.2.0

Package: pkgB
Version: 2.0.0
Depends: R (>= 3.0.0), pkgA (>= 1.1.0)
";

#[test]
fn locks_package_and_deps() {
    let text = lock_from_packages(PACKAGES, &["pkgB".to_string()]).unwrap();
    assert!(text.contains("pkgB 2.0.0"));
    assert!(text.contains("pkgA 1.2.0"));
}

#[test]
fn propagates_resolve_error() {
    let pkgs = "Package: x\nVersion: 1.0\nDepends: nope (>= 1.0)\n";
    assert!(lock_from_packages(pkgs, &["x".to_string()]).is_err());
}

#[test]
fn locks_exact_text_for_several_roots() {
    let text = lock_from_packages(PACKAGES, &["pkgB".to_string(), "pkgA".to_string()]).unwrap();
    assert_eq!(text, "# uvr lockfile v1\npkgA 1.2.0\npkgB 2.0.0\n");
    assert_eq!(lock_from_packages(PACKAGES, &[]).unwrap(), "# uvr lockfile v1\n");
}

#[test]
fn first_error_wins() {
    assert_eq!(
        lock_from_packages(PACKAGES, &["pkgB".to_string(), "a".to_string(), "b".to_string()]),
        Err(ResolveError::NotFound("a".to_string()))
    );
}
