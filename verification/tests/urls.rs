use std::path::Path;
use uvr::cache::{cache_key, cache_path};
use uvr::fetch::{packages_url, FetchError};
use uvr::install::tarball_url;

#[test]
fn cache_path_is_deterministic_and_safe() {
    let dir = Path::new("/tmp/uvr-cache");
    let p1 = cache_path(dir, "https://x.dev/src/contrib/PACKAGES");
    let p2 = cache_path(dir, "https://x.dev/src/contrib/PACKAGES");
    assert_eq!(p1, p2);
    let name = p1.file_name().unwrap().to_str().unwrap();
    assert!(name.chars().all(|c| c.is_ascii_alphanumeric() || c == '_'));
}

#[test]
fn cache_key_replaces_non_alphanumerics() {
    assert_eq!(cache_key("https://x.dev/a_b"), "https___x_dev_a_b");
    assert_eq!(cache_key("é9Z"), "_9Z");
    assert_eq!(
        cache_path(Path::new("/c"), "u://k"),
        Path::new("/c").join("u___k")
    );
}

#[test]
fn builds_packages_url() {
    assert_eq!(
        packages_url("https://jeroen.r-universe.dev"),
        "https://jeroen.r-universe.dev/src/contrib/PACKAGES"
    );
    assert_eq!(
        packages_url("https://x.dev/"),
        "https://x.dev/src/contrib/PACKAGES"
    );
    assert_eq!(
        packages_url("https://x.dev///"),
        "https://x.dev/src/contrib/PACKAGES"
    );
}

#[test]
fn builds_tarball_url() {
    assert_eq!(
        tarball_url("https://cran.r-project.org/", "praise", "1.0.0"),
        "https://cran.r-project.org/src/contrib/praise_1.0.0.tar.gz"
    );
}

#[test]
fn fetch_error_keeps_its_message() {
    let e = FetchError("boom".to_string());
    assert_eq!(e.message(), "boom");
}
