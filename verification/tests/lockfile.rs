use uvr::lockfile::{parse, render};
use uvr::resolution::Resolution;
use uvr::version::Version;

fn resolution() -> Resolution {
    let mut res = Resolution::new();
    res.insert("pkgB".to_string(), Version::parse("2.0.0").unwrap());
    res.insert("pkgA".to_string(), Version::parse("1.2.0").unwrap());
    res
}

#[test]
fn round_trips() {
    let res = resolution();
    let text = render(&res);
    assert!(text.starts_with("# uvr lockfile v1"));
    assert!(text.contains("pkgA 1.2.0"));
    let back = parse(&text).unwrap();
    assert_eq!(back, res);
}

#[test]
fn rejects_malformed_line() {
    assert!(parse("# uvr lockfile v1\nbadlineWithoutVersion\n").is_none());
}

#[test]
fn renders_sorted_exact_text() {
    assert_eq!(
        render(&resolution()),
        "# uvr lockfile v1\npkgA 1.2.0\npkgB 2.0.0\n"
    );
    assert_eq!(render(&Resolution::new()), "# uvr lockfile v1\n");
}

#[test]
fn parse_skips_comments_and_blank_lines_and_rejects_bad_versions() {
    let m = parse("\n  # note\n  pkgA 1.2  \n\npkgA 1.3\n").unwrap();
    assert_eq!(m.len(), 1);
    assert_eq!(m.get("pkgA").unwrap(), &Version::parse("1.3").unwrap());
    assert!(parse("pkgA 1.x\n").is_none());
    assert!(parse("pkgA  1.2\n").is_none());
    assert!(parse("").unwrap().is_empty());
}

#[test]
fn resolution_insert_replaces_and_sorts() {
    let mut res = resolution();
    res.insert("a".to_string(), Version::parse("9").unwrap());
    res.insert("pkgA".to_string(), Version::parse("1.5").unwrap());
    let names: Vec<&str> = res.entries().iter().map(|e| e.0.as_str()).collect();
    assert_eq!(names, vec!["a", "pkgA", "pkgB"]);
    assert_eq!(res.get("pkgA").unwrap(), &Version::parse("1.5").unwrap());
    assert!(res.get("zzz").is_none());
    let mut other = Resolution::new();
    other.insert("pkgB".to_string(), Version::parse("3").unwrap());
    res.extend(&other);
    assert_eq!(res.get("pkgB").unwrap(), &Version::parse("3").unwrap());
    assert_eq!(res.len(), 3);
}
