use uvr::metadata::{parse, parse_dependencies, Package, PackageIndex};
use uvr::version::Version;

const SAMPLE: &str = "\
Package: A3
Version: 1.0.0
Depends: R (>= 2.15.0), xtable, pbapply
License: GPL (>= 2)

Package: aaSEA
Version: 1.1.0
Imports: DT (>= 0.4), networkD3 (>= 0.4),
        shiny (>= 1.0.5)
";

#[test]
fn parses_each_record() {
    let recs = parse(SAMPLE);
    assert_eq!(recs.len(), 2);
    assert_eq!(recs[0].get("Package").unwrap(), "A3");
    assert_eq!(recs[0].get("Version").unwrap(), "1.0.0");
    assert_eq!(recs[1].get("Package").unwrap(), "aaSEA");
}

#[test]
fn folds_continuation_lines() {
    let recs = parse(SAMPLE);
    let imports = recs[1].get("Imports").unwrap();
    assert!(imports.contains("shiny (>= 1.0.5)"));
    assert!(!imports.contains('\n'));
}

#[test]
fn ignores_trailing_blank_lines() {
    let recs = parse("Package: x\nVersion: 1.0\n\n\n");
    assert_eq!(recs.len(), 1);
}

#[test]
fn continuation_joins_with_one_space() {
    let recs = parse(SAMPLE);
    assert_eq!(
        recs[1].get("Imports").unwrap(),
        "DT (>= 0.4), networkD3 (>= 0.4), shiny (>= 1.0.5)"
    );
    assert_eq!(recs[0].get("License").unwrap(), "GPL (>= 2)");
    assert!(recs[0].get("Imports").is_none());
}

#[test]
fn later_field_replaces_earlier_and_crlf_is_handled() {
    let recs = parse("Package: a\r\nVersion: 1\r\nVersion: 2\r\nnot a field\r\n \r\nPackage: b\r\n");
    assert_eq!(recs.len(), 2);
    assert_eq!(recs[0].len(), 2);
    assert_eq!(recs[0].get("Version").unwrap(), "2");
    assert_eq!(recs[1].get("Package").unwrap(), "b");
    assert!(!recs[1].is_empty());
}

#[test]
fn empty_text_has_no_record() {
    assert!(parse("").is_empty());
    assert!(parse("\n\n  \n").is_empty());
}

#[test]
fn parses_name_and_constraint() {
    let deps = parse_dependencies("R (>= 2.15.0), xtable, pbapply (>= 1.3-2)");
    assert_eq!(deps.len(), 3);
    assert_eq!(deps[0].name, "R");
    assert!(deps[0].constraint.is_some());
    assert_eq!(deps[1].name, "xtable");
    assert!(deps[1].constraint.is_none());
    let c = deps[2].constraint.as_ref().unwrap();
    assert!(c.matches(&Version::parse("1.3.2").unwrap()));
    assert!(!c.matches(&Version::parse("1.3.1").unwrap()));
}

#[test]
fn dependency_edge_cases() {
    let deps = parse_dependencies(" , a (weird), b ), c");
    assert_eq!(deps.len(), 3);
    assert_eq!(deps[0].name, "a");
    assert!(deps[0].constraint.is_none());
    assert_eq!(deps[1].name, "b )");
    assert!(deps[1].constraint.is_none());
    assert_eq!(deps[2].name, "c");
    assert!(parse_dependencies("").is_empty());
}

#[test]
fn builds_index_with_deps() {
    let idx = PackageIndex::from_packages_file(SAMPLE);
    assert_eq!(idx.len(), 2);
    assert!(!idx.is_empty());
    let a3 = &idx.versions_of("A3")[0];
    assert_eq!(a3.version, Version::parse("1.0.0").unwrap());
    assert_eq!(a3.depends.len(), 3);
    assert!(idx.versions_of("nonexistent").is_empty());
    let aa = &idx.versions_of("aaSEA")[0];
    assert_eq!(aa.depends.len(), 3);
    assert_eq!(aa.depends[2].name, "shiny");
}

#[test]
fn index_groups_versions_in_file_order_and_skips_bad_records() {
    let idx = PackageIndex::from_packages_file(
        "Package: p\nVersion: 2.0\n\nPackage: q\nVersion: bad\n\nVersion: 1.0\n\nPackage: p\nVersion: 1.0\nLinkingTo: z\nImports: y\nDepends: x\n",
    );
    assert_eq!(idx.len(), 1);
    let ps = idx.versions_of("p");
    assert_eq!(ps.len(), 2);
    assert_eq!(ps[0].version, Version::parse("2.0").unwrap());
    assert_eq!(ps[1].version, Version::parse("1.0").unwrap());
    let names: Vec<&str> = ps[1].depends.iter().map(|d| d.name.as_str()).collect();
    assert_eq!(names, vec!["x", "y", "z"]);
    assert!(idx.versions_of("q").is_empty());
}

#[test]
fn package_from_record_needs_name_and_version() {
    let recs = parse("Package: a\nVersion: 1.0\n\nPackage: b\n\nVersion: 1\n");
    assert!(Package::from_record(&recs[0]).is_some());
    assert!(Package::from_record(&recs[1]).is_none());
    assert!(Package::from_record(&recs[2]).is_none());
}
