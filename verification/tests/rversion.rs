use uvr::rversion::parse_r_version;
use uvr::version::Version;

#[test]
fn parses_real_first_line() {
    let line = r#"R version 4.5.2 (2025-10-31) -- "[Not] Part in a Rumble""#;
    assert_eq!(parse_r_version(line), Version::parse("4.5.2"));
}

#[test]
fn takes_version_not_the_date() {
    let v = parse_r_version("R version 4.5.2 (2025-10-31) -- x").unwrap();
    assert_eq!(v, Version::parse("4.5.2").unwrap());
    assert_ne!(v, Version::parse("2025.10.31").unwrap());
}

#[test]
fn parses_bare_version() {
    assert_eq!(parse_r_version("R version 3.6.1"), Version::parse("3.6.1"));
}

#[test]
fn none_when_no_version_word() {
    assert_eq!(parse_r_version("R Under development (unstable)"), None);
    assert_eq!(parse_r_version("totally unrelated text"), None);
}

#[test]
fn strips_trailing_punctuation_and_handles_edges() {
    assert_eq!(parse_r_version("x version 4.1,)"), Version::parse("4.1"));
    assert_eq!(parse_r_version("R version"), None);
    assert_eq!(parse_r_version("R version abc"), None);
    assert_eq!(parse_r_version("\tversion\n 1.0 version 2.0"), Version::parse("1.0"));
}
