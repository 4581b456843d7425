use uvr::version::Version;

#[test]
fn main_parses_dotted_version() {
    let v = Version::parse("1.2.3").unwrap();
    assert_eq!(v.parts(), &vec![1, 2, 3]);
}

#[test]
fn main_rejects_non_numeric() {
    assert!(Version::parse("1.2.x").is_none());
}

#[test]
fn main_orders_numerically_not_lexically() {
    let a = Version::parse("1.2.3").unwrap();
    let b = Version::parse("1.10.0").unwrap();
    assert!(a < b, "1.2.3 应当小于 1.10.0");
}
