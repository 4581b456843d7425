use std::cmp::Ordering;
use uvr::version::{Constraint, Version};

#[test]
fn version_parses_dotted_version() {
    let v = Version::parse("1.2.3").unwrap();
    assert_eq!(v.parts(), &vec![1, 2, 3]);
}

#[test]
fn version_rejects_non_numeric() {
    assert!(Version::parse("1.2.x").is_none());
}

#[test]
fn version_orders_numerically_not_lexically() {
    let a = Version::parse("1.2.3").unwrap();
    let b = Version::parse("1.10.0").unwrap();
    assert!(a < b, "1.2.3 应当小于 1.10.0");
}

#[test]
fn trailing_zeros_are_equal() {
    assert_eq!(
        Version::parse("1.0").unwrap(),
        Version::parse("1.0.0").unwrap()
    );
}

#[test]
fn constraint_ge_matches() {
    let c = Constraint::parse(">= 1.2.0").unwrap();
    assert!(c.matches(&Version::parse("1.10.0").unwrap()));
    assert!(!c.matches(&Version::parse("1.1.9").unwrap()));
}

#[test]
fn constraint_lt_uses_zero_padding() {
    let c = Constraint::parse("< 2.0").unwrap();
    assert!(c.matches(&Version::parse("1.9.9").unwrap()));
    assert!(!c.matches(&Version::parse("2.0.0").unwrap()));
}

#[test]
fn parses_dash_separated_version() {
    let v = Version::parse("3.4-1").unwrap();
    assert_eq!(v.parts(), &vec![3, 4, 1]);
}

#[test]
fn rejects_empty_pieces_and_signs() {
    assert!(Version::parse("").is_none());
    assert!(Version::parse("1..2").is_none());
    assert!(Version::parse("1.2.").is_none());
    assert!(Version::parse("-1").is_none());
    assert!(Version::parse(" 1.2").is_none());
}

#[test]
fn accepts_plus_sign_like_u64_from_str() {
    assert_eq!(Version::parse("+1.2").unwrap().parts(), &vec![1, 2]);
    assert!(Version::parse("+.2").is_none());
}

#[test]
fn rejects_overflowing_component() {
    assert_eq!(
        Version::parse("18446744073709551615").unwrap().parts(),
        &vec![u64::MAX]
    );
    assert!(Version::parse("18446744073709551616").is_none());
}

#[test]
fn compare_orders_and_pads() {
    let a = Version::parse("1.2").unwrap();
    let b = Version::parse("1.2.0.0").unwrap();
    let c = Version::parse("1.2.0.1").unwrap();
    assert_eq!(a.compare(&b), Ordering::Equal);
    assert_eq!(a.compare(&c), Ordering::Less);
    assert_eq!(c.compare(&a), Ordering::Greater);
    assert_eq!(a.order_value(&c), -1);
    assert!(c > a);
    assert!(a <= b && a >= b);
}

#[test]
fn renders_dotted_decimal() {
    assert_eq!(Version::parse("3.4-1").unwrap().to_string(), "3.4.1");
    assert_eq!(Version::parse("007.10").unwrap().to_string(), "7.10");
    assert_eq!(Version::parse("0").unwrap().to_string(), "0");
}

#[test]
fn constraint_operators() {
    let v = Version::parse("1.2.0").unwrap();
    assert!(Constraint::parse("<= 1.2").unwrap().matches(&v));
    assert!(!Constraint::parse("< 1.2").unwrap().matches(&v));
    assert!(Constraint::parse("== 1.2.0.0").unwrap().matches(&v));
    assert!(Constraint::parse("= 1.2").unwrap().matches(&v));
    assert!(Constraint::parse("> 1.1.99").unwrap().matches(&v));
    assert!(!Constraint::parse(">1.2").unwrap().matches(&v));
    assert!(Constraint::parse("  >=1.0  ").unwrap().matches(&v));
}

#[test]
fn constraint_rejects_malformed() {
    assert!(Constraint::parse("1.2.0").is_none());
    assert!(Constraint::parse("~> 1.2").is_none());
    assert!(Constraint::parse(">= x").is_none());
    assert!(Constraint::parse("").is_none());
}
