use chrome_extension_cleaner::version::{split_dir_name, ChromeVersion};

#[test]
fn parses_valid_versions() {
    assert!(ChromeVersion::parse("1").is_some());
    assert!(ChromeVersion::parse("5.5.2.13").is_some());
    assert!(ChromeVersion::parse("0.0.0.0").is_some());
    assert!(ChromeVersion::parse("65535.65535.65535.65535").is_some());
}

#[test]
fn rejects_invalid_versions() {
    for bad in [
        "",
        "1.2.3.4.5",
        "1..2",
        "1.a.2",
        "65536",
        "01.2",
        " 1.2",
        "-1",
    ] {
        assert!(ChromeVersion::parse(bad).is_none(), "input: {bad:?}");
    }
}

#[test]
fn orders_numerically_not_lexically() {
    let v = |s: &str| ChromeVersion::parse(s).unwrap();
    assert!(v("5.5.2.9") < v("5.5.2.13"));
    assert!(v("1.99.2") > v("1.99"));
    assert!(v("14.1326.0") > v("14.1325.0"));
    assert_eq!(v("1.0"), v("1.0.0"));
}

#[test]
fn splits_dir_names() {
    assert!(split_dir_name("5.5.2.13_0").is_some());
    assert!(split_dir_name("1.99_12").is_some());
    assert!(split_dir_name("Temp").is_none());
    assert!(split_dir_name(".DS_Store").is_none());
    assert!(split_dir_name("5.5.2.13").is_none());
    assert!(split_dir_name("5.5.2.13_").is_none());
    assert!(split_dir_name("abc_0").is_none());
}

#[test]
fn parse_fills_missing_segments_with_zero() {
    let v = ChromeVersion::parse("5.5").unwrap();
    assert_eq!(v, ChromeVersion { p0: 5, p1: 5, p2: 0, p3: 0 });
    let w = ChromeVersion::parse("5.5.2.13").unwrap();
    assert_eq!(w, ChromeVersion { p0: 5, p1: 5, p2: 2, p3: 13 });
}

#[test]
fn split_dir_name_yields_version_and_suffix() {
    let (v, n) = split_dir_name("1.99_12").unwrap();
    assert_eq!(v, ChromeVersion { p0: 1, p1: 99, p2: 0, p3: 0 });
    assert_eq!(n, 12);
    assert!(split_dir_name("1.0_4294967296").is_none());
    assert!(split_dir_name("1.0_+1").is_none());
}

#[test]
fn version_order_is_total_on_examples() {
    let a = ChromeVersion::parse("2.0").unwrap();
    let b = ChromeVersion::parse("2.0.0.1").unwrap();
    assert!(a.is_older_than(&b));
    assert!(!b.is_older_than(&a));
    assert!(!a.same_as(&b));
    assert!(a.same_as(&ChromeVersion::parse("2").unwrap()));
    assert_eq!(a.partial_cmp(&b), Some(std::cmp::Ordering::Less));
    assert_eq!(b.partial_cmp(&a), Some(std::cmp::Ordering::Greater));
    assert_eq!(a.partial_cmp(&a), Some(std::cmp::Ordering::Equal));
}

#[test]
fn trailing_zero_segment_names_same_version() {
    assert_eq!(ChromeVersion::parse("7.1").unwrap(), ChromeVersion::parse("7.1.0").unwrap());
    assert_eq!(ChromeVersion::parse("7.1.0").unwrap(), ChromeVersion::parse("7.1.0.0").unwrap());
}

#[test]
fn total_order_agrees_with_partial_order() {
    let a = ChromeVersion::parse("1.2.3").unwrap();
    let b = ChromeVersion::parse("1.10").unwrap();
    assert_eq!(a.cmp(&b), std::cmp::Ordering::Less);
    assert_eq!(std::cmp::max(a, b), b);
    let mut vs = vec![b, a, ChromeVersion::parse("0.9").unwrap()];
    vs.sort();
    assert_eq!(vs, vec![ChromeVersion::parse("0.9").unwrap(), a, b]);
}

#[test]
fn split_dir_name_splits_at_last_underscore() {
    let (v, n) = split_dir_name("1.2.3_007").unwrap();
    assert_eq!(v, ChromeVersion { p0: 1, p1: 2, p2: 3, p3: 0 });
    assert_eq!(n, 7);
    assert_eq!(split_dir_name("1.0_4294967295").map(|p| p.1), Some(4294967295));
    assert!(split_dir_name("1.2_3_4").is_none());
    assert!(split_dir_name("_5").is_none());
}
