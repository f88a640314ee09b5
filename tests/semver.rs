use nosman::semver::SemVer;
use std::cmp::Ordering;

fn v(s: &str) -> SemVer {
    SemVer::parse_from_string(s).unwrap()
}

#[test]
fn parse_full_version_with_build_prefix() {
    let x = v("1.2.3.b4");
    assert_eq!(x.major, 1);
    assert_eq!(x.minor, Some(2));
    assert_eq!(x.patch, Some(3));
    assert_eq!(x.build_number, Some(4));
}

#[test]
fn parse_numeric_build() {
    let x = v("1.2.3.4");
    assert_eq!(x.build_number, Some(4));
    assert_eq!(x, v("1.2.3.b4"));
}

#[test]
fn parse_partial_versions() {
    let x = v("1.2");
    assert_eq!((x.major, x.minor, x.patch, x.build_number), (1, Some(2), None, None));
    let y = v("7");
    assert_eq!((y.major, y.minor, y.patch, y.build_number), (7, None, None, None));
}

#[test]
fn parse_rejects_bad_major() {
    assert!(SemVer::parse_from_string("x.y.z").is_none());
    assert!(SemVer::parse_from_string("").is_none());
    assert!(SemVer::parse_from_string(".1").is_none());
    assert!(SemVer::parse_from_string("4294967296").is_none());
}

#[test]
fn parse_treats_unreadable_parts_as_absent() {
    let x = v("1.x.3");
    assert_eq!((x.major, x.minor, x.patch, x.build_number), (1, None, Some(3), None));
    let y = v("2.0.0.beta");
    assert_eq!(y.build_number, None);
    assert_eq!(v("4294967295").major, u32::MAX);
}

#[test]
fn round_trip_of_normalized_forms() {
    for s in ["1", "1.2", "1.2.3", "1.2.3.b4", "0.0.0.b0", "10.20.30.b40"] {
        assert_eq!(v(s).to_string(), s);
    }
}

#[test]
fn numeric_build_is_written_with_prefix() {
    assert_eq!(v("1.2.3.4").to_string(), "1.2.3.b4");
}

#[test]
fn ordering_by_parts() {
    assert_eq!(v("1.2.3").partial_cmp(&v("1.2.4")), Some(Ordering::Less));
    assert_eq!(v("2.0").partial_cmp(&v("1.9.9")), Some(Ordering::Greater));
    assert!(v("1.2") < v("1.2.0"));
    assert_eq!(v("1.2.3.b1").compare_to(&v("1.2.3.b2")), Ordering::Less);
    assert_eq!(v("1.2.3").compare_to(&v("1.2.3.b9")), Ordering::Less);
    assert_eq!(v("1.2.3.b9").compare_to(&v("1.2.3")), Ordering::Greater);
    assert_eq!(v("1.2.3.b9").compare_to(&v("1.2.3.9")), Ordering::Equal);
}

#[test]
fn one_up_bounds() {
    assert_eq!(v("1.2").get_one_up().to_string(), "1.3");
    assert_eq!(v("1.2.3").get_one_up().to_string(), "1.2.4");
    assert_eq!(v("1.2.3.b4").get_one_up().to_string(), "1.2.3.b5");
    assert_eq!(v("1.2").upper_minor().to_string(), "1.3");
    assert_eq!(v("1.2.7").upper_patch().to_string(), "1.2.8");
    assert_eq!(v("1.2.7.b1").upper_build().to_string(), "1.2.7.b2");
}

#[test]
fn range_is_half_open() {
    let start = v("1.2");
    let end = start.get_one_up();
    for s in ["1.2.0", "1.2.5", "1.2.999.b3", "1.2"] {
        assert!(end > v(s), "{s}");
        assert!(v(s).is_within(&start, &end), "{s}");
    }
    assert!(!(end > v("1.3.0")));
    assert!(!v("1.3.0").is_within(&start, &end));
    assert!(!v("1.1.9").is_within(&start, &end));
}

#[test]
fn satisfies_requested_version_checks_major_and_minor() {
    assert!(v("1.4").satisfies_requested_version(&v("1.2")));
    assert!(v("1.2.9").satisfies_requested_version(&v("1.2")));
    assert!(!v("1.1").satisfies_requested_version(&v("1.2")));
    assert!(!v("2.5").satisfies_requested_version(&v("1.2")));
    assert!(v("1").satisfies_requested_version(&v("1")));
}
