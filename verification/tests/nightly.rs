use nightly_resolver::nightly::{
    nightly_tag, nightly_tag_on, nightly_version, nightly_version_on, Args, Version,
};

fn version(major: u64, minor: u64, patch: u64, pre: &str, build: &str) -> Version {
    Version { major, minor, patch, pre: pre.to_string(), build: build.to_string() }
}

#[test]
fn tag_of_a_day_pads_month_and_day() {
    assert_eq!(nightly_tag_on(2023, 1, 5), "nightly-2023-01-05");
    assert_eq!(nightly_tag_on(2024, 12, 31), "nightly-2024-12-31");
    assert_eq!(nightly_tag_on(2024, 10, 9), "nightly-2024-10-09");
}

#[test]
fn tag_of_a_day_keeps_short_and_negative_years() {
    assert_eq!(nightly_tag_on(1, 2, 3), "nightly-1-02-03");
    assert_eq!(nightly_tag_on(0, 1, 1), "nightly-0-01-01");
    assert_eq!(nightly_tag_on(-44, 3, 15), "nightly--44-03-15");
    assert_eq!(nightly_tag_on(i32::MIN, 1, 1), "nightly--2147483648-01-01");
    assert_eq!(nightly_tag_on(i32::MAX, 1, 1), "nightly-2147483647-01-01");
}

#[test]
fn tag_of_a_day_matches_the_formatting_of_std() {
    for (y, m, d) in [(2019, 1, 1), (2000, 2, 29), (99999, 11, 30), (-5, 7, 4), (2024, 255, 100)] {
        assert_eq!(nightly_tag_on(y, m, d), format!("nightly-{}-{:0>2}-{:0>2}", y, m, d));
    }
}

#[test]
fn tag_of_today_has_the_shape_of_a_tag() {
    let tag = nightly_tag();
    assert!(tag.starts_with("nightly-"));
    let parts: Vec<&str> = tag["nightly-".len()..].rsplitn(3, '-').collect();
    assert_eq!(parts.len(), 3);
    let day: u8 = parts[0].parse().unwrap();
    let month: u8 = parts[1].parse().unwrap();
    let year: i32 = parts[2].parse().unwrap();
    assert_eq!(parts[0].len(), 2);
    assert_eq!(parts[1].len(), 2);
    assert!((1..=31).contains(&day));
    assert!((1..=12).contains(&month));
    assert!(year >= 2019);
    assert_eq!(tag, nightly_tag_on(year, month, day));
}

#[test]
fn version_of_a_day_drops_the_pre_release_and_sets_the_build() {
    let v = nightly_version_on(version(2, 4, 0, "rc.1", "old"), 2023, 1, 5);
    assert_eq!((v.major, v.minor, v.patch), (2, 4, 0));
    assert_eq!(v.pre, "");
    assert_eq!(v.build, "nightly-2023-01-05");
}

#[test]
fn version_of_a_day_is_a_semantic_version() {
    let v = nightly_version_on(version(1, 0, 7, "", ""), 2024, 2, 29);
    let text = format!("{}.{}.{}+{}", v.major, v.minor, v.patch, v.build);
    let parsed = semver::Version::parse(&text).unwrap();
    assert_eq!(parsed.build.as_str(), "nightly-2024-02-29");
    assert!(parsed.pre.is_empty());
    assert_eq!(parsed.to_string(), "1.0.7+nightly-2024-02-29");
}

#[test]
fn version_of_today_carries_the_tag_of_today() {
    let before = nightly_tag();
    let v = nightly_version(version(3, 1, 4, "alpha", ""));
    let after = nightly_tag();
    assert_eq!((v.major, v.minor, v.patch), (3, 1, 4));
    assert_eq!(v.pre, "");
    assert!(v.build == before || v.build == after);
}

#[test]
fn args_hold_the_tag_switch() {
    let args = Args { tag: true };
    assert!(args.tag);
    assert!(!Args { tag: false }.tag);
}
