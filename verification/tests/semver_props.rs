use mbss::semver::{parse_semver, parse_u64, parse_version_branch, render_semver, render_u64,
    version_branch_name, version_line};
use mbss::SemVer;

#[test]
fn parse_simple_triple() {
    assert_eq!(parse_semver("1.2.3"), Some(SemVer { major: 1, minor: 2, patch: 3 }));
}

#[test]
fn parse_beat_saber_style_versions() {
    assert_eq!(parse_semver("1.29.1"), Some(SemVer { major: 1, minor: 29, patch: 1 }));
    assert_eq!(parse_semver("0.10.2"), Some(SemVer { major: 0, minor: 10, patch: 2 }));
}

#[test]
fn parse_rejects_leading_zero() {
    assert_eq!(parse_semver("01.2.3"), None);
    assert_eq!(parse_semver("1.02.3"), None);
    assert_eq!(parse_semver("1.2.03"), None);
}

#[test]
fn parse_rejects_wrong_shape() {
    assert_eq!(parse_semver(""), None);
    assert_eq!(parse_semver("1.2"), None);
    assert_eq!(parse_semver("1.2.3.4"), None);
    assert_eq!(parse_semver("1..3"), None);
    assert_eq!(parse_semver("a.b.c"), None);
    assert_eq!(parse_semver("1.2.3-rc1"), None);
    assert_eq!(parse_semver("-1.2.3"), None);
    assert_eq!(parse_semver("1.2.3 "), None);
}

#[test]
fn parse_u64_boundaries() {
    assert_eq!(parse_u64("0"), Some(0));
    assert_eq!(parse_u64("18446744073709551615"), Some(u64::MAX));
    assert_eq!(parse_u64("18446744073709551616"), None);
    assert_eq!(parse_u64("00"), None);
    assert_eq!(parse_u64(""), None);
}

#[test]
fn render_u64_values() {
    assert_eq!(render_u64(0), "0");
    assert_eq!(render_u64(10), "10");
    assert_eq!(render_u64(18446744073709551615), "18446744073709551615");
}

#[test]
fn render_and_parse_round_trip() {
    let v = SemVer { major: 12, minor: 0, patch: 345 };
    let s = render_semver(&v);
    assert_eq!(s, "12.0.345");
    assert_eq!(parse_semver(&s), Some(v));
}

#[test]
fn branch_name_round_trip() {
    let v = SemVer { major: 1, minor: 13, patch: 2 };
    let name = version_branch_name(&v);
    assert_eq!(name, "version/1.13.2");
    assert_eq!(parse_version_branch(&name), Some(v));
}

#[test]
fn branch_name_rejects_other_refs() {
    assert_eq!(parse_version_branch("main"), None);
    assert_eq!(parse_version_branch("version/"), None);
    assert_eq!(parse_version_branch("version/abc"), None);
    assert_eq!(parse_version_branch("versions/latest"), None);
    assert_eq!(parse_version_branch("version/1.0"), None);
}

#[test]
fn version_line_is_newline_terminated() {
    let v = SemVer { major: 1, minor: 0, patch: 0 };
    assert_eq!(version_line(&v), "1.0.0\n");
}

#[test]
fn precedence_is_lexicographic() {
    let a = SemVer { major: 1, minor: 2, patch: 3 };
    let b = SemVer { major: 1, minor: 10, patch: 0 };
    let c = SemVer { major: 2, minor: 0, patch: 0 };
    assert!(a.lt(&b));
    assert!(b.lt(&c));
    assert!(!c.lt(&a));
    assert!(!a.lt(&a));
}

#[test]
fn discover_skips_and_sorts() {
    let names: Vec<String> = vec![
        "main".to_string(),
        "version/1.1.0".to_string(),
        "version/1.0.0".to_string(),
        "junk".to_string(),
        "version/0.9.0-x".to_string(),
        "versions/latest".to_string(),
    ];
    let found = mbss::discover_existing(&names);
    assert_eq!(
        found,
        vec![
            SemVer { major: 1, minor: 0, patch: 0 },
            SemVer { major: 1, minor: 1, patch: 0 },
        ]
    );
}
