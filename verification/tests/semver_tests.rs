use increment_version::semver::{bump, update_available, BumpRequest, Version, VersionError};

#[test]
fn parse_plain_version() {
    let v = Version::from_str("1.2.3").unwrap();
    assert_eq!(v.major, 1);
    assert_eq!(v.minor, 2);
    assert_eq!(v.patch, 3);
    assert!(v.prerelease.is_none());
    assert!(v.build_metadata.is_none());
}

#[test]
fn parse_full_version() {
    let v = Version::from_str("1.9.0-beta.1+build.5").unwrap();
    assert_eq!(v.major, 1);
    assert_eq!(v.minor, 9);
    assert_eq!(v.patch, 0);
    assert_eq!(v.prerelease.as_deref(), Some("beta.1"));
    assert_eq!(v.build_metadata.as_deref(), Some("build.5"));
}

#[test]
fn parse_strips_single_leading_v() {
    let v = Version::from_str("v1.2.3").unwrap();
    assert_eq!(v.serialize(), "1.2.3");
}

#[test]
fn round_trip_serialization() {
    for s in [
        "0.0.0",
        "1.2.3",
        "10.20.30",
        "1.0.0-alpha",
        "1.0.0-alpha.1",
        "1.0.0-0.3.7",
        "1.0.0-x-y-z.--",
        "1.0.0+20130313144700",
        "1.0.0-beta+exp.sha.5114f85",
        "1.2.3-0",
        "1.2.3-alpha-1",
        "0.0.4",
        "18446744073709551615.0.0",
    ] {
        let v = Version::from_str(s).unwrap();
        assert_eq!(v.serialize(), s);
    }
}

#[test]
fn serialize_of_constructed_version() {
    let v = Version {
        major: 1,
        minor: 0,
        patch: 0,
        prerelease: Some("rc.1".to_string()),
        build_metadata: None,
    };
    assert_eq!(v.serialize(), "1.0.0-rc.1");
    let w = Version {
        major: 0,
        minor: 7,
        patch: 21,
        prerelease: None,
        build_metadata: Some("sha.abc".to_string()),
    };
    assert_eq!(w.serialize(), "0.7.21+sha.abc");
}

#[test]
fn rejects_malformed_versions() {
    for s in [
        "",
        "1",
        "1.2",
        "1.2.3.4",
        "01.2.3",
        "1.02.3",
        "1.2.03",
        "1.2.3-",
        "1.2.3+",
        "1.2.3-01",
        "1.2.3-alpha..1",
        "1.2.3+a..b",
        "1.2.3-b!",
        " 1.2.3",
        "1.2.3 ",
        "a.b.c",
        "1.2.x",
    ] {
        assert_eq!(
            Version::from_str(s).unwrap_err(),
            VersionError::InvalidVersionFormat,
            "accepted {:?}",
            s
        );
    }
}

#[test]
fn rejects_numeric_overflow() {
    // one more than the largest representable major component
    let r = Version::from_str("18446744073709551616.0.0");
    assert_eq!(r.unwrap_err(), VersionError::InvalidVersionFormat);
}

#[test]
fn patch_bump_increments_patch() {
    let v = Version::from_str("1.2.3").unwrap();
    let n = bump(&v, &BumpRequest::Patch).unwrap();
    assert_eq!(n.serialize(), "1.2.4");
}

#[test]
fn major_bump_resets_lower_components() {
    let v = Version::from_str("1.2.3").unwrap();
    let n = bump(&v, &BumpRequest::Major).unwrap();
    assert_eq!(n.serialize(), "2.0.0");
}

#[test]
fn minor_bump_drops_prerelease() {
    let v = Version::from_str("1.9.0-beta.1").unwrap();
    let n = bump(&v, &BumpRequest::Minor).unwrap();
    assert_eq!(n.serialize(), "1.10.0");
}

#[test]
fn custom_bump_ignores_current() {
    let v = Version::from_str("0.0.1").unwrap();
    let c = Version::from_str("3.0.0+build.5").unwrap();
    let n = bump(&v, &BumpRequest::Custom(c)).unwrap();
    assert_eq!(n.serialize(), "3.0.0+build.5");
}

#[test]
fn bump_overflow_is_reported() {
    let v = Version::from_str("18446744073709551615.0.0").unwrap();
    assert_eq!(
        bump(&v, &BumpRequest::Major).unwrap_err(),
        VersionError::VersionOverflow
    );
    let w = Version::from_str("0.18446744073709551615.0").unwrap();
    assert_eq!(
        bump(&w, &BumpRequest::Minor).unwrap_err(),
        VersionError::VersionOverflow
    );
    let u = Version::from_str("0.0.18446744073709551615").unwrap();
    assert_eq!(
        bump(&u, &BumpRequest::Patch).unwrap_err(),
        VersionError::VersionOverflow
    );
}

#[test]
fn bump_clears_qualifiers() {
    let v = Version::from_str("2.3.4-rc.1+meta").unwrap();
    let n = bump(&v, &BumpRequest::Patch).unwrap();
    assert_eq!(n.serialize(), "2.3.5");
    assert!(n.prerelease.is_none());
    assert!(n.build_metadata.is_none());
}

#[test]
fn equality_includes_build_metadata() {
    let a = Version::from_str("1.0.0+a").unwrap();
    let b = Version::from_str("1.0.0+b").unwrap();
    let c = Version::from_str("1.0.0+a").unwrap();
    assert!(a != b);
    assert!(a == c);
}

#[test]
fn newer_compares_patch_before_major() {
    // the deliberate, narrow tie-break order of the self-update check
    let a = Version::from_str("2.0.0").unwrap();
    let b = Version::from_str("1.0.1").unwrap();
    assert!(a.newer(&b));
    assert!(b.newer(&a));
    let c = Version::from_str("1.2.3").unwrap();
    assert!(!c.newer(&c));
}

#[test]
fn update_prompt_decision() {
    let cur = Version::from_str("1.2.3").unwrap();
    let same = Version::from_str("1.2.3").unwrap();
    let newer = Version::from_str("1.2.4").unwrap();
    let rebuilt = Version::from_str("1.2.3+nightly").unwrap();
    assert!(!update_available(&cur, &same));
    assert!(update_available(&cur, &newer));
    assert!(update_available(&cur, &rebuilt));
}
