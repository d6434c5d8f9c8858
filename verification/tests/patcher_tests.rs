use increment_version::patcher::{apply_bump, patch_version_line};
use increment_version::semver::{BumpRequest, Version, VersionError};

#[test]
fn patch_replaces_first_version_line_only() {
    let text = "[package]\nname = \"demo\"\nversion = \"1.0.0\"\nversion-note = \"keep me\"\n";
    let (new_text, new_version) = apply_bump(text, &BumpRequest::Patch).unwrap();
    assert_eq!(new_version, "1.0.1");
    assert_eq!(
        new_text,
        "[package]\nname = \"demo\"\nversion = \"1.0.1\"\nversion-note = \"keep me\"\n"
    );
}

#[test]
fn patch_preserves_every_other_line() {
    let text = "# a comment\n[package]\nname = \"demo\"\nversion = \"0.1.0\"\n\n[dependencies]\nfoo = \"1\"\n";
    let (new_text, new_version) = apply_bump(text, &BumpRequest::Minor).unwrap();
    assert_eq!(new_version, "0.2.0");
    assert_eq!(
        new_text,
        "# a comment\n[package]\nname = \"demo\"\nversion = \"0.2.0\"\n\n[dependencies]\nfoo = \"1\"\n"
    );
}

#[test]
fn apply_bump_is_idempotent_on_its_own_output() {
    let text = "[package]\nname = \"demo\"\nversion = \"1.2.3\"\nversion-note = \"x\"\n";
    let (once, v1) = apply_bump(text, &BumpRequest::Patch).unwrap();
    assert_eq!(v1, "1.2.4");
    let (twice, v2) = apply_bump(&once, &BumpRequest::Patch).unwrap();
    assert_eq!(v2, "1.2.5");
    // the same single line was replaced again, nothing duplicated or moved
    assert_eq!(
        twice,
        "[package]\nname = \"demo\"\nversion = \"1.2.5\"\nversion-note = \"x\"\n"
    );
}

#[test]
fn apply_bump_custom_ignores_current() {
    let text = "[package]\nversion = \"0.0.1\"\n";
    let custom = Version::from_str("3.0.0+build.5").unwrap();
    let (new_text, new_version) = apply_bump(text, &BumpRequest::Custom(custom)).unwrap();
    assert_eq!(new_version, "3.0.0+build.5");
    assert_eq!(new_text, "[package]\nversion = \"3.0.0+build.5\"\n");
}

#[test]
fn missing_version_field_is_reported() {
    let text = "[package]\nname = \"demo\"\n";
    assert_eq!(
        apply_bump(text, &BumpRequest::Patch).unwrap_err(),
        VersionError::ManifestVersionMissing
    );
}

#[test]
fn missing_package_table_is_reported() {
    let text = "[dependencies]\nfoo = \"1\"\n";
    assert_eq!(
        apply_bump(text, &BumpRequest::Major).unwrap_err(),
        VersionError::ManifestVersionMissing
    );
}

#[test]
fn non_string_version_is_reported() {
    let text = "[package]\nversion = 3\n";
    assert_eq!(
        apply_bump(text, &BumpRequest::Patch).unwrap_err(),
        VersionError::ManifestVersionMissing
    );
}

#[test]
fn unparsable_version_value_is_reported() {
    let text = "[package]\nversion = \"not-a-version\"\n";
    assert_eq!(
        apply_bump(text, &BumpRequest::Patch).unwrap_err(),
        VersionError::ManifestVersionMissing
    );
}

#[test]
fn invalid_toml_is_reported() {
    let text = "[package\nversion = \"1.0.0\"\n";
    assert_eq!(
        apply_bump(text, &BumpRequest::Patch).unwrap_err(),
        VersionError::ManifestVersionMissing
    );
}

#[test]
fn bump_overflow_surfaces_through_apply() {
    let text = "[package]\nversion = \"18446744073709551615.0.0\"\n";
    assert_eq!(
        apply_bump(text, &BumpRequest::Major).unwrap_err(),
        VersionError::VersionOverflow
    );
}

#[test]
fn leading_v_in_manifest_is_accepted_and_not_reintroduced() {
    let text = "[package]\nversion = \"v1.0.0\"\n";
    let (new_text, new_version) = apply_bump(text, &BumpRequest::Patch).unwrap();
    assert_eq!(new_version, "1.0.1");
    assert_eq!(new_text, "[package]\nversion = \"1.0.1\"\n");
}

#[test]
fn patch_line_without_any_version_line_copies_text() {
    let text = "[dependencies]\nfoo = \"1\"";
    assert_eq!(patch_version_line(text, "9.9.9"), text);
}

#[test]
fn patch_line_replaces_only_the_first_marker_line() {
    let text = "version = \"1.0.0\"\nversion = \"2.0.0\"";
    assert_eq!(
        patch_version_line(text, "1.0.1"),
        "version = \"1.0.1\"\nversion = \"2.0.0\""
    );
}
