//! Verified semantic-version bump library.
//!
//! The library models a semantic version (`major.minor.patch[-prerelease][+build]`),
//! parses and serializes it, applies major/minor/patch/custom bumps, patches the
//! `version = "..."` line of a manifest text, and checks whether a release tag
//! derived from a version is still free.

pub mod chars;
pub mod patcher;
pub mod semver;
pub mod tags;



