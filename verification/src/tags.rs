//! Tag availability: whether the release tag derived from a candidate
//! version is already taken among the existing tag names.

use vstd::prelude::*;

verus! {

/// The tag name derived from a bare version string: a `v` prefix.
pub open spec fn spec_tag_name(version: Seq<char>) -> Seq<char> {
    seq!['v'] + version
}

/// Derive the tag `v<candidate_version>` and report whether it is still free:
/// available exactly when no existing tag equals it. The tag list is an
/// opaque snapshot supplied by the caller.
pub fn is_available(existing_tags: &Vec<String>, candidate_version: &str) -> (r: (bool, String))
    ensures
        r.1@ == spec_tag_name(candidate_version@),
        r.0 == !(exists|i: int|
            0 <= i < existing_tags@.len() && existing_tags@[i]@ == spec_tag_name(
                candidate_version@,
            )),
{
    let mut tag = "v".to_owned();
    tag.append(candidate_version);
    proof {
        reveal_strlit("v");
        assert(tag@ =~= spec_tag_name(candidate_version@));
    }
    let n = existing_tags.len();
    let mut i: usize = 0;
    let mut found = false;
    while i < n
        invariant
            n == existing_tags@.len(),
            0 <= i <= n,
            tag@ == spec_tag_name(candidate_version@),
            found == (exists|j: int| 0 <= j < i && existing_tags@[j]@ == tag@),
        decreases n - i,
    {
        let t = &existing_tags[i];
        if t.eq(&tag) {
            found = true;
        }
        i = i + 1;
    }
    (!found, tag)
}

} // verus!
