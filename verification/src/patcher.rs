//! The manifest patcher: a manifest is an ordered sequence of lines; the one
//! semantic field is the first line that begins with the version marker, and
//! a bump replaces exactly that line, leaving every other line untouched.

use vstd::prelude::*;

use crate::chars::find_char;
use crate::chars::find_char_str;
use crate::chars::lemma_find_char;
use crate::chars::lemma_find_char_is;
use crate::chars::lemma_find_char_none;
use crate::semver::bump;
use crate::semver::lemma_serialize_no_newline;
use crate::semver::spec_bump;
use crate::semver::spec_parse;
use crate::semver::spec_serialize;
use crate::semver::strip_leading_v;
use crate::semver::valid_version_view;
use crate::semver::BumpRequest;
use crate::semver::Version;
use crate::semver::VersionError;
use crate::semver::VersionView;

verus! {

/// The lines of a text, split on `'\n'`; an empty text is one empty line.
pub open spec fn spec_lines(s: Seq<char>) -> Seq<Seq<char>>
    decreases s.len(),
    via spec_lines_decreases
{
    let d = find_char(s, '\n');
    if d == -1 {
        seq![s]
    } else {
        seq![s.subrange(0, d)] + spec_lines(s.subrange(d + 1, s.len() as int))
    }
}

#[via_fn]
proof fn spec_lines_decreases(s: Seq<char>) {
    lemma_find_char(s, '\n');
}

/// Lines rejoined with `'\n'` as the separator.
pub open spec fn spec_join(ls: Seq<Seq<char>>) -> Seq<char>
    decreases ls.len(),
{
    if ls.len() == 0 {
        Seq::empty()
    } else if ls.len() == 1 {
        ls[0]
    } else {
        ls[0] + seq!['\n'] + spec_join(ls.subrange(1, ls.len() as int))
    }
}

/// The version-field marker.
pub open spec fn version_marker() -> Seq<char> {
    seq!['v', 'e', 'r', 's', 'i', 'o', 'n']
}

/// A line that declares the version field: it begins with the marker.
pub open spec fn starts_with_version(l: Seq<char>) -> bool {
    l.len() >= 7 && l.subrange(0, 7) == version_marker()
}

/// Index of the first version-declaration line, or -1 when there is none.
pub open spec fn first_version_line(ls: Seq<Seq<char>>) -> int
    decreases ls.len(),
{
    if ls.len() == 0 {
        -1
    } else if starts_with_version(ls[0]) {
        0
    } else {
        let r = first_version_line(ls.subrange(1, ls.len() as int));
        if r == -1 {
            -1
        } else {
            r + 1
        }
    }
}

/// The freshly formatted replacement line `version = "<nv>"`.
pub open spec fn version_line(nv: Seq<char>) -> Seq<char> {
    version_marker() + seq![' ', '=', ' ', '"'] + nv + seq!['"']
}

/// The patched line sequence: the first version line, if any, replaced.
pub open spec fn patch_lines(ls: Seq<Seq<char>>, nv: Seq<char>) -> Seq<Seq<char>> {
    let i = first_version_line(ls);
    if i == -1 {
        ls
    } else {
        ls.update(i, version_line(nv))
    }
}

/// The patched text: split into lines, replace the first version line,
/// rejoin with `'\n'`.
pub open spec fn spec_patch(text: Seq<char>, nv: Seq<char>) -> Seq<char> {
    spec_join(patch_lines(spec_lines(text), nv))
}

/// What `first_version_line` finds: a hit is in bounds, matches, and is the
/// first.
pub proof fn lemma_first_version_line(ls: Seq<Seq<char>>)
    ensures
        first_version_line(ls) == -1 ==> forall|i: int|
            0 <= i < ls.len() ==> !starts_with_version(ls[i]),
        first_version_line(ls) != -1 ==> 0 <= first_version_line(ls) < ls.len()
            && starts_with_version(ls[first_version_line(ls)]),
        first_version_line(ls) != -1 ==> forall|i: int|
            0 <= i < first_version_line(ls) ==> !starts_with_version(ls[i]),
    decreases ls.len(),
{
    if ls.len() == 0 {
    } else if starts_with_version(ls[0]) {
    } else {
        let rest = ls.subrange(1, ls.len() as int);
        lemma_first_version_line(rest);
        assert forall|i: int| 1 <= i < ls.len() implies ls[i] == rest[i - 1] by {}
    }
}

/// `first_version_line` returns exactly the index of the first match.
pub proof fn lemma_first_version_line_is(ls: Seq<Seq<char>>, i: int)
    requires
        0 <= i < ls.len(),
        starts_with_version(ls[i]),
        forall|j: int| 0 <= j < i ==> !starts_with_version(ls[j]),
    ensures
        first_version_line(ls) == i,
    decreases i,
{
    if i == 0 {
    } else {
        let rest = ls.subrange(1, ls.len() as int);
        assert(!starts_with_version(ls[0]));
        assert(rest[i - 1] == ls[i]);
        assert forall|j: int| 0 <= j < i - 1 implies !starts_with_version(rest[j]) by {
            assert(rest[j] == ls[j + 1]);
        }
        lemma_first_version_line_is(rest, i - 1);
    }
}

/// `first_version_line` returns -1 when no line matches.
pub proof fn lemma_first_version_line_none(ls: Seq<Seq<char>>)
    requires
        forall|j: int| 0 <= j < ls.len() ==> !starts_with_version(ls[j]),
    ensures
        first_version_line(ls) == -1,
    decreases ls.len(),
{
    if ls.len() == 0 {
    } else {
        let rest = ls.subrange(1, ls.len() as int);
        assert forall|j: int| 0 <= j < rest.len() implies !starts_with_version(rest[j]) by {
            assert(rest[j] == ls[j + 1]);
        }
        lemma_first_version_line_none(rest);
    }
}

/// Splitting never produces an empty line list.
pub proof fn lemma_lines_nonempty(s: Seq<char>)
    ensures
        spec_lines(s).len() >= 1,
{
    lemma_find_char(s, '\n');
}

/// No line of a split contains the separator.
pub proof fn lemma_lines_no_newline(s: Seq<char>)
    ensures
        forall|i: int, j: int|
            0 <= i < spec_lines(s).len() && 0 <= j < spec_lines(s)[i].len() ==> spec_lines(
                s,
            )[i][j] != '\n',
    decreases s.len(),
{
    lemma_find_char(s, '\n');
    let d = find_char(s, '\n');
    if d == -1 {
    } else {
        let rest = s.subrange(d + 1, s.len() as int);
        lemma_lines_no_newline(rest);
        let ls = spec_lines(s);
        assert forall|i: int, j: int|
            0 <= i < ls.len() && 0 <= j < ls[i].len() implies ls[i][j] != '\n' by {
            if i == 0 {
                assert(ls[0] == s.subrange(0, d));
                assert(ls[0][j] == s[j]);
            } else {
                assert(ls[i] == spec_lines(rest)[i - 1]);
            }
        }
    }
}

/// Rejoining the lines of a text gives the text back.
pub proof fn lemma_join_lines(s: Seq<char>)
    ensures
        spec_join(spec_lines(s)) == s,
    decreases s.len(),
{
    lemma_find_char(s, '\n');
    let d = find_char(s, '\n');
    if d == -1 {
    } else {
        let rest = s.subrange(d + 1, s.len() as int);
        lemma_join_lines(rest);
        lemma_lines_nonempty(rest);
        let ls = spec_lines(s);
        assert(ls.len() >= 2);
        assert(ls[0] == s.subrange(0, d));
        assert(ls.subrange(1, ls.len() as int) =~= spec_lines(rest));
        assert(spec_join(ls) == ls[0] + seq!['\n'] + spec_join(spec_lines(rest)));
        assert(s[d] == '\n');
        assert(ls[0] + seq!['\n'] + rest =~= s);
    }
}

/// Splitting a join gives the lines back, provided no line contains the
/// separator.
pub proof fn lemma_split_join(ls: Seq<Seq<char>>)
    requires
        ls.len() >= 1,
        forall|i: int, j: int| 0 <= i < ls.len() && 0 <= j < ls[i].len() ==> ls[i][j] != '\n',
    ensures
        spec_lines(spec_join(ls)) == ls,
    decreases ls.len(),
{
    let s = spec_join(ls);
    if ls.len() == 1 {
        assert(s == ls[0]);
        assert forall|j: int| 0 <= j < s.len() implies s[j] != '\n' by {
            assert(ls[0][j] != '\n');
        }
        lemma_find_char_none(s, '\n');
        assert(spec_lines(s) =~= ls);
    } else {
        let rest = ls.subrange(1, ls.len() as int);
        let l0 = ls[0];
        assert(s == l0 + seq!['\n'] + spec_join(rest));
        assert forall|i: int, j: int|
            0 <= i < rest.len() && 0 <= j < rest[i].len() implies rest[i][j] != '\n' by {
            assert(rest[i] == ls[i + 1]);
        }
        lemma_split_join(rest);
        let k = l0.len() as int;
        assert(s[k] == '\n');
        assert forall|j: int| 0 <= j < k implies s[j] != '\n' by {
            assert(s[j] == l0[j]);
        }
        lemma_find_char_is(s, '\n', k);
        assert(s.subrange(0, k) =~= l0);
        assert(s.subrange(k + 1, s.len() as int) =~= spec_join(rest));
        assert(spec_lines(s) =~= seq![l0] + spec_lines(spec_join(rest)));
        assert(seq![l0] + rest =~= ls);
    }
}

/// The replacement line itself begins with the marker and contains no
/// separator when the inserted version string contains none.
pub proof fn lemma_version_line_shape(nv: Seq<char>)
    requires
        forall|i: int| 0 <= i < nv.len() ==> nv[i] != '\n',
    ensures
        starts_with_version(version_line(nv)),
        forall|j: int| 0 <= j < version_line(nv).len() ==> version_line(nv)[j] != '\n',
{
    let vl = version_line(nv);
    assert(vl.subrange(0, 7) =~= version_marker());
    assert forall|j: int| 0 <= j < vl.len() implies vl[j] != '\n' by {
        if 11 <= j < 11 + nv.len() {
            assert(vl[j] == nv[j - 11]);
        }
    }
}

/// Idempotent field location: patching a patched text locates the same line,
/// and patching twice is the same as patching once (with the final version).
pub proof fn lemma_patch_idempotent(text: Seq<char>, nv1: Seq<char>, nv2: Seq<char>)
    requires
        forall|i: int| 0 <= i < nv1.len() ==> nv1[i] != '\n',
    ensures
        first_version_line(spec_lines(spec_patch(text, nv1))) == first_version_line(
            spec_lines(text),
        ),
        spec_patch(spec_patch(text, nv1), nv2) == spec_patch(text, nv2),
{
    let ls = spec_lines(text);
    lemma_lines_nonempty(text);
    lemma_lines_no_newline(text);
    lemma_first_version_line(ls);
    let i = first_version_line(ls);
    if i == -1 {
        lemma_split_join(ls);
    } else {
        let ls1 = ls.update(i, version_line(nv1));
        lemma_version_line_shape(nv1);
        assert forall|a: int, j: int|
            0 <= a < ls1.len() && 0 <= j < ls1[a].len() implies ls1[a][j] != '\n' by {
            if a != i {
                assert(ls1[a] == ls[a]);
            }
        }
        lemma_split_join(ls1);
        assert(spec_lines(spec_patch(text, nv1)) == ls1);
        assert forall|j: int| 0 <= j < i implies !starts_with_version(ls1[j]) by {
            assert(ls1[j] == ls[j]);
        }
        lemma_first_version_line_is(ls1, i);
        assert(ls1.update(i, version_line(nv2)) =~= ls.update(i, version_line(nv2)));
    }
}

/// A text with no version-declaration line is returned unchanged by a patch.
pub proof fn lemma_patch_no_marker(text: Seq<char>, nv: Seq<char>)
    requires
        first_version_line(spec_lines(text)) == -1,
    ensures
        spec_patch(text, nv) == text,
{
    lemma_join_lines(text);
}

/// Idempotent field location for a bumped manifest: the output written with a
/// serialized version locates the version field on the same line as the
/// input, and patching that output again equals patching the input.
pub proof fn lemma_apply_bump_idempotent(text: Seq<char>, v1: VersionView, v2: VersionView)
    requires
        valid_version_view(v1),
    ensures
        first_version_line(spec_lines(spec_patch(text, spec_serialize(v1))))
            == first_version_line(spec_lines(text)),
        spec_patch(spec_patch(text, spec_serialize(v1)), spec_serialize(v2)) == spec_patch(
            text,
            spec_serialize(v2),
        ),
{
    lemma_serialize_no_newline(v1);
    lemma_patch_idempotent(text, spec_serialize(v1), spec_serialize(v2));
}

fn line_starts_with_version(l: &str) -> (r: bool)
    ensures
        r == starts_with_version(l@),
{
    let n = l.unicode_len();
    if n < 7 {
        return false;
    }
    let r = l.get_char(0) == 'v' && l.get_char(1) == 'e' && l.get_char(2) == 'r' && l.get_char(3)
        == 's' && l.get_char(4) == 'i' && l.get_char(5) == 'o' && l.get_char(6) == 'n';
    proof {
        if r {
            assert(l@.subrange(0, 7) =~= version_marker());
        } else {
            if starts_with_version(l@) {
                assert(l@[0] == l@.subrange(0, 7)[0]);
                assert(l@[1] == l@.subrange(0, 7)[1]);
                assert(l@[2] == l@.subrange(0, 7)[2]);
                assert(l@[3] == l@.subrange(0, 7)[3]);
                assert(l@[4] == l@.subrange(0, 7)[4]);
                assert(l@[5] == l@.subrange(0, 7)[5]);
                assert(l@[6] == l@.subrange(0, 7)[6]);
            }
        }
    }
    r
}

/// Emit the replacement line `version = "<nv>"`.
fn push_version_line(nv: &str, out: &mut String)
    ensures
        final(out)@ == old(out)@ + version_line(nv@),
{
    out.append("version = \"");
    out.append(nv);
    out.append("\"");
    proof {
        reveal_strlit("version = \"");
        reveal_strlit("\"");
        assert(final(out)@ =~= old(out)@ + version_line(nv@));
    }
}

/// Walk the text line by line: copy every line through, except the first one
/// that begins with the marker when none has been replaced yet, which is
/// rewritten; rejoin with `'\n'`.
fn patch_rec(text: &str, nv: &str, replaced: bool, out: &mut String)
    ensures
        replaced ==> final(out)@ == old(out)@ + spec_join(spec_lines(text@)),
        !replaced ==> final(out)@ == old(out)@ + spec_patch(text@, nv@),
    decreases text@.len(),
{
    let n = text.unicode_len();
    match find_char_str(text, '\n') {
        None => {
            let ls = Ghost(spec_lines(text@));
            if !replaced && line_starts_with_version(text) {
                push_version_line(nv, out);
                proof {
                    lemma_first_version_line_is(ls@, 0);
                    assert(patch_lines(ls@, nv@) =~= seq![version_line(nv@)]);
                }
            } else {
                out.append(text);
                proof {
                    if !replaced {
                        lemma_first_version_line_none(ls@);
                    }
                }
            }
        },
        Some(d) => {
            proof {
                lemma_find_char(text@, '\n');
            }
            let line = text.substring_char(0, d);
            let rest = text.substring_char(d + 1, n);
            let ghost ls = spec_lines(text@);
            let ghost rls = spec_lines(rest@);
            proof {
                lemma_lines_nonempty(rest@);
                assert(ls == seq![line@] + rls);
                assert(ls[0] == line@);
                assert(ls.subrange(1, ls.len() as int) =~= rls);
                assert forall|j: int| 1 <= j < ls.len() implies ls[j] == rls[j - 1] by {}
            }
            let now_replaced: bool = if !replaced && line_starts_with_version(line) {
                push_version_line(nv, out);
                true
            } else {
                out.append(line);
                replaced
            };
            out.append("\n");
            proof {
                reveal_strlit("\n");
            }
            patch_rec(rest, nv, now_replaced, out);
            proof {
                if replaced {
                    assert(spec_join(ls) == ls[0] + seq!['\n'] + spec_join(rls));
                    assert(final(out)@ =~= old(out)@ + spec_join(ls));
                } else if now_replaced {
                    lemma_first_version_line_is(ls, 0);
                    let pls = patch_lines(ls, nv@);
                    assert(pls =~= seq![version_line(nv@)] + rls);
                    assert(pls.subrange(1, pls.len() as int) =~= rls);
                    assert(spec_join(pls) == pls[0] + seq!['\n'] + spec_join(rls));
                    assert(final(out)@ =~= old(out)@ + spec_join(pls));
                } else {
                    lemma_first_version_line(rls);
                    let ir = first_version_line(rls);
                    if ir == -1 {
                        lemma_first_version_line_none(ls);
                        assert(spec_join(ls) == ls[0] + seq!['\n'] + spec_join(rls));
                        assert(patch_lines(rls, nv@) == rls);
                        assert(final(out)@ =~= old(out)@ + spec_join(ls));
                    } else {
                        assert(starts_with_version(ls[ir + 1]));
                        assert forall|j: int| 0 <= j < ir + 1 implies !starts_with_version(
                            ls[j],
                        ) by {
                            if j >= 1 {
                                assert(ls[j] == rls[j - 1]);
                            }
                        }
                        lemma_first_version_line_is(ls, ir + 1);
                        let pls = patch_lines(ls, nv@);
                        assert(pls =~= seq![line@] + patch_lines(rls, nv@));
                        assert(pls.len() >= 2);
                        assert(pls.subrange(1, pls.len() as int) =~= patch_lines(rls, nv@));
                        assert(spec_join(pls) == pls[0] + seq!['\n'] + spec_join(
                            patch_lines(rls, nv@),
                        ));
                        assert(final(out)@ =~= old(out)@ + spec_join(pls));
                    }
                }
            }
        },
    }
}

/// Replace the first line that begins with the version marker by a freshly
/// formatted `version = "<new_version>"` line; every other line — including
/// any later line that also begins with the marker — is copied through
/// unmodified, and the lines are rejoined with `'\n'`.
pub fn patch_version_line(text: &str, new_version: &str) -> (r: String)
    ensures
        r@ == spec_patch(text@, new_version@),
{
    let mut out = String::new();
    patch_rec(text, new_version, false, &mut out);
    out
}

/// The version string recorded at the `version` key of the `package` table of
/// a TOML document, when the document parses and that key holds a string.
pub uninterp spec fn toml_package_version(text: Seq<char>) -> Option<Seq<char>>;

/// Relies on `toml::from_str`, `toml::Value::get` and `toml::Value::as_str`:
/// the result is the string value at `package.version` when `text` is a valid
/// TOML document with such a string, and `None` otherwise; it is a function
/// of `text` alone.
#[verifier::external_body]
fn extract_package_version(text: &str) -> (r: Option<String>)
    ensures
        match r {
            Some(s) => toml_package_version(text@) == Some(s@),
            None => toml_package_version(text@) is None,
        },
{
    let value: toml::Value = match toml::from_str(text) {
        Ok(v) => v,
        Err(_) => return None,
    };
    match value.get("package") {
        Some(p) => match p.get("version") {
            Some(v) => v.as_str().map(str::to_owned),
            None => None,
        },
        None => None,
    }
}

/// Bump the version recorded in a manifest text.
///
/// The declared version is the string at `package.version`; it is parsed,
/// bumped as `request` says, and the first line beginning with the version
/// marker is replaced by the freshly formatted new version line. Returns the
/// whole new text together with the bare new version string, or
/// `ManifestVersionMissing` when no parsable version field exists, or
/// `VersionOverflow` when the increment would not fit.
pub fn apply_bump(text: &str, request: &BumpRequest) -> (r: Result<(String, String), VersionError>)
    ensures
        match toml_package_version(text@) {
            None => r == Err::<(String, String), VersionError>(VersionError::ManifestVersionMissing),
            Some(cur_s) => match spec_parse(strip_leading_v(cur_s)) {
                None => r == Err::<(String, String), VersionError>(
                    VersionError::ManifestVersionMissing,
                ),
                Some(cur) => match spec_bump(cur, request@) {
                    None => r == Err::<(String, String), VersionError>(
                        VersionError::VersionOverflow,
                    ),
                    Some(nv) => r matches Ok(p) && p.0@ == spec_patch(text@, spec_serialize(nv))
                        && p.1@ == spec_serialize(nv),
                },
            },
        },
{
    let cur_s = match extract_package_version(text) {
        Some(s) => s,
        None => { return Err(VersionError::ManifestVersionMissing) },
    };
    let cur = match Version::from_str(cur_s.as_str()) {
        Ok(v) => v,
        Err(_) => { return Err(VersionError::ManifestVersionMissing) },
    };
    let nv = match bump(&cur, request) {
        Ok(v) => v,
        Err(e) => { return Err(e) },
    };
    let nvs = nv.serialize();
    let new_text = patch_version_line(text, nvs.as_str());
    Ok((new_text, nvs))
}

} // verus!
