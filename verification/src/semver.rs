//! The semantic-version model: grammar, parsing, serialization, comparison,
//! and the bump engine.
//!
//! A version is `major.minor.patch[-prerelease][+build]`. Each numeric
//! component is a canonical decimal (no leading zero). The prerelease is a
//! dot-separated list of identifiers, each either a canonical number or an
//! alphanumeric/hyphen word with at least one non-digit; build metadata is a
//! dot-separated list of non-empty alphanumeric/hyphen words.

use vstd::prelude::*;

use crate::chars::all_digits;
use crate::chars::char_val;
use crate::chars::dec_rep;
use crate::chars::digit_char;
use crate::chars::find_char;
use crate::chars::find_char_str;
use crate::chars::is_digit;
use crate::chars::is_ident_char;
use crate::chars::lemma_dec_rep_canonical;
use crate::chars::lemma_dec_rep_str_val;
use crate::chars::lemma_find_char;
use crate::chars::lemma_find_char_is;
use crate::chars::lemma_find_char_none;
use crate::chars::lemma_str_val_bounds;
use crate::chars::lemma_str_val_dec_rep;
use crate::chars::lemma_str_val_prefix;
use crate::chars::str_val;

verus! {

/// A numeric identifier: digits only, no leading zero unless it is `0` itself.
pub open spec fn is_numeric_ident(s: Seq<char>) -> bool {
    &&& s.len() > 0
    &&& all_digits(s)
    &&& s.len() > 1 ==> s[0] != '0'
}

/// An alphanumeric/hyphen identifier with at least one non-digit character.
pub open spec fn is_alphanum_ident(s: Seq<char>) -> bool {
    &&& s.len() > 0
    &&& forall|i: int| 0 <= i < s.len() ==> is_ident_char(s[i])
    &&& exists|i: int| 0 <= i < s.len() && !is_digit(s[i])
}

/// A single prerelease identifier.
pub open spec fn is_prerelease_ident(s: Seq<char>) -> bool {
    is_numeric_ident(s) || is_alphanum_ident(s)
}

/// A single build-metadata identifier: non-empty, alphanumeric/hyphen.
pub open spec fn is_build_ident(s: Seq<char>) -> bool {
    &&& s.len() > 0
    &&& forall|i: int| 0 <= i < s.len() ==> is_ident_char(s[i])
}

/// One identifier of the series, under the rule chosen by `pre`.
pub open spec fn is_series_ident(s: Seq<char>, pre: bool) -> bool {
    if pre {
        is_prerelease_ident(s)
    } else {
        is_build_ident(s)
    }
}

/// A non-empty dot-separated series of identifiers, prerelease-style when
/// `pre` holds and build-style otherwise.
pub open spec fn is_ident_series(s: Seq<char>, pre: bool) -> bool
    decreases s.len(),
    via is_ident_series_decreases
{
    let d = find_char(s, '.');
    if d == -1 {
        is_series_ident(s, pre)
    } else {
        is_series_ident(s.subrange(0, d), pre) && is_ident_series(
            s.subrange(d + 1, s.len() as int),
            pre,
        )
    }
}

#[via_fn]
proof fn is_ident_series_decreases(s: Seq<char>, pre: bool) {
    lemma_find_char(s, '.');
}

/// The mathematical model of a version.
#[verifier::ext_equal]
pub struct VersionView {
    pub major: int,
    pub minor: int,
    pub patch: int,
    pub prerelease: Option<Seq<char>>,
    pub build_metadata: Option<Seq<char>>,
}

/// A model is valid when its numbers fit a machine word and its optional
/// qualifier strings obey the identifier grammar.
pub open spec fn valid_version_view(v: VersionView) -> bool {
    &&& 0 <= v.major <= u64::MAX
    &&& 0 <= v.minor <= u64::MAX
    &&& 0 <= v.patch <= u64::MAX
    &&& match v.prerelease {
        Some(p) => is_ident_series(p, true),
        None => true,
    }
    &&& match v.build_metadata {
        Some(b) => is_ident_series(b, false),
        None => true,
    }
}

/// Canonical string form: `major.minor.patch`, then `-prerelease` when
/// present, then `+build` when present.
pub open spec fn spec_serialize(v: VersionView) -> Seq<char> {
    dec_rep(v.major) + seq!['.'] + dec_rep(v.minor) + seq!['.'] + dec_rep(v.patch) + (match v
        .prerelease {
        Some(p) => seq!['-'] + p,
        None => Seq::<char>::empty(),
    }) + (match v.build_metadata {
        Some(b) => seq!['+'] + b,
        None => Seq::<char>::empty(),
    })
}

/// The `major.minor.patch` core: two dots splitting three canonical numbers,
/// each representable as a `u64`.
pub open spec fn parse_core(s: Seq<char>) -> Option<(int, int, int)> {
    let d1 = find_char(s, '.');
    if d1 == -1 {
        None
    } else {
        let maj = s.subrange(0, d1);
        let rest = s.subrange(d1 + 1, s.len() as int);
        let d2 = find_char(rest, '.');
        if d2 == -1 {
            None
        } else {
            let min = rest.subrange(0, d2);
            let pat = rest.subrange(d2 + 1, rest.len() as int);
            if is_numeric_ident(maj) && is_numeric_ident(min) && is_numeric_ident(pat) && str_val(
                maj,
            ) <= u64::MAX && str_val(min) <= u64::MAX && str_val(pat) <= u64::MAX {
                Some((str_val(maj), str_val(min), str_val(pat)))
            } else {
                None
            }
        }
    }
}

/// Parse of a whole version string (after any leading-`v` strip): the part
/// after the first `+` is build metadata, the part of the remainder after its
/// first `-` is the prerelease, and what is left must be the numeric core.
pub open spec fn spec_parse(s: Seq<char>) -> Option<VersionView> {
    let ip = find_char(s, '+');
    let head = if ip == -1 {
        s
    } else {
        s.subrange(0, ip)
    };
    let build = if ip == -1 {
        None
    } else {
        Some(s.subrange(ip + 1, s.len() as int))
    };
    let id = find_char(head, '-');
    let core = if id == -1 {
        head
    } else {
        head.subrange(0, id)
    };
    let pre = if id == -1 {
        None
    } else {
        Some(head.subrange(id + 1, head.len() as int))
    };
    match parse_core(core) {
        Some(nums) => {
            let pre_ok = match pre {
                Some(p) => is_ident_series(p, true),
                None => true,
            };
            let build_ok = match build {
                Some(b) => is_ident_series(b, false),
                None => true,
            };
            if pre_ok && build_ok {
                Some(
                    VersionView {
                        major: nums.0,
                        minor: nums.1,
                        patch: nums.2,
                        prerelease: pre,
                        build_metadata: build,
                    },
                )
            } else {
                None
            }
        },
        None => None,
    }
}

/// A single leading `v` is removed before parsing; nothing else is touched.
pub open spec fn strip_leading_v(s: Seq<char>) -> Seq<char> {
    if s.len() > 0 && s[0] == 'v' {
        s.subrange(1, s.len() as int)
    } else {
        s
    }
}

/// Error kinds of the version core.
#[derive(Clone, Copy, Debug, PartialEq, Eq, Structural)]
pub enum VersionError {
    /// The string does not match the semantic-version grammar.
    InvalidVersionFormat,
    /// An increment would exceed the representable integer range.
    VersionOverflow,
    /// The manifest holds no parsable version field.
    ManifestVersionMissing,
}

/// An immutable semantic version.
#[derive(Clone, Debug)]
pub struct Version {
    pub major: u64,
    pub minor: u64,
    pub patch: u64,
    pub prerelease: Option<String>,
    pub build_metadata: Option<String>,
}

impl View for Version {
    type V = VersionView;

    open spec fn view(&self) -> VersionView {
        VersionView {
            major: self.major as int,
            minor: self.minor as int,
            patch: self.patch as int,
            prerelease: match self.prerelease {
                Some(p) => Some(p@),
                None => None,
            },
            build_metadata: match self.build_metadata {
                Some(b) => Some(b@),
                None => None,
            },
        }
    }
}

impl Version {
    /// The qualifier strings obey the grammar (the numbers always fit).
    pub open spec fn wf(self) -> bool {
        valid_version_view(self@)
    }
}

/// The choice of bump to apply.
pub enum BumpRequest {
    Major,
    Minor,
    Patch,
    Custom(Version),
}

/// Model of a bump request.
#[verifier::ext_equal]
pub enum BumpView {
    Major,
    Minor,
    Patch,
    Custom(VersionView),
}

impl View for BumpRequest {
    type V = BumpView;

    open spec fn view(&self) -> BumpView {
        match self {
            BumpRequest::Major => BumpView::Major,
            BumpRequest::Minor => BumpView::Minor,
            BumpRequest::Patch => BumpView::Patch,
            BumpRequest::Custom(v) => BumpView::Custom(v@),
        }
    }
}

/// The bump engine on models: which components step, which reset, and which
/// qualifiers are dropped; `None` when the incremented component would no
/// longer fit.
pub open spec fn spec_bump(cur: VersionView, req: BumpView) -> Option<VersionView> {
    match req {
        BumpView::Major => if cur.major + 1 <= u64::MAX {
            Some(
                VersionView {
                    major: cur.major + 1,
                    minor: 0,
                    patch: 0,
                    prerelease: None,
                    build_metadata: None,
                },
            )
        } else {
            None
        },
        BumpView::Minor => if cur.minor + 1 <= u64::MAX {
            Some(
                VersionView {
                    major: cur.major,
                    minor: cur.minor + 1,
                    patch: 0,
                    prerelease: None,
                    build_metadata: None,
                },
            )
        } else {
            None
        },
        BumpView::Patch => if cur.patch + 1 <= u64::MAX {
            Some(
                VersionView {
                    major: cur.major,
                    minor: cur.minor,
                    patch: cur.patch + 1,
                    prerelease: None,
                    build_metadata: None,
                },
            )
        } else {
            None
        },
        BumpView::Custom(v) => Some(v),
    }
}

/// The narrow "is `b` newer than `a`" predicate: patch is compared first,
/// then minor, then major. It is not a total order; it exists solely for the
/// self-update prompt and must not be reused as a general comparison.
pub open spec fn spec_newer(a: VersionView, b: VersionView) -> bool {
    a.patch < b.patch || a.minor < b.minor || a.major < b.major
}

/// Full value equality of two models: all five components, build metadata
/// included (a deliberate deviation from the public precedence rule, which
/// ignores build metadata).
pub open spec fn version_eq(a: VersionView, b: VersionView) -> bool {
    &&& a.major == b.major
    &&& a.minor == b.minor
    &&& a.patch == b.patch
    &&& match (a.prerelease, b.prerelease) {
        (Some(x), Some(y)) => x == y,
        (None, None) => true,
        _ => false,
    }
    &&& match (a.build_metadata, b.build_metadata) {
        (Some(x), Some(y)) => x == y,
        (None, None) => true,
        _ => false,
    }
}

fn is_digit_exec(c: char) -> (r: bool)
    ensures
        r == is_digit(c),
{
    let u = c as u32;
    48 <= u && u <= 57
}

fn is_ident_char_exec(c: char) -> (r: bool)
    ensures
        r == is_ident_char(c),
{
    let u = c as u32;
    (48 <= u && u <= 57) || (97 <= u && u <= 122) || (65 <= u && u <= 90) || c == '-'
}

/// Parse one numeric component: canonical decimal digits whose value fits a
/// `u64`; `None` exactly when the grammar or the range is violated.
fn parse_num_seg(s: &str) -> (r: Option<u64>)
    ensures
        match r {
            Some(v) => is_numeric_ident(s@) && str_val(s@) == v as int,
            None => !(is_numeric_ident(s@) && str_val(s@) <= u64::MAX),
        },
{
    let n = s.unicode_len();
    if n == 0 {
        return None;
    }
    if n > 1 && s.get_char(0) == '0' {
        return None;
    }
    let mut val: u64 = 0;
    let mut i: usize = 0;
    while i < n
        invariant
            n == s@.len(),
            0 < n,
            0 <= i <= n,
            forall|j: int| 0 <= j < i ==> is_digit(s@[j]),
            val as int == str_val(s@.subrange(0, i as int)),
            n > 1 ==> s@[0] != '0',
        decreases n - i,
    {
        let c = s.get_char(i);
        if !is_digit_exec(c) {
            proof {
                assert(!is_digit(s@[i as int]));
            }
            return None;
        }
        let d: u64 = (c as u32 as u64) - 48;
        proof {
            assert(d as int == char_val(s@[i as int]));
            assert(0 <= d <= 9);
        }
        if val > (u64::MAX - d) / 10 {
            proof {
                let t = s@;
                assert(10 * (val as int) + (d as int) > u64::MAX as int) by (nonlinear_arith)
                    requires
                        (val as int) > ((u64::MAX - d) as int) / 10,
                        0 <= d <= 9,
                        u64::MAX - d == u64::MAX as int - d as int,
                ;
                assert(t.subrange(0, i as int + 1).drop_last() =~= t.subrange(0, i as int));
                assert(t.subrange(0, i as int + 1).last() == t[i as int]);
                assert(str_val(t.subrange(0, i as int + 1)) == 10 * (val as int) + (d as int));
                if all_digits(t) {
                    lemma_str_val_prefix(t, i as int + 1);
                    assert(str_val(t) > u64::MAX as int);
                }
            }
            return None;
        }
        proof {
            assert(10 * (val as int) + (d as int) <= u64::MAX as int) by (nonlinear_arith)
                requires
                    (val as int) <= ((u64::MAX - d) as int) / 10,
                    0 <= d <= 9,
                    u64::MAX - d == u64::MAX as int - d as int,
            ;
            let t = s@;
            assert(t.subrange(0, i as int + 1).drop_last() =~= t.subrange(0, i as int));
            assert(t.subrange(0, i as int + 1).last() == t[i as int]);
        }
        val = val * 10 + d;
        i = i + 1;
    }
    proof {
        assert(s@.subrange(0, n as int) =~= s@);
    }
    Some(val)
}

/// Check one identifier against the prerelease or build rule.
fn check_series_ident(s: &str, pre: bool) -> (r: bool)
    ensures
        r == is_series_ident(s@, pre),
{
    let n = s.unicode_len();
    if n == 0 {
        return false;
    }
    let c0 = s.get_char(0);
    let mut all_ident = true;
    let mut alldig = true;
    let mut i: usize = 0;
    while i < n
        invariant
            n == s@.len(),
            0 <= i <= n,
            all_ident == (forall|j: int| 0 <= j < i ==> is_ident_char(s@[j])),
            alldig == (forall|j: int| 0 <= j < i ==> is_digit(s@[j])),
        decreases n - i,
    {
        let c = s.get_char(i);
        let ci = is_ident_char_exec(c);
        let di = is_digit_exec(c);
        all_ident = all_ident && ci;
        alldig = alldig && di;
        i = i + 1;
    }
    if pre {
        let numeric = alldig && (n == 1 || c0 != '0');
        let alphanum = all_ident && !alldig;
        proof {
            assert(numeric == is_numeric_ident(s@));
            if all_ident && !alldig {
                assert(!(forall|j: int| 0 <= j < s@.len() ==> is_digit(s@[j])));
                assert(exists|j: int| 0 <= j < s@.len() && !is_digit(s@[j]));
                assert(is_alphanum_ident(s@));
            }
            if is_alphanum_ident(s@) {
                let w = choose|j: int| 0 <= j < s@.len() && !is_digit(s@[j]);
                assert(!is_digit(s@[w]));
            }
        }
        numeric || alphanum
    } else {
        all_ident
    }
}

/// Check a dot-separated identifier series, one identifier at a time.
fn check_ident_series(s: &str, pre: bool) -> (r: bool)
    ensures
        r == is_ident_series(s@, pre),
    decreases s@.len(),
{
    let n = s.unicode_len();
    match find_char_str(s, '.') {
        None => check_series_ident(s, pre),
        Some(d) => {
            proof {
                lemma_find_char(s@, '.');
            }
            let head_ok = check_series_ident(s.substring_char(0, d), pre);
            if !head_ok {
                false
            } else {
                check_ident_series(s.substring_char(d + 1, n), pre)
            }
        },
    }
}

/// Parse the `major.minor.patch` core of a version string.
fn parse_core_str(s: &str) -> (r: Option<(u64, u64, u64)>)
    ensures
        match r {
            Some(t) => parse_core(s@) == Some(((t.0 as int), (t.1 as int), (t.2 as int))),
            None => parse_core(s@) is None,
        },
{
    let n = s.unicode_len();
    let d1 = match find_char_str(s, '.') {
        Some(d) => d,
        None => { return None },
    };
    proof {
        lemma_find_char(s@, '.');
    }
    let maj_s = s.substring_char(0, d1);
    let rest = s.substring_char(d1 + 1, n);
    let nr = rest.unicode_len();
    let d2 = match find_char_str(rest, '.') {
        Some(d) => d,
        None => { return None },
    };
    proof {
        lemma_find_char(rest@, '.');
    }
    let min_s = rest.substring_char(0, d2);
    let pat_s = rest.substring_char(d2 + 1, nr);
    let maj = match parse_num_seg(maj_s) {
        Some(v) => v,
        None => { return None },
    };
    let min = match parse_num_seg(min_s) {
        Some(v) => v,
        None => { return None },
    };
    let pat = match parse_num_seg(pat_s) {
        Some(v) => v,
        None => { return None },
    };
    Some((maj, min, pat))
}

impl Version {
    /// Parse a version string. A single leading `v` is stripped first; the
    /// whole remainder must then match the semantic-version grammar, with
    /// every numeric component representable as a `u64`.
    pub fn from_str(s: &str) -> (r: Result<Version, VersionError>)
        ensures
            match r {
                Ok(v) => spec_parse(strip_leading_v(s@)) == Some(v@) && v.wf(),
                Err(e) => e == VersionError::InvalidVersionFormat && spec_parse(
                    strip_leading_v(s@),
                ) is None,
            },
    {
        let n0 = s.unicode_len();
        let t: &str = if n0 > 0 && s.get_char(0) == 'v' {
            s.substring_char(1, n0)
        } else {
            s
        };
        proof {
            assert(t@ == strip_leading_v(s@));
        }
        let n = t.unicode_len();
        let (head, build): (&str, Option<&str>) = match find_char_str(t, '+') {
            Some(i) => {
                proof {
                    lemma_find_char(t@, '+');
                }
                (t.substring_char(0, i), Some(t.substring_char(i + 1, n)))
            },
            None => (t, None),
        };
        let nh = head.unicode_len();
        let (core, pre): (&str, Option<&str>) = match find_char_str(head, '-') {
            Some(i) => {
                proof {
                    lemma_find_char(head@, '-');
                }
                (head.substring_char(0, i), Some(head.substring_char(i + 1, nh)))
            },
            None => (head, None),
        };
        let nums = match parse_core_str(core) {
            Some(v) => v,
            None => { return Err(VersionError::InvalidVersionFormat) },
        };
        let pre_owned: Option<String> = match pre {
            Some(p) => {
                if check_ident_series(p, true) {
                    Some(p.to_owned())
                } else {
                    return Err(VersionError::InvalidVersionFormat);
                }
            },
            None => None,
        };
        let build_owned: Option<String> = match build {
            Some(b) => {
                if check_ident_series(b, false) {
                    Some(b.to_owned())
                } else {
                    return Err(VersionError::InvalidVersionFormat);
                }
            },
            None => None,
        };
        let v = Version {
            major: nums.0,
            minor: nums.1,
            patch: nums.2,
            prerelease: pre_owned,
            build_metadata: build_owned,
        };
        proof {
            assert(spec_parse(t@) == Some(v@));
            lemma_str_val_bounds_for_parse(t@, v@);
        }
        Ok(v)
    }
}

fn digit_str(d: u64) -> (r: &'static str)
    requires
        d < 10,
    ensures
        r@ == seq![digit_char(d as int)],
{
    proof {
        reveal_strlit("0");
        reveal_strlit("1");
        reveal_strlit("2");
        reveal_strlit("3");
        reveal_strlit("4");
        reveal_strlit("5");
        reveal_strlit("6");
        reveal_strlit("7");
        reveal_strlit("8");
        reveal_strlit("9");
    }
    let r: &'static str = if d == 0 {
        "0"
    } else if d == 1 {
        "1"
    } else if d == 2 {
        "2"
    } else if d == 3 {
        "3"
    } else if d == 4 {
        "4"
    } else if d == 5 {
        "5"
    } else if d == 6 {
        "6"
    } else if d == 7 {
        "7"
    } else if d == 8 {
        "8"
    } else {
        "9"
    };
    proof {
        assert(r@ =~= seq![digit_char(d as int)]);
    }
    r
}

/// Append the canonical decimal form of `n` to `out`.
fn push_dec(n: u64, out: &mut String)
    ensures
        final(out)@ == old(out)@ + dec_rep(n as int),
    decreases n,
{
    if n >= 10 {
        push_dec(n / 10, out);
    }
    out.append(digit_str(n % 10));
    proof {
        if n < 10 {
            assert(n % 10 == n);
            assert(dec_rep(n as int) =~= seq![digit_char(n as int)]);
        } else {
            assert(dec_rep(n as int) == dec_rep(n as int / 10).push(digit_char(n as int % 10)));
        }
        assert(final(out)@ =~= old(out)@ + dec_rep(n as int));
    }
}

impl Version {
    /// Emit the canonical string form, omitting the `-prerelease` and
    /// `+build` segments independently when absent.
    pub fn serialize(&self) -> (r: String)
        ensures
            r@ == spec_serialize(self@),
    {
        let mut out = String::new();
        push_dec(self.major, &mut out);
        out.append(".");
        push_dec(self.minor, &mut out);
        out.append(".");
        push_dec(self.patch, &mut out);
        match &self.prerelease {
            Some(p) => {
                out.append("-");
                out.append(p.as_str());
            },
            None => {},
        }
        match &self.build_metadata {
            Some(b) => {
                out.append("+");
                out.append(b.as_str());
            },
            None => {},
        }
        proof {
            reveal_strlit(".");
            reveal_strlit("-");
            reveal_strlit("+");
            assert(out@ =~= spec_serialize(self@));
        }
        out
    }

    /// A field-for-field copy with the same model.
    pub fn duplicate(&self) -> (r: Version)
        ensures
            r@ == self@,
    {
        Version {
            major: self.major,
            minor: self.minor,
            patch: self.patch,
            prerelease: match &self.prerelease {
                Some(p) => Some(p.clone()),
                None => None,
            },
            build_metadata: match &self.build_metadata {
                Some(b) => Some(b.clone()),
                None => None,
            },
        }
    }

    /// The narrow "is `other` newer than `self`" predicate of the self-update
    /// check: patch first, then minor, then major. Not a total order.
    pub fn newer(&self, other: &Version) -> (r: bool)
        ensures
            r == spec_newer(self@, other@),
    {
        self.patch < other.patch || self.minor < other.minor || self.major < other.major
    }
}

fn opt_string_eq(a: &Option<String>, b: &Option<String>) -> (r: bool)
    ensures
        r == match (a, b) {
            (Some(x), Some(y)) => x@ == y@,
            (None, None) => true,
            _ => false,
        },
{
    match (a, b) {
        (Some(x), Some(y)) => x.eq(y),
        (None, None) => true,
        _ => false,
    }
}

impl PartialEq for Version {
    /// Versions are equal exactly when all five components are equal; build
    /// metadata participates.
    fn eq(&self, other: &Version) -> (r: bool) {
        self.major == other.major && self.minor == other.minor && self.patch == other.patch
            && opt_string_eq(&self.prerelease, &other.prerelease) && opt_string_eq(
            &self.build_metadata,
            &other.build_metadata,
        )
    }
}

impl vstd::std_specs::cmp::PartialEqSpecImpl for Version {
    open spec fn obeys_eq_spec() -> bool {
        true
    }

    open spec fn eq_spec(&self, other: &Version) -> bool {
        version_eq(self@, other@)
    }
}

impl Eq for Version {

}

/// The bump engine: `Major`, `Minor` and `Patch` step their component, reset
/// the lower ones, and drop both qualifiers; `Custom` returns its version
/// verbatim, ignoring `current`. The only failure is `VersionOverflow`.
pub fn bump(current: &Version, request: &BumpRequest) -> (r: Result<Version, VersionError>)
    ensures
        match spec_bump(current@, request@) {
            Some(nv) => r matches Ok(v) && v@ == nv,
            None => r == Err::<Version, VersionError>(VersionError::VersionOverflow),
        },
{
    match request {
        BumpRequest::Major => {
            if current.major == u64::MAX {
                Err(VersionError::VersionOverflow)
            } else {
                Ok(
                    Version {
                        major: current.major + 1,
                        minor: 0,
                        patch: 0,
                        prerelease: None,
                        build_metadata: None,
                    },
                )
            }
        },
        BumpRequest::Minor => {
            if current.minor == u64::MAX {
                Err(VersionError::VersionOverflow)
            } else {
                Ok(
                    Version {
                        major: current.major,
                        minor: current.minor + 1,
                        patch: 0,
                        prerelease: None,
                        build_metadata: None,
                    },
                )
            }
        },
        BumpRequest::Patch => {
            if current.patch == u64::MAX {
                Err(VersionError::VersionOverflow)
            } else {
                Ok(
                    Version {
                        major: current.major,
                        minor: current.minor,
                        patch: current.patch + 1,
                        prerelease: None,
                        build_metadata: None,
                    },
                )
            }
        },
        BumpRequest::Custom(v) => Ok(v.duplicate()),
    }
}

/// The decision of the self-update check, separated from its I/O: prompt
/// exactly when the latest release is newer than the running one or differs
/// from it in any component.
pub fn update_available(current: &Version, latest: &Version) -> (r: bool)
    ensures
        r == (spec_newer(current@, latest@) || !version_eq(current@, latest@)),
{
    current.newer(latest) || !current.eq(latest)
}

/// Round-trip law: a string the parser accepts is exactly the serialization
/// of the version it returns (the optional leading `v` has been stripped
/// before parsing and is never reintroduced), and that version is valid.
#[verifier::rlimit(50)]
pub proof fn lemma_round_trip(s: Seq<char>, v: VersionView)
    requires
        spec_parse(s) == Some(v),
    ensures
        spec_serialize(v) == s,
        valid_version_view(v),
{
    lemma_str_val_bounds_for_parse(s, v);
    lemma_find_char(s, '+');
    let ip = find_char(s, '+');
    let head = if ip == -1 {
        s
    } else {
        s.subrange(0, ip)
    };
    lemma_find_char(head, '-');
    let id = find_char(head, '-');
    let core = if id == -1 {
        head
    } else {
        head.subrange(0, id)
    };
    lemma_find_char(core, '.');
    let d1 = find_char(core, '.');
    let maj = core.subrange(0, d1);
    let rest = core.subrange(d1 + 1, core.len() as int);
    lemma_find_char(rest, '.');
    let d2 = find_char(rest, '.');
    let min = rest.subrange(0, d2);
    let pat = rest.subrange(d2 + 1, rest.len() as int);
    lemma_dec_rep_str_val(maj);
    lemma_dec_rep_str_val(min);
    lemma_dec_rep_str_val(pat);
    assert(rest =~= min + seq!['.'] + pat);
    assert(core =~= maj + seq!['.'] + rest);
    let ser_core = dec_rep(v.major) + seq!['.'] + dec_rep(v.minor) + seq!['.'] + dec_rep(v.patch);
    assert(ser_core =~= core);
    if id == -1 {
        assert(head =~= ser_core + Seq::<char>::empty());
    } else {
        let p = head.subrange(id + 1, head.len() as int);
        assert(head =~= ser_core + (seq!['-'] + p));
    }
    if ip == -1 {
        assert(spec_serialize(v) =~= head);
    } else {
        let b = s.subrange(ip + 1, s.len() as int);
        assert(spec_serialize(v) =~= head + (seq!['+'] + b));
        assert(head + (seq!['+'] + b) =~= s);
    }
}

/// The converse round trip: the parser accepts every canonical serialization,
/// and parsing the string form of a valid version yields that version back.
#[verifier::rlimit(80)]
pub proof fn lemma_parse_of_serialize(v: VersionView)
    requires
        valid_version_view(v),
    ensures
        spec_parse(spec_serialize(v)) == Some(v),
{
    let a = dec_rep(v.major);
    let b = dec_rep(v.minor);
    let c = dec_rep(v.patch);
    lemma_dec_rep_canonical(v.major);
    lemma_dec_rep_canonical(v.minor);
    lemma_dec_rep_canonical(v.patch);
    lemma_str_val_dec_rep(v.major);
    lemma_str_val_dec_rep(v.minor);
    lemma_str_val_dec_rep(v.patch);
    let la = a.len() as int;
    let lb = b.len() as int;
    let lc = c.len() as int;
    let core = a + seq!['.'] + b + seq!['.'] + c;
    let ps = match v.prerelease {
        Some(p) => seq!['-'] + p,
        None => Seq::<char>::empty(),
    };
    let bs = match v.build_metadata {
        Some(bm) => seq!['+'] + bm,
        None => Seq::<char>::empty(),
    };
    let head = core + ps;
    let t = spec_serialize(v);
    assert(t =~= head + bs);
    assert forall|ch: char| is_digit(ch) implies ch != '+' && ch != '-' && ch != '.' by {}
    assert forall|ch: char| is_ident_char(ch) implies ch != '+' by {}
    match v.prerelease {
        Some(p) => lemma_ident_series_chars(p, true),
        None => {},
    }
    match v.build_metadata {
        Some(bm) => lemma_ident_series_chars(bm, false),
        None => {},
    }
    assert forall|j: int| 0 <= j < core.len() implies is_digit(core[j]) || core[j] == '.' by {
        if j < la {
            assert(core[j] == a[j]);
        } else if j == la {
        } else if j < la + 1 + lb {
            assert(core[j] == b[j - la - 1]);
        } else if j == la + 1 + lb {
        } else {
            assert(core[j] == c[j - la - lb - 2]);
        }
    }
    assert forall|j: int| 0 <= j < head.len() implies head[j] != '+' by {
        if j < core.len() {
            assert(head[j] == core[j]);
        } else {
            assert(head[j] == ps[j - core.len()]);
            match v.prerelease {
                Some(p) => {
                    if j > core.len() {
                        assert(ps[j - core.len()] == p[j - core.len() - 1]);
                        assert(p[j - core.len() - 1] == '.' || is_ident_char(
                            p[j - core.len() - 1],
                        ));
                    }
                },
                None => {},
            }
        }
    }
    let ip = find_char(t, '+');
    match v.build_metadata {
        None => {
            assert(t =~= head);
            lemma_find_char_none(t, '+');
            assert(ip == -1);
        },
        Some(bm) => {
            let kp = head.len() as int;
            assert(t[kp] == '+');
            assert forall|j: int| 0 <= j < kp implies t[j] != '+' by {
                assert(t[j] == head[j]);
            }
            lemma_find_char_is(t, '+', kp);
            assert(ip == kp);
            assert(t.subrange(0, kp) =~= head);
            assert(t.subrange(kp + 1, t.len() as int) =~= bm);
        },
    }
    let id = find_char(head, '-');
    match v.prerelease {
        None => {
            assert(head =~= core);
            assert forall|j: int| 0 <= j < head.len() implies head[j] != '-' by {
                assert(head[j] == core[j]);
            }
            lemma_find_char_none(head, '-');
            assert(id == -1);
        },
        Some(p) => {
            let kd = core.len() as int;
            assert(head[kd] == '-');
            assert forall|j: int| 0 <= j < kd implies head[j] != '-' by {
                assert(head[j] == core[j]);
            }
            lemma_find_char_is(head, '-', kd);
            assert(id == kd);
            assert(head.subrange(0, kd) =~= core);
            assert(head.subrange(kd + 1, head.len() as int) =~= p);
        },
    }
    assert(core[la] == '.');
    assert forall|j: int| 0 <= j < la implies core[j] != '.' by {
        assert(core[j] == a[j]);
        assert(is_digit(a[j]));
    }
    lemma_find_char_is(core, '.', la);
    assert(core.subrange(0, la) =~= a);
    let rest = core.subrange(la + 1, core.len() as int);
    assert(rest =~= b + seq!['.'] + c);
    assert(rest[lb] == '.');
    assert forall|j: int| 0 <= j < lb implies rest[j] != '.' by {
        assert(rest[j] == b[j]);
        assert(is_digit(b[j]));
    }
    lemma_find_char_is(rest, '.', lb);
    assert(rest.subrange(0, lb) =~= b);
    assert(rest.subrange(lb + 1, rest.len() as int) =~= c);
    assert(is_numeric_ident(a));
    assert(is_numeric_ident(b));
    assert(is_numeric_ident(c));
    assert(parse_core(core) == Some((v.major, v.minor, v.patch)));
}

/// Bump monotonicity law: whenever a `Major`, `Minor` or `Patch` bump
/// succeeds, the compared component grows by exactly one, the lower ones
/// reset to zero, the higher ones are kept, and both qualifiers are cleared.
pub proof fn lemma_bump_monotonic(v: VersionView)
    ensures
        spec_bump(v, BumpView::Major) matches Some(n) ==> n.major == v.major + 1 && n.minor == 0
            && n.patch == 0 && n.prerelease is None && n.build_metadata is None,
        spec_bump(v, BumpView::Minor) matches Some(n) ==> n.major == v.major && n.minor == v.minor
            + 1 && n.patch == 0 && n.prerelease is None && n.build_metadata is None,
        spec_bump(v, BumpView::Patch) matches Some(n) ==> n.major == v.major && n.minor == v.minor
            && n.patch == v.patch + 1 && n.prerelease is None && n.build_metadata is None,
{
}

/// A bump of a valid version yields a valid version (for `Custom`, when the
/// requested version is itself valid).
pub proof fn lemma_bump_preserves_valid(cur: VersionView, req: BumpView, nv: VersionView)
    requires
        valid_version_view(cur),
        spec_bump(cur, req) == Some(nv),
        req matches BumpView::Custom(c) ==> valid_version_view(c),
    ensures
        valid_version_view(nv),
{
}

/// Every character of an identifier series is a dot or an identifier
/// character.
pub proof fn lemma_ident_series_chars(s: Seq<char>, pre: bool)
    requires
        is_ident_series(s, pre),
    ensures
        forall|i: int| 0 <= i < s.len() ==> s[i] == '.' || is_ident_char(s[i]),
    decreases s.len(),
{
    lemma_find_char(s, '.');
    let d = find_char(s, '.');
    if d == -1 {
    } else {
        let head = s.subrange(0, d);
        let rest = s.subrange(d + 1, s.len() as int);
        lemma_ident_series_chars(rest, pre);
        assert forall|i: int| 0 <= i < s.len() implies s[i] == '.' || is_ident_char(s[i]) by {
            if i < d {
                assert(s[i] == head[i]);
            } else if i > d {
                assert(s[i] == rest[i - d - 1]);
            }
        }
    }
}

/// The canonical string form of a valid version contains no line separator.
pub proof fn lemma_serialize_no_newline(v: VersionView)
    requires
        valid_version_view(v),
    ensures
        forall|i: int| 0 <= i < spec_serialize(v).len() ==> spec_serialize(v)[i] != '\n',
{
    lemma_dec_rep_canonical(v.major);
    lemma_dec_rep_canonical(v.minor);
    lemma_dec_rep_canonical(v.patch);
    match v.prerelease {
        Some(p) => lemma_ident_series_chars(p, true),
        None => {},
    }
    match v.build_metadata {
        Some(b) => lemma_ident_series_chars(b, false),
        None => {},
    }
    assert forall|c: char| is_digit(c) implies c != '\n' by {}
    assert forall|c: char| is_ident_char(c) implies c != '\n' by {}
    let t = spec_serialize(v);
    assert forall|i: int| 0 <= i < t.len() implies t[i] != '\n' by {
        let a = dec_rep(v.major);
        let b = dec_rep(v.minor);
        let c = dec_rep(v.patch);
        let ps = match v.prerelease {
            Some(p) => seq!['-'] + p,
            None => Seq::<char>::empty(),
        };
        let bs = match v.build_metadata {
            Some(bm) => seq!['+'] + bm,
            None => Seq::<char>::empty(),
        };
        let la = a.len() as int;
        let lb = b.len() as int;
        let lc = c.len() as int;
        if i < la {
            assert(t[i] == a[i]);
            assert(is_digit(a[i]));
        } else if i == la {
            assert(t[i] == '.');
        } else if i < la + 1 + lb {
            assert(t[i] == b[i - la - 1]);
            assert(is_digit(b[i - la - 1]));
        } else if i == la + 1 + lb {
            assert(t[i] == '.');
        } else if i < la + 1 + lb + 1 + lc {
            assert(t[i] == c[i - la - lb - 2]);
            assert(is_digit(c[i - la - lb - 2]));
        } else if i < la + 1 + lb + 1 + lc + ps.len() {
            let k = i - (la + 1 + lb + 1 + lc);
            assert(t[i] == ps[k]);
            match v.prerelease {
                Some(p) => {
                    if k > 0 {
                        assert(ps[k] == p[k - 1]);
                        assert(p[k - 1] == '.' || is_ident_char(p[k - 1]));
                    }
                },
                None => {},
            }
        } else {
            let k = i - (la + 1 + lb + 1 + lc + ps.len());
            assert(t[i] == bs[k]);
            match v.build_metadata {
                Some(bm) => {
                    if k > 0 {
                        assert(bs[k] == bm[k - 1]);
                        assert(bm[k - 1] == '.' || is_ident_char(bm[k - 1]));
                    }
                },
                None => {},
            }
        }
    }
}

/// A successfully parsed model is valid.
proof fn lemma_str_val_bounds_for_parse(s: Seq<char>, v: VersionView)
    requires
        spec_parse(s) == Some(v),
    ensures
        valid_version_view(v),
{
    let ip = find_char(s, '+');
    let head = if ip == -1 {
        s
    } else {
        s.subrange(0, ip)
    };
    let id = find_char(head, '-');
    let core = if id == -1 {
        head
    } else {
        head.subrange(0, id)
    };
    let d1 = find_char(core, '.');
    let maj = core.subrange(0, d1);
    let rest = core.subrange(d1 + 1, core.len() as int);
    let d2 = find_char(rest, '.');
    let min = rest.subrange(0, d2);
    let pat = rest.subrange(d2 + 1, rest.len() as int);
    lemma_str_val_bounds(maj);
    lemma_str_val_bounds(min);
    lemma_str_val_bounds(pat);
}

} // verus!
