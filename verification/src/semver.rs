//! Semantic versioning functionality.

use vstd::prelude::*;

verus! {

/// A semantic version: `MAJOR.MINOR.PATCH[-PRE][+BUILD]`.
#[derive(Debug)]
pub struct Version {
    /// The major version.
    pub major: u64,
    /// The minor version.
    pub minor: u64,
    /// The patch version.
    pub patch: u64,
    /// The pre-release identifiers, without the leading `-`; empty if none.
    pub pre: String,
    /// The build metadata, without the leading `+`; empty if none.
    pub build: String,
}

/// The mathematical value of a [`Version`]: major, minor, patch, pre-release
/// and build metadata.
pub type VersionView = (u64, u64, u64, Seq<char>, Seq<char>);

impl View for Version {
    type V = VersionView;

    open spec fn view(&self) -> VersionView {
        (self.major, self.minor, self.patch, self.pre@, self.build@)
    }
}

/// The version that `semver::Version::parse` reads from `text`, or `None`
/// where it rejects `text`.
pub uninterp spec fn semver_parse(text: Seq<char>) -> Option<(u64, u64, u64, Seq<char>, Seq<char>)>;

/// The version could not be parsed.
#[derive(Debug, Clone, Copy, PartialEq, Eq, Structural)]
pub struct InvalidVersion;

/// Calls `semver::Version::parse` and takes the parts of the version apart.
///
/// Claims that the result is `semver_parse(text@)`: which text is a valid
/// version, and what it reads, is not stated here; the SemVer grammar that the
/// crate implements is left to it.
#[verifier::external_body]
fn parse_semver(text: &str) -> (r: Option<Version>)
    ensures
        r is Some <==> semver_parse(text@) is Some,
        r matches Some(v) ==> semver_parse(text@) == Some(v@),
{
    match ::semver::Version::parse(text) {
        Ok(v) => Some(
            Version {
                major: v.major,
                minor: v.minor,
                patch: v.patch,
                pre: v.pre.as_str().to_owned(),
                build: v.build.as_str().to_owned(),
            },
        ),
        Err(_) => None,
    }
}

/// Two versions are equal in major, minor, patch and pre-release.
pub open spec fn same_release(a: VersionView, b: VersionView) -> bool {
    a.0 == b.0 && a.1 == b.1 && a.2 == b.2 && a.3 == b.3
}

/// Whether `ver` is compatible with the requirement `req`.
///
/// A pre-release requirement needs an exact match; `1.x.y` accepts the same
/// major version with a minor and patch no lower, compared in that order, so
/// that `1.2.3` accepts `1.2.4` and `1.3.0` but not `1.2.2`; `0.x.y` with `x != 0`
/// accepts the same `0.x` with a patch no smaller; `0.0.z` with `z != 0` only
/// `0.0.z`; otherwise an exact match is needed. Build metadata is ignored.
pub open spec fn compatible_spec(req: VersionView, ver: VersionView) -> bool {
    if req.3.len() != 0 {
        same_release(req, ver)
    } else if req.0 != 0 && req.0 == ver.0 && (req.1 < ver.1 || (req.1 == ver.1 && req.2 <= ver.2)) {
        true
    } else if req.0 == 0 && req.1 != 0 && req.0 == ver.0 && req.1 == ver.1 && req.2 <= ver.2 {
        true
    } else if req.0 == 0 && req.1 == 0 && req.2 != 0 && req.0 == ver.0 && req.1 == ver.1
        && req.2 == ver.2 {
        true
    } else {
        same_release(req, ver)
    }
}

impl Version {
    /// Parse a version with the `semver` crate.
    pub fn parse(text: &str) -> (r: Result<Version, InvalidVersion>)
        ensures
            r is Ok <==> semver_parse(text@) is Some,
            r matches Ok(v) ==> semver_parse(text@) == Some(v@),
    {
        match parse_semver(text) {
            Some(v) => Ok(v),
            None => Err(InvalidVersion),
        }
    }
}

fn eq(a: &Version, b: &Version) -> (r: bool)
    ensures
        r == same_release(a@, b@),
{
    a.major == b.major && a.minor == b.minor && a.patch == b.patch && a.pre == b.pre
}

/// Returns `true` if `ver` is compatible with `req`, else `false`.
pub fn compatible(req: &Version, ver: &Version) -> (r: bool)
    ensures
        r == compatible_spec(req@, ver@),
{
    // Pre-release in requirement requires exact match.
    if !req.pre.as_str().is_empty() {
        return eq(req, ver);
    }
    if req.major != 0 && req.major == ver.major && (req.minor < ver.minor || (req.minor == ver.minor
        && req.patch <= ver.patch)) {
        return true;
    }
    if req.major == 0 && req.minor != 0 && req.major == ver.major && req.minor == ver.minor
        && req.patch <= ver.patch {
        return true;
    }
    if req.major == 0 && req.minor == 0 && req.patch != 0 && req.major == ver.major && req.minor
        == ver.minor && req.patch == ver.patch {
        return true;
    }
    eq(req, ver)
}

/// Every version is compatible with itself.
pub proof fn lemma_compatible_reflexive(v: VersionView)
    ensures
        compatible_spec(v, v),
{
}

/// Build metadata plays no part in compatibility, on either side.
pub proof fn lemma_compatible_ignores_build(
    req: VersionView,
    ver: VersionView,
    build_req: Seq<char>,
    build_ver: Seq<char>,
)
    ensures
        compatible_spec(req, ver) == compatible_spec(
            (req.0, req.1, req.2, req.3, build_req),
            (ver.0, ver.1, ver.2, ver.3, build_ver),
        ),
{
}

/// A version is never compatible with a requirement of a different major
/// version.
pub proof fn lemma_compatible_same_major(req: VersionView, ver: VersionView)
    requires
        compatible_spec(req, ver),
    ensures
        req.0 == ver.0,
{
}

/// A requirement without pre-release and with a nonzero major version
/// accepts every later release of that major version.
pub proof fn lemma_compatible_later_release(req: VersionView, ver: VersionView)
    requires
        req.3.len() == 0,
        req.0 != 0,
        req.0 == ver.0,
        req.1 < ver.1 || (req.1 == ver.1 && req.2 <= ver.2),
    ensures
        compatible_spec(req, ver),
{
}

/// What compatibility means, case by case, for a requirement `req` and a
/// version `ver`:
/// - a requirement with a pre-release accepts only the same release;
/// - `M.m.p` with `M != 0` accepts the versions of major `M` whose minor and
///   patch are no lower than `m.p`, compared in that order;
/// - `0.m.p` with `m != 0` accepts the versions `0.m.q` with `q >= p`;
/// - `0.0.p` with `p != 0` accepts only versions `0.0.p`;
/// - `0.0.0` accepts only `0.0.0` itself, without pre-release.
///
/// A version's own pre-release and build metadata play no part beyond that.
pub proof fn lemma_compatible_cases(req: VersionView, ver: VersionView)
    ensures
        req.3.len() != 0 ==> (compatible_spec(req, ver) <==> (req.0 == ver.0 && req.1 == ver.1 && req.2 == ver.2
            && req.3 == ver.3)),
        req.3.len() == 0 && req.0 != 0 ==> (compatible_spec(req, ver) <==> (ver.0 == req.0 && (req.1 < ver.1 || (
        req.1 == ver.1 && req.2 <= ver.2)))),
        req.3.len() == 0 && req.0 == 0 && req.1 != 0 ==> (compatible_spec(req, ver) <==> (ver.0 == 0 && ver.1 == req.1
            && req.2 <= ver.2)),
        req.3.len() == 0 && req.0 == 0 && req.1 == 0 && req.2 != 0 ==> (compatible_spec(req, ver) <==> (ver.0 == 0
            && ver.1 == 0 && ver.2 == req.2)),
        req.3.len() == 0 && req.0 == 0 && req.1 == 0 && req.2 == 0 ==> (compatible_spec(req, ver) <==> (ver.0 == 0
            && ver.1 == 0 && ver.2 == 0 && ver.3.len() == 0)),
{
    if req.3.len() == 0 && req.0 == 0 && req.1 == 0 && req.2 == 0 && ver.3.len() == 0 {
        assert(req.3 =~= ver.3);
    }
}

/// A requirement `0.0.z` with `z != 0` and no pre-release accepts exactly
/// the versions `0.0.z`.
pub proof fn lemma_compatible_patch_only(req: VersionView, ver: VersionView)
    requires
        req.3.len() == 0,
        req.0 == 0,
        req.1 == 0,
        req.2 != 0,
    ensures
        compatible_spec(req, ver) <==> (ver.0 == req.0 && ver.1 == req.1 && ver.2 == req.2),
{
}

} // verus!
