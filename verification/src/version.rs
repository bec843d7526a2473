//! Semantic versions, as plain values, ordered and parsed by `semver`.

use vstd::prelude::*;
use crate::text::{decimal, push_char, push_decimal, str_eq};

verus! {

#[verifier::external_type_specification]
#[verifier::external_body]
pub struct ExSemverVersion(semver::Version);

/// A version's components.
pub struct VersionSpec {
    pub major: u64,
    pub minor: u64,
    pub patch: u64,
    pub pre: Seq<char>,
    pub build: Seq<char>,
}

/// A semantic version. The numbers and identifiers are held as plain values,
/// and `raw` is the same version as `semver` holds it, for its ordering. The
/// fields are private: only `new` and `parse` build a value, and both keep
/// the two in agreement.
pub struct SemVer {
    major: u64,
    minor: u64,
    patch: u64,
    pre: String,
    build: String,
    raw: semver::Version,
}

impl View for SemVer {
    type V = VersionSpec;

    closed spec fn view(&self) -> VersionSpec {
        VersionSpec {
            major: self.major,
            minor: self.minor,
            patch: self.patch,
            pre: self.pre@,
            build: self.build@,
        }
    }
}

/// A version text that `semver` refused.
#[derive(Debug)]
pub struct VersionError {
    pub message: String,
}

/// What `semver::Version::parse` makes of a text: `None` where it refuses it.
pub uninterp spec fn parsed_version(text: Seq<char>) -> Option<VersionSpec>;

/// The sign of `semver`'s total order on versions: -1, 0 or 1.
pub uninterp spec fn version_order(a: VersionSpec, b: VersionSpec) -> int;

/// Lexicographic order of the numeric parts alone.
pub open spec fn numeric_order(a: VersionSpec, b: VersionSpec) -> int {
    if a.major != b.major {
        if a.major < b.major { -1 } else { 1 }
    } else if a.minor != b.minor {
        if a.minor < b.minor { -1 } else { 1 }
    } else if a.patch != b.patch {
        if a.patch < b.patch { -1 } else { 1 }
    } else {
        0
    }
}

/// `a < b` in `semver`'s order.
pub open spec fn version_lt(a: VersionSpec, b: VersionSpec) -> bool {
    version_order(a, b) < 0
}

/// `a <= b` in `semver`'s order.
pub open spec fn version_le(a: VersionSpec, b: VersionSpec) -> bool {
    version_order(a, b) <= 0
}

/// The canonical text: `major.minor.patch`, then `-pre` and `+build` when
/// present.
pub open spec fn version_text(v: VersionSpec) -> Seq<char> {
    decimal(v.major as nat) + seq!['.'] + decimal(v.minor as nat) + seq!['.'] + decimal(
        v.patch as nat,
    ) + (if v.pre.len() > 0 {
        seq!['-'] + v.pre
    } else {
        Seq::empty()
    }) + (if v.build.len() > 0 {
        seq!['+'] + v.build
    } else {
        Seq::empty()
    })
}

/// A stable release: no pre-release identifiers.
pub open spec fn is_stable(v: VersionSpec) -> bool {
    v.pre.len() == 0
}

/// Cargo's compatibility rule: `1.x` stays on its major, `0.y` (y > 0) on
/// its minor, and `0.0.z` on its exact patch.
pub open spec fn same_line(a: VersionSpec, b: VersionSpec) -> bool {
    if a.major > 0 {
        b.major == a.major
    } else if a.minor > 0 {
        b.major == 0 && b.minor == a.minor
    } else {
        b.major == 0 && b.minor == 0 && b.patch == a.patch
    }
}

/// Cargo's caret rule: `b` is on `a`'s line exactly when it agrees with `a`
/// on every component up to and including `a`'s leftmost non-zero one (all
/// three where every component is zero).
pub proof fn law_same_line_caret(a: VersionSpec, b: VersionSpec)
    ensures
        same_line(a, b) <==> (b.major == a.major && (a.major == 0 ==> b.minor == a.minor) && (a.major == 0
            && a.minor == 0 ==> b.patch == a.patch)),
{
}

/// Being on one compatibility line is an equivalence: every version is on
/// its own line, the relation goes both ways, and it carries over.
pub proof fn law_same_line_equivalence(a: VersionSpec, b: VersionSpec, c: VersionSpec)
    ensures
        same_line(a, a),
        same_line(a, b) ==> same_line(b, a),
        same_line(a, b) && same_line(b, c) ==> same_line(a, c),
{
}

/// Below 1.0 a minor bump leaves the line: `0.y.z` and `0.y'.z'` with
/// `y != y'` and `y > 0` are never on one line.
pub proof fn law_zero_minor_is_breaking(a: VersionSpec, b: VersionSpec)
    requires
        a.major == 0,
        a.minor > 0,
        b.minor != a.minor,
    ensures
        !same_line(a, b),
        !same_line(b, a),
{
}

#[verifier::external_body]
fn clone_raw(v: &semver::Version) -> (r: semver::Version)
    ensures
        r == *v,
{
    v.clone()
}

impl SemVer {
    /// `semver::Version::new`: the release `major.minor.patch`.
    #[verifier::external_body]
    pub fn new(major: u64, minor: u64, patch: u64) -> (v: SemVer)
        ensures
            v@ == (VersionSpec {
                major,
                minor,
                patch,
                pre: Seq::<char>::empty(),
                build: Seq::<char>::empty(),
            }),
    {
        SemVer {
            major,
            minor,
            patch,
            pre: String::new(),
            build: String::new(),
            raw: semver::Version::new(major, minor, patch),
        }
    }

    /// `semver::Version::parse`, with its result named by `parsed_version`.
    #[verifier::external_body]
    pub fn parse(text: &str) -> (r: Result<SemVer, VersionError>)
        ensures
            r is Ok <==> parsed_version(text@) is Some,
            r matches Ok(v) ==> parsed_version(text@) == Some(v@),
    {
        match semver::Version::parse(text) {
            Ok(raw) => Ok(
                SemVer {
                    major: raw.major,
                    minor: raw.minor,
                    patch: raw.patch,
                    pre: raw.pre.as_str().to_string(),
                    build: raw.build.as_str().to_string(),
                    raw,
                },
            ),
            Err(err) => Err(VersionError { message: err.to_string() }),
        }
    }

    /// `semver`'s `Ord` on versions, which is derived over (major, minor,
    /// patch, pre, build): numbers compare first, a release is above its own
    /// pre-releases, equal components compare equal, and the order is a
    /// total order (antisymmetric and transitive). How two pre-release or
    /// build texts compare beyond that is named, not stated.
    #[verifier::external_body]
    pub fn compare(&self, other: &SemVer) -> (r: i8)
        ensures
            r == version_order(self@, other@),
            r == -1 || r == 0 || r == 1,
            (r == 0) <==> (self@ == other@),
            r == -version_order(other@, self@),
            numeric_order(self@, other@) != 0 ==> r == numeric_order(self@, other@),
            numeric_order(self@, other@) == 0 && self@.pre.len() == 0 && other@.pre.len() > 0
                ==> r == 1,
            numeric_order(self@, other@) == 0 && self@.pre.len() > 0 && other@.pre.len() == 0
                ==> r == -1,
            forall|c: VersionSpec|
                r <= 0 && #[trigger] version_order(other@, c) <= 0 ==> version_order(self@, c)
                    <= 0,
            forall|c: VersionSpec|
                r >= 0 && #[trigger] version_order(other@, c) >= 0 ==> version_order(self@, c)
                    >= 0,
    {
        match self.raw.cmp(&other.raw) {
            std::cmp::Ordering::Less => -1,
            std::cmp::Ordering::Equal => 0,
            std::cmp::Ordering::Greater => 1,
        }
    }

    pub fn major(&self) -> (r: u64)
        ensures
            r == self@.major,
    {
        self.major
    }

    pub fn minor(&self) -> (r: u64)
        ensures
            r == self@.minor,
    {
        self.minor
    }

    pub fn patch(&self) -> (r: u64)
        ensures
            r == self@.patch,
    {
        self.patch
    }

    /// A copy of this version.
    pub fn duplicate(&self) -> (r: SemVer)
        ensures
            r@ == self@,
    {
        SemVer {
            major: self.major,
            minor: self.minor,
            patch: self.patch,
            pre: self.pre.clone(),
            build: self.build.clone(),
            raw: clone_raw(&self.raw),
        }
    }

    /// Whether two versions have the same components.
    pub fn same(&self, other: &SemVer) -> (r: bool)
        ensures
            r == (self@ == other@),
    {
        self.major == other.major && self.minor == other.minor && self.patch == other.patch
            && str_eq(self.pre.as_str(), other.pre.as_str()) && str_eq(
            self.build.as_str(),
            other.build.as_str(),
        )
    }

    pub fn is_prerelease(&self) -> (r: bool)
        ensures
            r == !is_stable(self@),
    {
        !self.pre.as_str().is_empty()
    }

    /// Appends the canonical text of this version.
    pub fn push_text(&self, out: &mut String)
        ensures
            final(out)@ == old(out)@ + version_text(self@),
    {
        push_decimal(out, self.major);
        push_char(out, '.');
        push_decimal(out, self.minor);
        push_char(out, '.');
        push_decimal(out, self.patch);
        if !self.pre.as_str().is_empty() {
            push_char(out, '-');
            out.append(self.pre.as_str());
        }
        if !self.build.as_str().is_empty() {
            push_char(out, '+');
            out.append(self.build.as_str());
        }
        assert(final(out)@ =~= old(out)@ + version_text(self@));
    }

    /// The canonical text of this version (what `Display` prints).
    pub fn to_text(&self) -> (r: String)
        ensures
            r@ == version_text(self@),
    {
        let mut s = String::new();
        self.push_text(&mut s);
        assert(s@ =~= version_text(self@));
        s
    }

    /// Whether `other` lies on this version's Cargo compatibility line.
    pub fn on_same_line(&self, other: &SemVer) -> (r: bool)
        ensures
            r == same_line(self@, other@),
    {
        if self.major > 0 {
            other.major == self.major
        } else if self.minor > 0 {
            other.major == 0 && other.minor == self.minor
        } else {
            other.major == 0 && other.minor == 0 && other.patch == self.patch
        }
    }
}

} // verus!
