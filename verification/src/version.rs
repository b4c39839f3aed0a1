//! Semantic versions, their order, and the canonical versions that they share.
use crate::error::OutOfMemory;
use crate::grammar;
use crate::grammar::VersionView;
use crate::intern::TryClone;
use crate::text;
use vstd::prelude::*;
use vstd::string::*;

verus! {

/// The canonical version and the rest of `version`, if `version` is spelled in
/// full, as `wasmparser` splits it: the two parts put together are `version`,
/// and an empty rest is `None`.
pub assume_specification[ wasmparser::names::split_canonical_version ](version: &str) -> (r: Option<
    (&str, Option<&str>),
>)
    ensures
        match r {
            Some((canonical, Some(suffix))) => {
                &&& grammar::canonical_of(version@) == Some(canonical@)
                &&& version@ == canonical@ + suffix@
                &&& suffix@.len() > 0
            },
            Some((canonical, None)) => {
                &&& grammar::canonical_of(version@) == Some(canonical@)
                &&& version@ == canonical@
            },
            None => grammar::canonical_of(version@) is None,
        },
;

/// Whether `version` is a canonical version, as `wasmparser` decides it.
pub assume_specification[ wasmparser::names::is_canonical_version ](version: &str) -> (r: bool)
    ensures
        r == grammar::is_canonical(version@),
;

/// `semver::Version::parse`: the numbers, the prerelease and the build
/// metadata of the version that `s` spells, if it spells one in full, with
/// numbers that fit a `u64` and no leading zeros.
#[verifier::external_body]
fn parse_parts(s: &str) -> (r: Option<(u64, u64, u64, String, String)>)
    ensures
        match r {
            Some((major, minor, patch, pre, build)) => grammar::version_of(s@) == Some(
                VersionView {
                    major: major as nat,
                    minor: minor as nat,
                    patch: patch as nat,
                    pre: pre@,
                    build: build@,
                },
            ),
            None => grammar::version_of(s@) is None,
        },
{
    match semver::Version::parse(s) {
        Ok(v) => Some(
            (v.major, v.minor, v.patch, v.pre.as_str().to_owned(), v.build.as_str().to_owned()),
        ),
        Err(_) => None,
    }
}

/// A semantic version.
#[derive(Debug)]
pub struct Version {
    major: u64,
    minor: u64,
    patch: u64,
    pre: String,
    build: String,
}

impl View for Version {
    type V = VersionView;

    closed spec fn view(&self) -> VersionView {
        VersionView {
            major: self.major as nat,
            minor: self.minor as nat,
            patch: self.patch as nat,
            pre: self.pre@,
            build: self.build@,
        }
    }
}

impl Version {
    #[verifier::type_invariant]
    spec fn is_valid(self) -> bool {
        self@.valid()
    }
}

/// The order of `semver::Version`: whether `a` is lower than `b`.
#[verifier::external_body]
fn version_lt(a: &Version, b: &Version) -> (r: bool)
    requires
        a@.valid(),
        b@.valid(),
    ensures
        r == a@.precedes(b@),
{
    let a = semver::Version {
        major: a.major,
        minor: a.minor,
        patch: a.patch,
        pre: semver::Prerelease::new(&a.pre).unwrap(),
        build: semver::BuildMetadata::new(&a.build).unwrap(),
    };
    let b = semver::Version {
        major: b.major,
        minor: b.minor,
        patch: b.patch,
        pre: semver::Prerelease::new(&b.pre).unwrap(),
        build: semver::BuildMetadata::new(&b.build).unwrap(),
    };
    a < b
}

impl Version {
    /// The version that `s` spells in full, if it does.
    pub fn parse(s: &str) -> (r: Option<Version>)
        ensures
            match r {
                Some(version) => grammar::version_of(s@) == Some(version@),
                None => grammar::version_of(s@) is None,
            },
    {
        match parse_parts(s) {
            Some((major, minor, patch, pre, build)) => {
                proof {
                    grammar::lemma_version_of_valid(s@);
                }
                Some(Version { major, minor, patch, pre, build })
            },
            None => None,
        }
    }

    /// The major version.
    pub fn major(&self) -> (r: u64)
        ensures
            r == self@.major,
    {
        self.major
    }

    /// The minor version.
    pub fn minor(&self) -> (r: u64)
        ensures
            r == self@.minor,
    {
        self.minor
    }

    /// The patch version.
    pub fn patch(&self) -> (r: u64)
        ensures
            r == self@.patch,
    {
        self.patch
    }

    /// The prerelease identifiers, empty if there are none.
    pub fn pre(&self) -> (r: &str)
        ensures
            r@ == self@.pre,
    {
        self.pre.as_str()
    }

    /// The build metadata, empty if there is none.
    pub fn build(&self) -> (r: &str)
        ensures
            r@ == self@.build,
    {
        self.build.as_str()
    }

    /// Whether this version is lower than `other`.
    pub fn lt(&self, other: &Version) -> (r: bool)
        ensures
            r == self@.precedes(other@),
    {
        proof {
            use_type_invariant(self);
            use_type_invariant(other);
        }
        version_lt(self, other)
    }
}

impl TryClone for Version {
    open spec fn never_fails() -> bool {
        true
    }

    fn try_clone(&self) -> (r: Result<Version, OutOfMemory>) {
        proof {
            use_type_invariant(self);
        }
        Ok(
            Version {
                major: self.major,
                minor: self.minor,
                patch: self.patch,
                pre: self.pre.clone(),
                build: self.build.clone(),
            },
        )
    }
}

/// The lowest version with the canonical version `version`: itself with the
/// missing numbers taken to be 0, such as `0.2.0` for `0.2`. There is none if
/// `version` is not canonical or its numbers are too large.
pub fn pad_canonical_version(version: &str) -> (r: Option<Version>)
    ensures
        match r {
            Some(v) => grammar::padded_version(version@) == Some(v@),
            None => grammar::padded_version(version@) is None,
        },
{
    if !wasmparser::names::is_canonical_version(version) {
        return None;
    }
    proof {
        grammar::lemma_canonical_form(version@);
        reveal_strlit(".0.0");
        reveal_strlit(".0");
    }
    match text::split_once(version, '.') {
        None => {
            let mut full = version.to_owned();
            full.append(".0.0");
            assert(full@ =~= version@ + seq!['.', '0', '.', '0']);
            Version::parse(full.as_str())
        },
        Some((_major, rest)) => match text::split_once(rest, '.') {
            None => {
                let mut full = version.to_owned();
                full.append(".0");
                assert(full@ =~= version@ + seq!['.', '0']);
                Version::parse(full.as_str())
            },
            Some(_) => Version::parse(version),
        },
    }
}

} // verus!
