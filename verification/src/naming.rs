//! The names of component imports and exports, and the semver tracks that
//! they are on.
use crate::error::{NameMapError, NameMapErrorView};
use crate::grammar;
use crate::grammar::{VersionText, VersionView};
use crate::order;
use crate::text;
use crate::version::{pad_canonical_version, Version};
use vstd::prelude::*;
use vstd::string::*;
use wasmparser::names::{ComponentName, ComponentNameKind};

verus! {

/// The canonical name and the version of `name`, if what stands after its
/// first `@` is a version in full.
pub open spec fn alternate_of(name: Seq<char>) -> Option<(Seq<char>, VersionView)> {
    match text::split_first(name, '@') {
        Some((base, version)) => match (
            grammar::canonical_of(version),
            grammar::version_of(version),
        ) {
            (Some(canonical), Some(v)) => Some((base + seq!['@'] + canonical, v)),
            _ => None,
        },
        None => None,
    }
}

/// The canonical name of the track that `name` is on, or `name` itself if it
/// has no full version.
pub open spec fn canonical_name_of(name: Seq<char>) -> Seq<char> {
    match alternate_of(name) {
        Some((canonical, _)) => canonical,
        None => name,
    }
}

/// The canonical name of the track that `name` is on and the version of
/// `name`, which is the lowest of the track for a canonical name.
pub open spec fn track_of(name: Seq<char>) -> Option<(Seq<char>, VersionView)> {
    match alternate_of(name) {
        Some(track) => Some(track),
        None => match text::split_first(name, '@') {
            Some((_, version)) => match grammar::padded_version(version) {
                Some(v) => Some((name, v)),
                None => None,
            },
            None => None,
        },
    }
}

/// The canonical name and the version of `name`, as they are given by
/// `alternate_lookup_key` and `semver_track`.
pub open spec fn track_view(track: Option<(&str, Version)>) -> Option<(Seq<char>, VersionView)> {
    match track {
        Some((canonical, version)) => Some((canonical@, version@)),
        None => None,
    }
}

/// Determines a version-based "alternate lookup key" for the `name` specified.
///
/// Some examples are:
///
/// * `foo` => `None`
/// * `foo:bar/baz` => `None`
/// * `foo:bar/baz@1.1.2` => `Some(foo:bar/baz@1)`
/// * `foo:bar/baz@0.1.0` => `Some(foo:bar/baz@0.1)`
/// * `foo:bar/baz@0.0.1` => `Some(foo:bar/baz@0.0.1)`
/// * `foo:bar/baz@0.0.1+abc` => `Some(foo:bar/baz@0.0.1)`
/// * `foo:bar/baz@0.1.0-rc.2+abc` => `Some(foo:bar/baz@0.1.0-rc.2)`
/// * `foo:bar/baz@1` => `None`
///
/// The alternate lookup key is the canonical name of `name` and is only
/// returned if `name` has a full version. It serves to locate a
/// semver-compatible definition, if one is defined, at perhaps either a newer
/// or an older version.
pub fn alternate_lookup_key(name: &str) -> (r: Option<(&str, Version)>)
    ensures
        track_view(r) == alternate_of(name@),
{
    let (base, version_string) = match text::split_once(name, '@') {
        Some(parts) => parts,
        None => return None,
    };
    let canonical = match wasmparser::names::split_canonical_version(version_string) {
        Some((canonical, _suffix)) => canonical,
        None => return None,
    };
    let version = match Version::parse(version_string) {
        Some(version) => version,
        None => return None,
    };
    let ghost at = seq!['@'];
    let ghost front = base@ + at + canonical@;
    let ghost rest = version_string@.skip(canonical@.len() as int);
    proof {
        text::lemma_split_first(name@, '@');
        assert(name@ =~= front + rest);
        text::lemma_encode_concat(front, rest);
        text::lemma_encode_concat(base@ + at, canonical@);
        text::lemma_encode_concat(base@, at);
        assert(vstd::utf8::encode_utf8(at).len() == 1) by {
            reveal_with_fuel(vstd::utf8::encode_utf8, 2);
        }
    }
    let total: usize = name.as_bytes().len();
    assert(total >= base.spec_bytes().len() + 1 + canonical.spec_bytes().len());
    let (key, _) = text::split_after(
        name,
        base.as_bytes().len() + 1 + canonical.as_bytes().len(),
        Ghost(front),
        Ghost(rest),
    );
    Some((key, version))
}

/// Returns the canonical name of the semver track that `name` is on.
///
/// This is the same as [`alternate_lookup_key`] except that names without an
/// alternate lookup key are returned as-is. Some examples are:
///
/// * `foo` => `foo`
/// * `foo:bar/baz@1.1.2` => `foo:bar/baz@1`
/// * `foo:bar/baz@1` => `foo:bar/baz@1`
/// * `foo:bar/baz@0.1.0` => `foo:bar/baz@0.1`
/// * `foo:bar/baz@0.0.1+abc` => `foo:bar/baz@0.0.1`
pub fn canonical_name(name: &str) -> (r: &str)
    ensures
        r@ == canonical_name_of(name@),
{
    match alternate_lookup_key(name) {
        Some((name, _version)) => name,
        None => name,
    }
}

/// Returns the semver track that `name` is on, along with the version of
/// `name`.
///
/// This is the same as [`alternate_lookup_key`] except that canonical names,
/// such as `a:b/c@0.2`, are on their own track and have the lowest version on
/// that track, such as `0.2.0`, see [`pad_canonical_version`].
pub fn semver_track(name: &str) -> (r: Option<(&str, Version)>)
    ensures
        track_view(r) == track_of(name@),
{
    let track = alternate_lookup_key(name);
    if track.is_some() {
        return track;
    }
    match text::split_once(name, '@') {
        Some((_base, version)) => match pad_canonical_version(version) {
            Some(version) => Some((name, version)),
            None => None,
        },
        None => None,
    }
}

/// What the component model's grammar makes of a name.
pub enum ParsedName {
    /// An interface name, such as `a:b/c@0.2.1`. Its version, if any, may not
    /// be a full one, and then `version_error` is true.
    Interface { version_error: bool },
    /// A name of another kind.
    Other,
}

/// What the component model's grammar makes of `name`: whether it is an
/// interface name, or the message that says why it is not a name.
pub uninterp spec fn component_name_of(name: Seq<char>) -> Result<bool, Seq<char>>;

/// Whether there is an `@` in `name` and no full version after the first one.
pub open spec fn lacks_full_version(name: Seq<char>) -> bool {
    text::split_first(name, '@') matches Some((_, version)) && grammar::version_of(version) is None
}

/// `wasmparser`'s `ComponentName::new_with_features` with all features: the
/// kind of `name`, or the message of the error if it is not a name. Which names
/// there are and what the message says is not spelled out. Of an interface
/// name, `InterfaceName::version` without a suffix is an error where there is
/// an `@` in the name and no full version after it.
#[verifier::external_body]
fn parse_component_name(name: &str) -> (r: Result<ParsedName, String>)
    ensures
        match r {
            Ok(ParsedName::Interface { version_error }) => {
                &&& component_name_of(name@) == Ok::<bool, Seq<char>>(true)
                &&& version_error == lacks_full_version(name@)
            },
            Ok(ParsedName::Other) => component_name_of(name@) == Ok::<bool, Seq<char>>(false),
            Err(message) => component_name_of(name@) == Err::<bool, Seq<char>>(message@),
        },
{
    match ComponentName::new_with_features(name, 0, wasmparser::WasmFeatures::all()) {
        Ok(parsed) => match parsed.kind() {
            ComponentNameKind::Interface(interface) => {
                Ok(ParsedName::Interface { version_error: interface.version(None).is_err() })
            },
            ComponentNameKind::Plain(_)
            | ComponentNameKind::Dependency(_)
            | ComponentNameKind::Url(_)
            | ComponentNameKind::Hash(_) => Ok(ParsedName::Other),
        },
        Err(e) => Err(e.message().to_owned()),
    }
}

/// The error for `name`, if there is one, given what its grammar makes of it:
/// a message, or else whether it is an interface name without a full version.
pub open spec fn parsed_name_error(name: Seq<char>, parsed: Result<bool, Seq<char>>) -> Option<
    NameMapErrorView,
> {
    match parsed {
        Ok(version_error) => if version_error && track_of(name) is None {
            Some(NameMapErrorView::InvalidVersion { name })
        } else {
            None
        },
        Err(message) => Some(NameMapErrorView::InvalidName { name, message }),
    }
}

/// The error for `name`, if it is not a valid component import or export name.
pub open spec fn name_error(name: Seq<char>) -> Option<NameMapErrorView> {
    match component_name_of(name) {
        Ok(is_interface) => parsed_name_error(
            name,
            Ok(is_interface && lacks_full_version(name)),
        ),
        Err(message) => parsed_name_error(name, Err(message)),
    }
}

/// The error in a result, if there is one.
pub open spec fn error_view<T>(r: Result<T, NameMapError>) -> Option<NameMapErrorView> {
    match r {
        Ok(_) => None,
        Err(e) => Some(e@),
    }
}

/// Validates `name`, given what its grammar makes of it: an interface name
/// has to have a full version, such as `a:b/c@0.2.1`, or a canonical version,
/// such as `a:b/c@0.2`, if it has any.
pub fn validate_parsed_name(name: &str, parsed: Result<ParsedName, String>) -> (r: Result<
    (),
    NameMapError,
>)
    ensures
        error_view(r) == parsed_name_error(
            name@,
            match parsed {
                Ok(ParsedName::Interface { version_error }) => Ok(version_error),
                Ok(ParsedName::Other) => Ok(false),
                Err(message) => Err(message@),
            },
        ),
{
    let parsed = match parsed {
        Ok(parsed) => parsed,
        Err(message) => {
            return Err(NameMapError::InvalidName { name: name.to_owned(), message });
        },
    };
    if let ParsedName::Interface { version_error } = parsed {
        if version_error && semver_track(name).is_none() {
            return Err(NameMapError::InvalidVersion { name: name.to_owned() });
        }
    }
    Ok(())
}

/// Validates that `name` is a valid component import or export name.
///
/// In addition to the checks of the component model's grammar, this requires
/// that the version of an interface name, if any, is either a full version,
/// such as `a:b/c@0.2.1`, or a canonical version, such as `a:b/c@0.2`.
pub fn validate_name(name: &str) -> (r: Result<(), NameMapError>)
    ensures
        error_view(r) == name_error(name@),
{
    validate_parsed_name(name, parse_component_name(name))
}

/// Whether `name` is the canonical name of its own track, as in `a:b/c@0.2`.
pub open spec fn is_canonical_name(name: Seq<char>) -> bool {
    track_of(name) matches Some((track, _)) && track == name
}

/// The name of a track is a canonical name, on that track, and its version is
/// the lowest of all versions on the track.
pub proof fn law_track_is_lowest_on_itself(name: Seq<char>)
    ensures
        track_of(name) matches Some((track, version)) ==> {
            &&& is_canonical_name(track)
            &&& canonical_name_of(track) == track
            &&& !version.precedes(track_of(track).unwrap().1)
        },
{
    if let Some((base, s)) = text::split_first(name, '@') {
        text::lemma_split_first(name, '@');
        if alternate_of(name) is Some {
            let t = choose|t: VersionText| t.spells(s) && t.in_range();
            grammar::lemma_spelled(t, s);
            grammar::lemma_canonical(t, s);
            grammar::lemma_zero();
            order::lemma_empty_list_is_first(t.version().build);
            order::law_order_is_total(t.version(), t.version(), t.version());
            text::lemma_split_first_of_parts(base, '@', t.canonical());
        } else if let Some(v) = grammar::padded_version(s) {
            order::law_order_is_total(v, v, v);
        }
    }
}

/// Taking the canonical name of a name twice is the same as taking it once.
pub proof fn law_canonical_name_idempotent(name: Seq<char>)
    ensures
        canonical_name_of(canonical_name_of(name)) == canonical_name_of(name),
{
    law_track_is_lowest_on_itself(name);
}

/// A name that is on a track has the name of the track as its canonical name.
pub proof fn law_canonical_name_is_track(name: Seq<char>)
    ensures
        track_of(name) matches Some((track, _)) ==> canonical_name_of(name) == track,
{
}

/// Names on the same track differ after the `@` only.
pub proof fn law_track_keeps_base(name: Seq<char>)
    ensures
        track_of(name) matches Some((track, _)) ==> {
            &&& text::split_first(name, '@') is Some
            &&& text::split_first(track, '@') is Some
            &&& text::split_first(name, '@').unwrap().0 == text::split_first(track, '@').unwrap().0
        },
{
    if let Some((base, s)) = text::split_first(name, '@') {
        text::lemma_split_first(name, '@');
        if alternate_of(name) is Some {
            let t = choose|t: VersionText| t.spells(s) && t.in_range();
            grammar::lemma_spelled(t, s);
            grammar::lemma_canonical(t, s);
            text::lemma_split_first_of_parts(base, '@', t.canonical());
        }
    }
}

/// The pieces of the version of a name that is on a track.
proof fn lemma_track_text(name: Seq<char>) -> (t: VersionText)
    requires
        track_of(name) is Some,
    ensures
        t.well_formed(),
        t.in_range(),
        text::split_first(name, '@') matches Some((base, _)) && track_of(name) == Some(
            (base + seq!['@'] + t.canonical(), t.version()),
        ),
{
    let (base, s) = text::split_first(name, '@').unwrap();
    text::lemma_split_first(name, '@');
    if alternate_of(name) is Some {
        let t = choose|t: VersionText| t.spells(s) && t.in_range();
        grammar::lemma_spelled(t, s);
        t
    } else {
        grammar::lemma_padded_version(s)
    }
}

/// Two names are on the same track if they are the same up to the `@` and
/// semver takes their versions to be compatible.
pub proof fn law_same_track_is_compatible(name: Seq<char>, other: Seq<char>)
    requires
        track_of(name) is Some,
        track_of(other) is Some,
    ensures
        ({
            let (track, version) = track_of(name).unwrap();
            let (other_track, other_version) = track_of(other).unwrap();
            track == other_track <==> {
                &&& text::split_first(name, '@').unwrap().0 == text::split_first(
                    other,
                    '@',
                ).unwrap().0
                &&& version.is_compatible_with(other_version)
            }
        }),
{
    let t = lemma_track_text(name);
    let u = lemma_track_text(other);
    let base = text::split_first(name, '@').unwrap().0;
    let other_base = text::split_first(other, '@').unwrap().0;
    text::lemma_split_first(name, '@');
    text::lemma_split_first(other, '@');
    text::lemma_split_first_of_parts(base, '@', t.canonical());
    text::lemma_split_first_of_parts(other_base, '@', u.canonical());
    grammar::lemma_compatible(t, u);
}

} // verus!
