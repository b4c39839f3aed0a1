//! What holds of names: which track they are on, and which are refused.
use crate::error::{NameMapError, NameMapErrorView};
use crate::grammar;
use crate::laws::versions;
use crate::naming;
use crate::text;
use crate::version::Version;
use vstd::prelude::*;

verus! {

/// A name with a full version after its first `@` is on a track, whatever
/// stands before the `@`. The track has the same text up to the `@`, and the
/// version of the name is that version.
pub proof fn law_full_version_is_on_track(base: Seq<char>, s: Seq<char>)
    requires
        !base.contains('@'),
        grammar::version_of(s) is Some,
    ensures
        ({
            let name = base + seq!['@'] + s;
            &&& naming::alternate_of(name) is Some
            &&& naming::track_of(name) == naming::alternate_of(name)
            &&& naming::track_of(name) matches Some((track, version)) && {
                &&& Some(version) == grammar::version_of(s)
                &&& track.len() > base.len()
                &&& track.take(base.len() as int + 1) == base + seq!['@']
                &&& naming::canonical_name_of(name) == track
            }
        }),
{
    let name = base + seq!['@'] + s;
    text::lemma_split_first_of_parts(base, '@', s);
    let t = choose|t: grammar::VersionText| t.spells(s) && t.in_range();
    grammar::lemma_spelled(t, s);
    let track = base + seq!['@'] + t.canonical();
    assert(track.take(base.len() as int + 1) =~= base + seq!['@']);
}

/// The track of a name with a full version: up to the major version if that is
/// not 0, else up to the minor version if that is not 0, and else the name
/// without build metadata. The latter is the track of a prerelease too.
pub proof fn law_track_of_full_version(
    base: Seq<char>,
    major: Seq<char>,
    minor: Seq<char>,
    patch: Seq<char>,
    pre: Seq<char>,
    build: Seq<char>,
)
    requires
        !base.contains('@'),
        versions::are_parts(major, minor, patch, pre, build),
    ensures
        ({
            let name = base + seq!['@'] + versions::full_text(major, minor, patch, pre, build);
            let track = naming::canonical_name_of(name);
            let has_major = pre.len() == 0 && grammar::number_value(major) != 0;
            let has_minor = pre.len() == 0 && grammar::number_value(minor) != 0;
            &&& naming::track_of(name) matches Some((t, _)) && t == track
            &&& has_major ==> track == base + seq!['@'] + major
            &&& !has_major && has_minor ==> track == base + seq!['@'] + major + seq!['.'] + minor
            &&& !has_major && !has_minor ==> track == base + seq!['@'] + versions::full_text(
                major,
                minor,
                patch,
                pre,
                Seq::empty(),
            )
        }),
{
    let s = versions::full_text(major, minor, patch, pre, build);
    let t = versions::pieces(major, minor, patch, pre, build);
    let zero = seq!['0'];
    versions::lemma_pieces_text(major, minor, patch, pre, build);
    grammar::lemma_spelled(t, s);
    grammar::lemma_zero();
    if major != zero {
        grammar::lemma_number_positive(major);
    }
    if minor != zero {
        grammar::lemma_number_positive(minor);
    }
    text::lemma_split_first_of_parts(base, '@', s);
    assert(base + seq!['@'] + (major + seq!['.'] + minor) =~= base + seq!['@'] + major + seq!['.']
        + minor);
}

/// A name with a version of the canonical form after its first `@` is on the
/// track that it names itself.
pub proof fn law_canonical_version_is_on_track(base: Seq<char>, s: Seq<char>)
    requires
        !base.contains('@'),
        grammar::padded_version(s) is Some,
    ensures
        ({
            let name = base + seq!['@'] + s;
            &&& naming::canonical_name_of(name) == name
            &&& naming::is_canonical_name(name)
            &&& naming::track_of(name) matches Some((track, version)) && {
                &&& track == name
                &&& Some(version) == grammar::padded_version(s)
            }
        }),
{
    let name = base + seq!['@'] + s;
    text::lemma_split_first_of_parts(base, '@', s);
    let t = grammar::lemma_padded_version(s);
    grammar::lemma_canonical(t, t.text());
}

/// A name is on a track only if there is a full version or one of the
/// canonical form after its first `@`. Other names are their own canonical
/// names.
pub proof fn law_other_names_are_on_no_track(name: Seq<char>)
    ensures
        !name.contains('@') ==> naming::track_of(name) is None,
        forall|base: Seq<char>, s: Seq<char>|
            name == #[trigger] (base + seq!['@'] + s) && !base.contains('@') && grammar::version_of(
                s,
            ) is None && grammar::padded_version(s) is None ==> naming::track_of(name) is None,
        naming::track_of(name) is None ==> naming::canonical_name_of(name) == name,
        naming::track_of(name) is None ==> !naming::is_canonical_name(name),
        naming::alternate_of(name) is Some ==> naming::track_of(name) == naming::alternate_of(name),
{
    text::lemma_split_first(name, '@');
    assert forall|base: Seq<char>, s: Seq<char>|
        name == #[trigger] (base + seq!['@'] + s) && !base.contains('@') && grammar::version_of(
            s,
        ) is None && grammar::padded_version(s) is None implies naming::track_of(name) is None by {
        text::lemma_split_first_of_parts(base, '@', s);
    }
}

/// A name is canonical if what stands after its first `@` is a version of the
/// canonical form.
pub proof fn law_canonical_names(name: Seq<char>)
    ensures
        naming::is_canonical_name(name) <==> (text::split_first(name, '@') matches Some((_, s))
            && grammar::padded_version(s) is Some),
{
    text::lemma_split_first(name, '@');
    if let Some((base, s)) = text::split_first(name, '@') {
        if grammar::padded_version(s) is Some {
            law_canonical_version_is_on_track(base, s);
        } else if naming::alternate_of(name) is Some {
            let t = choose|t: grammar::VersionText| t.spells(s) && t.in_range();
            grammar::lemma_spelled(t, s);
            if naming::is_canonical_name(name) {
                let track = base + seq!['@'] + t.canonical();
                assert(s =~= name.skip(base.len() as int + 1));
                assert(t.canonical() =~= track.skip(base.len() as int + 1));
                grammar::lemma_canonical(t, s);
            }
        }
    }
}

/// Which names are refused, and how. A name that is no component name is
/// refused with the message that says why. A component name is refused only if
/// it is an interface name with something after its first `@` that is neither
/// a full version nor one of the canonical form.
pub proof fn law_refused_names(name: Seq<char>)
    ensures
        match naming::component_name_of(name) {
            Err(message) => naming::name_error(name) == Some(
                NameMapErrorView::InvalidName { name, message },
            ),
            Ok(is_interface) => {
                let refused = is_interface && (text::split_first(name, '@') matches Some((_, s))
                    && grammar::version_of(s) is None && grammar::padded_version(s) is None);
                &&& refused ==> naming::name_error(name) == Some(
                    NameMapErrorView::InvalidVersion { name },
                )
                &&& !refused ==> naming::name_error(name) is None
            },
        },
{
    if let Some((base, s)) = text::split_first(name, '@') {
        text::lemma_split_first(name, '@');
        law_other_names_are_on_no_track(name);
        if grammar::version_of(s) is Some {
            law_full_version_is_on_track(base, s);
        } else if grammar::padded_version(s) is Some {
            law_canonical_version_is_on_track(base, s);
        }
    }
}

/// Which names are refused, whatever the component grammar makes of them: all
/// of which it gives a message, and those interface names on no track whose
/// version it does not take.
pub proof fn law_refused_parsed_names(name: Seq<char>, message: Seq<char>)
    ensures
        naming::parsed_name_error(name, Err(message)) == Some(
            NameMapErrorView::InvalidName { name, message },
        ),
        naming::parsed_name_error(name, Ok(false)) is None,
        match text::split_first(name, '@') {
            Some((_, s)) => {
                let has_version = grammar::version_of(s) is Some || grammar::padded_version(
                    s,
                ) is Some;
                &&& has_version ==> naming::parsed_name_error(name, Ok(true)) is None
                &&& !has_version ==> naming::parsed_name_error(name, Ok(true)) == Some(
                    NameMapErrorView::InvalidVersion { name },
                )
            },
            None => naming::parsed_name_error(name, Ok(true)) == Some(
                NameMapErrorView::InvalidVersion { name },
            ),
        },
{
    if let Some((base, s)) = text::split_first(name, '@') {
        text::lemma_split_first(name, '@');
        law_other_names_are_on_no_track(name);
        if grammar::version_of(s) is Some {
            law_full_version_is_on_track(base, s);
        } else if grammar::padded_version(s) is Some {
            law_canonical_version_is_on_track(base, s);
        }
    }
}

/// The error in a result is the error, and there is none if there is no error.
pub proof fn law_error_in_result<T>(r: Result<T, NameMapError>)
    ensures
        match r {
            Ok(_) => naming::error_view(r) is None,
            Err(e) => naming::error_view(r) == Some(e@),
        },
{
}

/// A track in a result is its name and its version.
pub proof fn law_track_in_result(track: Option<(&str, Version)>)
    ensures
        match track {
            Some((name, version)) => naming::track_view(track) == Some((name@, version@)),
            None => naming::track_view(track) is None,
        },
{
}

} // verus!
