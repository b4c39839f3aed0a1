//! What holds of name maps across their operations.
use crate::grammar::VersionView;
use crate::index_map;
use crate::intern::NameMapIntern;
use crate::naming;
use crate::order;
use crate::state;
use crate::state::NameMapState;
use crate::text;
use vstd::prelude::*;

pub mod inserts;
pub mod merges;
pub mod names;
pub mod versions;

verus! {

/// The tracks of a map without definitions fit, whatever the keys are.
pub proof fn law_empty_is_consistent<I: NameMapIntern, V>(cx: &I)
    ensures
        state::is_linked(NameMapState::<<I::Key as View>::V, V>::empty(), cx),
        state::is_maximal(NameMapState::<<I::Key as View>::V, V>::empty(), cx),
{
    let map = NameMapState::<<I::Key as View>::V, V>::empty();
    assert forall|name: Seq<char>| !#[trigger] state::is_defined(map, cx, name) by {
        if let Some(key) = cx.key_of(name) {
            index_map::lemma_index_of(map.definitions, key);
        }
    }
}

/// A lookup finds a definition that is there, with its value, and says whether
/// it is the definition of the name itself.
pub proof fn law_found_definition<I: NameMapIntern, V>(
    map: NameMapState<<I::Key as View>::V, V>,
    cx: &I,
    name: Seq<char>,
)
    ensures
        match state::find_name(map, cx, name) {
            Some((index, exact)) => {
                &&& 0 <= index < map.definitions.len()
                &&& state::get_name(map, cx, name) == Some(map.definitions[index].1)
                &&& exact <==> cx.key_of(name) == Some(map.definitions[index].0)
            },
            None => state::get_name(map, cx, name) is None,
        },
{
    state::lemma_find_name(map, cx, name);
    if let Some(key) = cx.key_of(name) {
        index_map::lemma_index_of(map.definitions, key);
    }
    if let Some((key, _)) = state::highest(map, cx, naming::canonical_name_of(name)) {
        index_map::lemma_index_of(map.definitions, key);
    }
}

/// What is found in any map, whatever its keys: the definition of the name
/// itself, unless the name is canonical, or else the definition that the entry
/// for its track names, and nothing if there is none.
pub proof fn law_what_is_found<I: NameMapIntern, V>(
    map: NameMapState<<I::Key as View>::V, V>,
    cx: &I,
    name: Seq<char>,
)
    ensures
        ({
            let found = state::get_name(map, cx, name);
            let own = |i: int|
                0 <= i < map.definitions.len() && cx.key_of(name) == Some(map.definitions[i].0);
            let by_track = |j: int, i: int|
                {
                    &&& 0 <= j < map.alternates.len()
                    &&& cx.key_of(naming::canonical_name_of(name)) == Some(map.alternates[j].0)
                    &&& 0 <= i < map.definitions.len()
                    &&& map.definitions[i].0 == map.alternates[j].1.0
                };
            let has_own = !naming::is_canonical_name(name) && exists|i: int| #[trigger] own(i);
            &&& has_own ==> exists|i: int| #[trigger]
                own(i) && found == Some(map.definitions[i].1)
            &&& !has_own && found is Some ==> exists|j: int, i: int| #[trigger]
                by_track(j, i) && found == Some(map.definitions[i].1)
            &&& !has_own && index_map::distinct(map.alternates) && found is None
                ==> !exists|j: int, i: int| #[trigger] by_track(j, i)
        }),
{
    let found = state::get_name(map, cx, name);
    let own = |i: int|
        0 <= i < map.definitions.len() && cx.key_of(name) == Some(map.definitions[i].0);
    let by_track = |j: int, i: int|
        {
            &&& 0 <= j < map.alternates.len()
            &&& cx.key_of(naming::canonical_name_of(name)) == Some(map.alternates[j].0)
            &&& 0 <= i < map.definitions.len()
            &&& map.definitions[i].0 == map.alternates[j].1.0
        };
    let track = cx.key_of(naming::canonical_name_of(name));
    if let Some(key) = cx.key_of(name) {
        index_map::lemma_index_of(map.definitions, key);
        if let Some(i) = index_map::index_of(map.definitions, key) {
            assert(own(i));
        }
    }
    if let Some(key) = track {
        index_map::lemma_index_of(map.alternates, key);
        if let Some(j) = index_map::index_of(map.alternates, key) {
            let exact_key = map.alternates[j].1.0;
            index_map::lemma_index_of(map.definitions, exact_key);
            if let Some(i) = index_map::index_of(map.definitions, exact_key) {
                assert(by_track(j, i));
            }
        }
    }
}

/// A name with a definition of its own, unless it is a canonical name, is
/// found by an exact match.
pub proof fn law_exact_match_first<I: NameMapIntern, V>(
    map: NameMapState<<I::Key as View>::V, V>,
    cx: &I,
    name: Seq<char>,
)
    requires
        state::is_defined(map, cx, name),
        !naming::is_canonical_name(name),
    ensures
        state::find_name(map, cx, name) matches Some((index, exact)) && exact
            && map.definitions[index].0 == cx.key_of(name).unwrap(),
        state::get_name(map, cx, name) == index_map::value_of(
            map.definitions,
            cx.key_of(name).unwrap(),
        ),
{
    index_map::lemma_index_of(map.definitions, cx.key_of(name).unwrap());
}

/// A canonical name, or a name without a definition of its own, is found by
/// its track: if any name on the track is defined then the lookup finds the
/// definition of one of them, and none of the others has a higher version.
pub proof fn law_highest_on_track<I: NameMapIntern, V>(
    map: NameMapState<<I::Key as View>::V, V>,
    cx: &I,
    name: Seq<char>,
    defined: Seq<char>,
) -> (found: Seq<char>)
    requires
        state::is_linked(map, cx),
        state::is_maximal(map, cx),
        naming::is_canonical_name(name) || !state::is_defined(map, cx, name),
        state::is_defined(map, cx, defined),
        naming::track_of(defined) matches Some((track, _)) && track == naming::canonical_name_of(
            name,
        ),
    ensures
        state::is_defined(map, cx, found),
        naming::track_of(found) matches Some((track, highest)) && {
            &&& track == naming::canonical_name_of(name)
            &&& forall|other: Seq<char>| #[trigger]
                state::is_defined(map, cx, other) && other != found ==> (naming::track_of(
                    other,
                ) matches Some((t, version)) ==> t == track ==> !highest.precedes(version))
        },
        state::find_name(map, cx, name) matches Some((index, exact)) && exact == (found == name)
            && map.definitions[index].0 == cx.key_of(found).unwrap(),
        state::get_name(map, cx, name) == index_map::value_of(
            map.definitions,
            cx.key_of(found).unwrap(),
        ),
{
    let track = naming::canonical_name_of(name);
    let track_key = cx.key_of(track).unwrap();
    assert(state::highest(map, cx, track) is Some);
    state::lemma_highest_is_on_track(map, cx, track);
    let (key, version) = state::highest(map, cx, track).unwrap();
    let found = choose|n: Seq<char>| state::is_on_track(cx, n, track_key, key, version);
    if cx.key_of(name) == Some(key) {
        cx.keys_are_distinct(name, found);
    }
    index_map::lemma_index_of(map.definitions, key);
    assert forall|other: Seq<char>| #[trigger]
        state::is_defined(map, cx, other) && other != found implies (naming::track_of(
        other,
    ) matches Some((t, v)) ==> t == track ==> !version.precedes(v)) by {
        if cx.key_of(other) == Some(key) {
            cx.keys_are_distinct(other, found);
        }
    }
    found
}

/// A name without a definition of its own, or a canonical name, is found by a
/// definition that has the same name up to the `@` and a compatible version, if
/// there is one: the lookup finds such a definition, and one whose version is
/// no lower than that of any other.
pub proof fn law_compatible_version_is_found<I: NameMapIntern, V>(
    map: NameMapState<<I::Key as View>::V, V>,
    cx: &I,
    name: Seq<char>,
    defined: Seq<char>,
) -> (found: Seq<char>)
    requires
        state::is_linked(map, cx),
        state::is_maximal(map, cx),
        naming::is_canonical_name(name) || !state::is_defined(map, cx, name),
        state::is_defined(map, cx, defined),
        naming::track_of(name) matches Some((_, version)) && naming::track_of(
            defined,
        ) matches Some((_, defined_version)) && version.is_compatible_with(defined_version),
        text::split_first(name, '@').unwrap().0 == text::split_first(defined, '@').unwrap().0,
    ensures
        state::is_defined(map, cx, found),
        state::get_name(map, cx, name) == index_map::value_of(
            map.definitions,
            cx.key_of(found).unwrap(),
        ),
        text::split_first(found, '@').unwrap().0 == text::split_first(name, '@').unwrap().0,
        naming::track_of(found) matches Some((_, highest)) && {
            &&& naming::track_of(name).unwrap().1.is_compatible_with(highest)
            &&& !highest.precedes(naming::track_of(defined).unwrap().1)
        },
{
    naming::law_same_track_is_compatible(name, defined);
    let found = law_highest_on_track(map, cx, name, defined);
    naming::law_same_track_is_compatible(name, found);
    let version = naming::track_of(defined).unwrap().1;
    order::law_order_is_total(version, version, version);
    found
}

/// A canonical name, or a name without a definition of its own, is not found
/// if no name on its track is defined.
pub proof fn law_other_tracks_do_not_match<I: NameMapIntern, V>(
    map: NameMapState<<I::Key as View>::V, V>,
    cx: &I,
    name: Seq<char>,
)
    requires
        state::is_keyed(map, cx),
        naming::is_canonical_name(name) || !state::is_defined(map, cx, name),
        forall|other: Seq<char>| #[trigger]
            state::is_defined(map, cx, other) ==> (naming::track_of(other) matches Some((track, _))
                ==> track != naming::canonical_name_of(name)),
    ensures
        state::get_name(map, cx, name) is None,
{
    let track = naming::canonical_name_of(name);
    if state::highest(map, cx, track) is Some {
        state::lemma_highest_is_on_track(map, cx, track);
        let (key, version) = state::highest(map, cx, track).unwrap();
        let n = choose|n: Seq<char>|
            state::is_on_track(cx, n, cx.key_of(track).unwrap(), key, version);
        assert(state::is_defined(map, cx, n));
    }
}

/// A name is found with the value that it was inserted with. For a canonical
/// name this holds unless a higher version is defined on its track.
pub proof fn law_get_after_insert<I: NameMapIntern, V>(
    map: NameMapState<<I::Key as View>::V, V>,
    cx: &I,
    name: Seq<char>,
    item: V,
)
    requires
        cx.key_of(name) is Some,
        naming::is_canonical_name(name) ==> (state::highest(map, cx, name) matches Some((_, prev))
            ==> !naming::track_of(name).unwrap().1.precedes(prev)),
    ensures
        state::get_name(
            map.insert(cx.key_of(name).unwrap(), item, state::track_key(cx, name)),
            cx,
            name,
        ) == Some(item),
{
    index_map::lemma_put(map.definitions, cx.key_of(name).unwrap(), item);
    if naming::is_canonical_name(name) {
        law_higher_version_takes_track(map, cx, name, item);
    }
}

/// The canonical name of a track is found with the value of a name inserted on
/// the track, unless that has a lower version than what was there.
pub proof fn law_higher_version_takes_track<I: NameMapIntern, V>(
    map: NameMapState<<I::Key as View>::V, V>,
    cx: &I,
    name: Seq<char>,
    item: V,
)
    requires
        cx.key_of(name) is Some,
        naming::track_of(name) matches Some((track, version)) && {
            &&& cx.key_of(track) is Some
            &&& state::highest(map, cx, track) matches Some((_, prev)) ==> !version.precedes(prev)
        },
    ensures
        state::get_name(
            map.insert(cx.key_of(name).unwrap(), item, state::track_key(cx, name)),
            cx,
            naming::track_of(name).unwrap().0,
        ) == Some(item),
{
    let key = cx.key_of(name).unwrap();
    let (track, version) = naming::track_of(name).unwrap();
    naming::law_track_is_lowest_on_itself(name);
    index_map::lemma_put(map.definitions, key, item);
    index_map::lemma_put(map.alternates, cx.key_of(track).unwrap(), (key, version));
}

/// Inserting a name leaves all other definitions as they are and where they
/// are, whether they are on the same track or not.
pub proof fn law_insert_keeps_definitions<I: NameMapIntern, V>(
    map: NameMapState<<I::Key as View>::V, V>,
    cx: &I,
    name: Seq<char>,
    item: V,
    other: Seq<char>,
)
    requires
        cx.key_of(name) is Some,
        state::is_defined(map, cx, other),
        other != name,
    ensures
        ({
            let after = map.insert(cx.key_of(name).unwrap(), item, state::track_key(cx, name));
            let key = cx.key_of(other).unwrap();
            &&& state::is_defined(after, cx, other)
            &&& index_map::index_of(after.definitions, key) == index_map::index_of(
                map.definitions,
                key,
            )
            &&& index_map::value_of(after.definitions, key) == index_map::value_of(
                map.definitions,
                key,
            )
        }),
{
    index_map::lemma_put(map.definitions, cx.key_of(name).unwrap(), item);
    if cx.key_of(other) == cx.key_of(name) {
        cx.keys_are_distinct(other, name);
    }
}

/// Inserting a name does not change what is found for names on other tracks.
pub proof fn law_insert_keeps_other_tracks<I: NameMapIntern, V>(
    map: NameMapState<<I::Key as View>::V, V>,
    cx: &I,
    name: Seq<char>,
    item: V,
    other: Seq<char>,
)
    requires
        state::is_keyed(map, cx),
        cx.key_of(name) is Some,
        naming::track_of(name) matches Some((track, _)) ==> cx.key_of(track) is Some,
        other != name,
        naming::canonical_name_of(other) != naming::canonical_name_of(name),
    ensures
        state::get_name(
            map.insert(cx.key_of(name).unwrap(), item, state::track_key(cx, name)),
            cx,
            other,
        ) == state::get_name(map, cx, other),
{
    let key = cx.key_of(name).unwrap();
    let track = naming::canonical_name_of(other);
    let after = map.insert(key, item, state::track_key(cx, name));
    index_map::lemma_put(map.definitions, key, item);
    if cx.key_of(other) == cx.key_of(name) {
        cx.keys_are_distinct(other, name);
    }
    if let Some(k) = cx.key_of(other) {
        assert(index_map::value_of(after.definitions, k) == index_map::value_of(
            map.definitions,
            k,
        ));
    }
    if let Some((t, version)) = naming::track_of(name) {
        index_map::lemma_put(map.alternates, cx.key_of(t).unwrap(), (key, version));
        if cx.key_of(track) == cx.key_of(t) {
            cx.keys_are_distinct(t, track);
        }
    }
    if state::highest(map, cx, track) is Some {
        state::lemma_highest_is_on_track(map, cx, track);
        let (k, v) = state::highest(map, cx, track).unwrap();
        let n = choose|n: Seq<char>| state::is_on_track(cx, n, cx.key_of(track).unwrap(), k, v);
        if k == key {
            cx.keys_are_distinct(n, name);
        }
        assert(index_map::value_of(after.definitions, k) == index_map::value_of(
            map.definitions,
            k,
        ));
    }
}

/// Interning more strings does not change what is found.
pub proof fn law_interning_keeps_lookups<I: NameMapIntern, V>(
    map: NameMapState<<I::Key as View>::V, V>,
    before: &I,
    after: &I,
    name: Seq<char>,
)
    requires
        state::is_keyed(map, before),
        state::keeps_keys(before, after),
    ensures
        state::find_name(map, after, name) == state::find_name(map, before, name),
        state::get_name(map, after, name) == state::get_name(map, before, name),
{
    let track = naming::canonical_name_of(name);
    assert(before.key_of(name) is Some ==> after.key_of(name) == before.key_of(name));
    assert(before.key_of(track) is Some ==> after.key_of(track) == before.key_of(track));
    state::lemma_intern_keeps_links(map, before, after);
    if before.key_of(name) is None && after.key_of(name) is Some {
        let key = after.key_of(name).unwrap();
        index_map::lemma_index_of(map.definitions, key);
        if let Some(i) = index_map::index_of(map.definitions, key) {
            assert(state::is_interned(before, map.definitions[i].0));
            let s = choose|s: Seq<char>| #[trigger] before.key_of(s) == Some(key);
            assert(after.key_of(s) == before.key_of(s));
            after.keys_are_distinct(name, s);
        }
    }
    if before.key_of(track) is None && state::highest(map, after, track) is Some {
        let key = after.key_of(track).unwrap();
        index_map::lemma_index_of(map.alternates, key);
        let i = index_map::index_of(map.alternates, key).unwrap();
        let (tk, (k, v)) = map.alternates[i];
        let n = choose|n: Seq<char>| state::is_on_track(before, n, tk, k, v);
        let t = naming::track_of(n).unwrap().0;
        assert(after.key_of(t) == before.key_of(t));
        after.keys_are_distinct(t, track);
    }
}

/// A canonical name never re-keys a definition: there is none below it on its
/// track.
pub proof fn law_canonical_name_does_not_upgrade<I: NameMapIntern, V>(
    map: NameMapState<<I::Key as View>::V, V>,
    cx: &I,
    name: Seq<char>,
)
    requires
        state::is_keyed(map, cx),
        naming::is_canonical_name(name),
        cx.key_of(name) is Some,
    ensures
        !map.is_outdone_by(state::track_key(cx, name)),
{
    if state::highest(map, cx, name) is Some {
        state::lemma_highest_is_on_track(map, cx, name);
        let (key, version) = state::highest(map, cx, name).unwrap();
        let n = choose|n: Seq<char>|
            state::is_on_track(cx, n, cx.key_of(name).unwrap(), key, version);
        naming::law_track_is_lowest_on_itself(n);
    }
}

/// A name that is found by the definition of another name, and that is higher
/// than it, has no definition of its own, so that the definition found can be
/// re-keyed to it.
pub proof fn law_upgrade_is_to_new_name<I: NameMapIntern, V>(
    map: NameMapState<<I::Key as View>::V, V>,
    cx: &I,
    name: Seq<char>,
    index: int,
)
    requires
        state::is_keyed(map, cx),
        state::find_name(map, cx, name) == Some((index, false)),
        map.is_outdone_by(state::track_key(cx, name)),
    ensures
        !state::is_defined(map, cx, name),
{
    state::lemma_upgrade_is_to_new_key(map, cx, cx, name, index);
}

/// Re-keying a definition to a higher version keeps its value, its place and
/// all other definitions, and the definition is found by its new name, by the
/// name that it had, and by the canonical name of the track.
pub proof fn law_upgrade_keeps_definition<I: NameMapIntern, V>(
    map: NameMapState<<I::Key as View>::V, V>,
    cx: &I,
    name: Seq<char>,
    prev_name: Seq<char>,
    index: int,
)
    requires
        state::is_keyed(map, cx),
        cx.key_of(name) is Some,
        state::find_name(map, cx, name) == Some((index, false)),
        map.is_outdone_by(state::track_key(cx, name)),
        cx.key_of(prev_name) == Some(map.definitions[index].0),
    ensures
        ({
            let key = cx.key_of(name).unwrap();
            let after = map.upgrade(index, key, state::track_key(cx, name));
            let (track, version) = naming::track_of(name).unwrap();
            let value = map.definitions[index].1;
            &&& 0 <= index < map.definitions.len()
            &&& after.definitions == map.definitions.update(index, (key, value))
            &&& state::get_name(after, cx, name) == Some(value)
            &&& state::get_name(after, cx, prev_name) == Some(value)
            &&& state::get_name(after, cx, track) == Some(value)
            &&& state::highest(after, cx, track) == Some((key, version))
        }),
{
    let key = cx.key_of(name).unwrap();
    let after = map.upgrade(index, key, state::track_key(cx, name));
    let (track, version) = naming::track_of(name).unwrap();
    let (prev_key, prev) = state::highest(map, cx, track).unwrap();
    naming::law_track_is_lowest_on_itself(name);
    state::lemma_upgrade_is_to_new_key(map, cx, cx, name, index);
    index_map::lemma_index_of(map.definitions, prev_key);
    index_map::lemma_index_of(map.definitions, key);
    index_map::lemma_put(map.alternates, cx.key_of(track).unwrap(), (key, version));
    index_map::lemma_index_of_first(after.definitions, key, index);
    index_map::lemma_index_of(after.definitions, prev_key);
    state::lemma_highest_is_on_track(map, cx, track);
    let n = choose|n: Seq<char>|
        state::is_on_track(cx, n, cx.key_of(track).unwrap(), prev_key, prev);
    cx.keys_are_distinct(n, prev_name);
    if let Some(i) = index_map::index_of(after.definitions, prev_key) {
        assert(map.definitions[i].0 == prev_key);
    }
}

/// Merging keeps the number and the order of the definitions, and all of them
/// but the one that is found.
pub proof fn law_merge_keeps_definitions<I: NameMapIntern, V>(
    before: NameMapState<<I::Key as View>::V, V>,
    cx_before: &I,
    after: NameMapState<<I::Key as View>::V, V>,
    cx_after: &I,
    name: Seq<char>,
    value: V,
    new_value: V,
    i: int,
)
    requires
        state::is_merge(before, cx_before, after, cx_after, name, value, new_value),
        0 <= i < before.definitions.len(),
    ensures
        after.definitions.len() == before.definitions.len(),
        after.definitions[i] == before.definitions[i] || {
            &&& i == state::find_name(before, cx_before, name).unwrap().0
            &&& after.definitions[i].1 == new_value
        },
{
    state::lemma_find_name(before, cx_before, name);
}

/// After a merge the name is found, with the value that it was given.
pub proof fn law_get_after_merge<I: NameMapIntern, V>(
    before: NameMapState<<I::Key as View>::V, V>,
    cx_before: &I,
    after: NameMapState<<I::Key as View>::V, V>,
    cx_after: &I,
    name: Seq<char>,
    value: V,
    new_value: V,
)
    requires
        state::is_keyed(before, cx_before),
        state::interns_only(cx_before, cx_after, name),
        state::is_merge(before, cx_before, after, cx_after, name, value, new_value),
    ensures
        state::get_name(after, cx_after, name) == Some(new_value),
{
    let (index, exact) = state::find_name(before, cx_before, name).unwrap();
    law_interning_keeps_lookups(before, cx_before, cx_after, name);
    state::lemma_intern_keeps_links(before, cx_before, cx_after);
    state::lemma_find_name(before, cx_before, name);
    if !exact && before.is_outdone_by(state::track_key(cx_after, name)) {
        let key = cx_after.key_of(name).unwrap();
        state::lemma_upgrade_is_to_new_key(before, cx_before, cx_after, name, index);
        if naming::is_canonical_name(name) {
            law_canonical_name_does_not_upgrade(before, cx_after, name);
        }
        index_map::lemma_index_of(before.definitions, key);
        index_map::lemma_index_of_first(after.definitions, key, index);
    } else {
        assert(index_map::keys(after.definitions) =~= index_map::keys(before.definitions));
    }
}

/// Re-keying a definition to a higher version changes no lookup.
proof fn lemma_upgrade_keeps_lookups<I: NameMapIntern, V>(
    map: NameMapState<<I::Key as View>::V, V>,
    cx: &I,
    name: Seq<char>,
    index: int,
    other: Seq<char>,
)
    requires
        state::is_keyed(map, cx),
        cx.key_of(name) is Some,
        state::find_name(map, cx, name) == Some((index, false)),
        naming::track_of(name) matches Some((track, version)) && state::highest(
            map,
            cx,
            track,
        ) matches Some((_, prev)) && prev.precedes(version),
    ensures
        ({
            let after = map.upgrade(
                index,
                cx.key_of(name).unwrap(),
                state::track_key(cx, name),
            );
            match state::find_name(map, cx, other) {
                Some((i, _)) => state::find_name(after, cx, other) matches Some((j, _)) && i == j,
                None => state::find_name(after, cx, other) is None,
            }
        }),
{
    let key = cx.key_of(name).unwrap();
    let after = map.upgrade(index, key, state::track_key(cx, name));
    let (track, version) = naming::track_of(name).unwrap();
    let (prev_key, prev) = state::highest(map, cx, track).unwrap();
    let other_track = naming::canonical_name_of(other);
    state::lemma_find_name(map, cx, name);
    state::lemma_upgrade_is_to_new_key(map, cx, cx, name, index);
    if naming::is_canonical_name(name) {
        law_canonical_name_does_not_upgrade(map, cx, name);
    }
    state::lemma_highest_is_on_track(map, cx, track);
    index_map::lemma_index_of(map.definitions, prev_key);
    index_map::lemma_put(map.alternates, cx.key_of(track).unwrap(), (key, version));
    state::lemma_defined_after_upgrade(map, cx, name, index, key);
    let prev_name = choose|n: Seq<char>|
        state::is_on_track(cx, n, cx.key_of(track).unwrap(), prev_key, prev);
    if let Some(k) = cx.key_of(other) {
        state::lemma_defined_after_upgrade(map, cx, name, index, k);
        if k == key {
            cx.keys_are_distinct(other, name);
        }
        if k == prev_key {
            cx.keys_are_distinct(other, prev_name);
        }
    }
    if cx.key_of(other_track) == cx.key_of(track) {
        cx.keys_are_distinct(track, other_track);
    }
    if let Some((k, v)) = state::highest(map, cx, other_track) {
        state::lemma_highest_is_on_track(map, cx, other_track);
        state::lemma_defined_after_upgrade(map, cx, name, index, k);
        let n = choose|n: Seq<char>|
            state::is_on_track(cx, n, cx.key_of(other_track).unwrap(), k, v);
        if k == prev_key {
            cx.keys_are_distinct(n, prev_name);
        }
    }
}

/// Merging changes no lookup: each name finds the definition that it found
/// before, and so the value that it found, unless the merge changes that.
pub proof fn law_merge_keeps_lookups<I: NameMapIntern, V>(
    before: NameMapState<<I::Key as View>::V, V>,
    cx_before: &I,
    after: NameMapState<<I::Key as View>::V, V>,
    cx_after: &I,
    name: Seq<char>,
    value: V,
    new_value: V,
    other: Seq<char>,
)
    requires
        state::is_keyed(before, cx_before),
        state::interns_only(cx_before, cx_after, name),
        state::is_merge(before, cx_before, after, cx_after, name, value, new_value),
    ensures
        match state::find_name(before, cx_before, other) {
            Some((i, _)) => state::find_name(after, cx_after, other) matches Some((j, _)) && i == j,
            None => state::find_name(after, cx_after, other) is None,
        },
        new_value == value ==> state::get_name(after, cx_after, other) == state::get_name(
            before,
            cx_before,
            other,
        ),
{
    let (index, exact) = state::find_name(before, cx_before, name).unwrap();
    let track = state::track_key(cx_after, name);
    law_interning_keeps_lookups(before, cx_before, cx_after, name);
    law_interning_keeps_lookups(before, cx_before, cx_after, other);
    state::lemma_intern_keeps_links(before, cx_before, cx_after);
    state::lemma_find_name(before, cx_before, name);
    state::lemma_find_name(before, cx_before, other);
    let merged = if !exact && before.is_outdone_by(track) {
        state::lemma_upgrade_is_to_new_key(before, cx_before, cx_after, name, index);
        lemma_upgrade_keeps_lookups(before, cx_after, name, index, other);
        before.upgrade(index, cx_after.key_of(name).unwrap(), track)
    } else {
        before
    };
    assert(index_map::keys(after.definitions) =~= index_map::keys(merged.definitions));
}

/// The value of the definition of `name` itself.
spec fn own_value<I: NameMapIntern, V>(
    map: NameMapState<<I::Key as View>::V, V>,
    cx: &I,
    name: Seq<char>,
) -> Option<V> {
    match cx.key_of(name) {
        Some(key) => index_map::value_of(map.definitions, key),
        None => None,
    }
}

/// The value and the version of the highest definition of `track`.
spec fn highest_value<I: NameMapIntern, V>(
    map: NameMapState<<I::Key as View>::V, V>,
    cx: &I,
    track: Seq<char>,
) -> Option<(V, VersionView)> {
    match state::highest(map, cx, track) {
        Some((key, version)) => Some((index_map::value_of(map.definitions, key).unwrap(), version)),
        None => None,
    }
}

/// The value and the version of the highest definition of `track` after the
/// insertion of `name`, if they were `prev` before.
spec fn next_highest<V>(
    prev: Option<(V, VersionView)>,
    track: Seq<char>,
    name: Seq<char>,
    item: V,
) -> Option<(V, VersionView)> {
    match naming::track_of(name) {
        Some((t, version)) if t == track => match prev {
            Some((value, highest)) if version.precedes(highest) => Some((value, highest)),
            _ => Some((item, version)),
        },
        _ => prev,
    }
}

/// What is found for a name depends on its own value and on that of the
/// highest definition of its track.
proof fn lemma_get_name<I: NameMapIntern, V>(
    map: NameMapState<<I::Key as View>::V, V>,
    cx: &I,
    name: Seq<char>,
)
    requires
        state::is_keyed(map, cx),
    ensures
        state::get_name(map, cx, name) == if !naming::is_canonical_name(name) && own_value(
            map,
            cx,
            name,
        ) is Some {
            own_value(map, cx, name)
        } else {
            match highest_value(map, cx, naming::canonical_name_of(name)) {
                Some((value, _)) => Some(value),
                None => None,
            }
        },
{
    let track = naming::canonical_name_of(name);
    if state::highest(map, cx, track) is Some {
        state::lemma_highest_is_on_track(map, cx, track);
    }
}

/// Interning more strings keeps the values.
proof fn lemma_interning_keeps_values<I: NameMapIntern, V>(
    map: NameMapState<<I::Key as View>::V, V>,
    before: &I,
    after: &I,
    name: Seq<char>,
)
    requires
        state::is_keyed(map, before),
        state::keeps_keys(before, after),
    ensures
        own_value(map, after, name) == own_value(map, before, name),
        highest_value(map, after, name) == highest_value(map, before, name),
{
    assert(before.key_of(name) is Some ==> after.key_of(name) == before.key_of(name));
    if before.key_of(name) is None {
        if own_value(map, after, name) is Some {
            state::lemma_defined_before(map, before, after, name);
        }
        if state::highest(map, after, name) is Some {
            let key = after.key_of(name).unwrap();
            index_map::lemma_index_of(map.alternates, key);
            let i = index_map::index_of(map.alternates, key).unwrap();
            let (track_key, (k, v)) = map.alternates[i];
            let n = choose|n: Seq<char>| state::is_on_track(before, n, track_key, k, v);
            let track = naming::track_of(n).unwrap().0;
            assert(after.key_of(track) == before.key_of(track));
            after.keys_are_distinct(track, name);
        }
    }
}

/// The values after the insertion of a name that is not defined.
proof fn lemma_values_after_insert<I: NameMapIntern, V>(
    map: NameMapState<<I::Key as View>::V, V>,
    cx: &I,
    name: Seq<char>,
    item: V,
    other: Seq<char>,
)
    requires
        state::is_keyed(map, cx),
        cx.key_of(name) is Some,
        naming::track_of(name) matches Some((track, _)) ==> cx.key_of(track) is Some,
        !state::is_defined(map, cx, name),
    ensures
        ({
            let after = map.insert(cx.key_of(name).unwrap(), item, state::track_key(cx, name));
            &&& state::is_keyed(after, cx)
            &&& own_value(after, cx, other) == if other == name {
                Some(item)
            } else {
                own_value(map, cx, other)
            }
            &&& highest_value(after, cx, other) == next_highest(
                highest_value(map, cx, other),
                other,
                name,
                item,
            )
        }),
{
    let key = cx.key_of(name).unwrap();
    let after = map.insert(key, item, state::track_key(cx, name));
    state::lemma_insert_keeps_links(map, cx, name, item);
    state::lemma_highest_after_insert(map, cx, name, item, other);
    index_map::lemma_put(map.definitions, key, item);
    if cx.key_of(other) == Some(key) {
        cx.keys_are_distinct(other, name);
    }
    if let Some(k) = cx.key_of(other) {
        assert(k != key ==> index_map::value_of(after.definitions, k) == index_map::value_of(
            map.definitions,
            k,
        ));
    }
    if let Some((k, _)) = state::highest(map, cx, other) {
        state::lemma_highest_is_on_track(map, cx, other);
        assert(index_map::value_of(after.definitions, k) == index_map::value_of(
            map.definitions,
            k,
        ));
    }
}

/// The values after the insertion of two names, one after the other.
proof fn lemma_values_after_inserts<I: NameMapIntern, V>(
    map: NameMapState<<I::Key as View>::V, V>,
    cx: &I,
    cx_after: &I,
    name: Seq<char>,
    item: V,
    next_name: Seq<char>,
    next_item: V,
    other: Seq<char>,
)
    requires
        state::is_keyed(map, cx),
        state::keeps_keys(cx, cx_after),
        can_insert_both(map, cx, cx_after, name, next_name),
    ensures
        ({
            let after = insert_both(map, cx_after, name, item, next_name, next_item);
            &&& state::is_keyed(after, cx_after)
            &&& own_value(after, cx_after, other) == if other == next_name {
                Some(next_item)
            } else if other == name {
                Some(item)
            } else {
                own_value(map, cx, other)
            }
            &&& highest_value(after, cx_after, other) == next_highest(
                next_highest(highest_value(map, cx, other), other, name, item),
                other,
                next_name,
                next_item,
            )
        }),
{
    let key = cx_after.key_of(name).unwrap();
    let middle = map.insert(key, item, state::track_key(cx_after, name));
    state::lemma_intern_keeps_links(map, cx, cx_after);
    lemma_interning_keeps_values(map, cx, cx_after, other);
    if state::is_defined(map, cx_after, name) {
        state::lemma_defined_before(map, cx, cx_after, name);
    }
    if state::is_defined(map, cx_after, next_name) {
        state::lemma_defined_before(map, cx, cx_after, next_name);
    }
    state::lemma_defined_after_insert(map, cx_after, name, item, next_name);
    lemma_values_after_insert(map, cx_after, name, item, other);
    lemma_values_after_insert(middle, cx_after, next_name, next_item, other);
}

/// Whether two names, neither of which is defined, have their keys, and those of
/// their tracks, in `cx_after`.
pub open spec fn can_insert_both<I: NameMapIntern, V>(
    map: NameMapState<<I::Key as View>::V, V>,
    cx: &I,
    cx_after: &I,
    name: Seq<char>,
    other: Seq<char>,
) -> bool {
    &&& name != other
    &&& !state::is_defined(map, cx, name)
    &&& !state::is_defined(map, cx, other)
    &&& cx_after.key_of(name) is Some
    &&& cx_after.key_of(other) is Some
    &&& naming::track_of(name) matches Some((track, _)) ==> cx_after.key_of(track) is Some
    &&& naming::track_of(other) matches Some((track, _)) ==> cx_after.key_of(track) is Some
}

/// The state after the insertion of `name` and then of `next_name`.
pub open spec fn insert_both<I: NameMapIntern, V>(
    map: NameMapState<<I::Key as View>::V, V>,
    cx: &I,
    name: Seq<char>,
    item: V,
    next_name: Seq<char>,
    next_item: V,
) -> NameMapState<<I::Key as View>::V, V> {
    map.insert(cx.key_of(name).unwrap(), item, state::track_key(cx, name)).insert(
        cx.key_of(next_name).unwrap(),
        next_item,
        state::track_key(cx, next_name),
    )
}

/// Lookups do not depend on the order in which two names are inserted, nor on
/// the keys that the names are given, unless the names are on the same track
/// with the same version.
pub proof fn law_insertion_order_does_not_matter<I: NameMapIntern, V>(
    map: NameMapState<<I::Key as View>::V, V>,
    cx: &I,
    cx_one: &I,
    cx_other: &I,
    name: Seq<char>,
    item: V,
    next_name: Seq<char>,
    next_item: V,
    n: Seq<char>,
)
    requires
        state::is_keyed(map, cx),
        state::keeps_keys(cx, cx_one),
        state::keeps_keys(cx, cx_other),
        can_insert_both(map, cx, cx_one, name, next_name),
        can_insert_both(map, cx, cx_other, name, next_name),
        naming::track_of(name) is None || naming::track_of(name) != naming::track_of(next_name),
    ensures
        state::get_name(
            insert_both(map, cx_one, name, item, next_name, next_item),
            cx_one,
            n,
        ) == state::get_name(
            insert_both(map, cx_other, next_name, next_item, name, item),
            cx_other,
            n,
        ),
{
    let one = insert_both(map, cx_one, name, item, next_name, next_item);
    let other = insert_both(map, cx_other, next_name, next_item, name, item);
    let track = naming::canonical_name_of(n);
    lemma_values_after_inserts(map, cx, cx_one, name, item, next_name, next_item, n);
    lemma_values_after_inserts(map, cx, cx_one, name, item, next_name, next_item, track);
    lemma_values_after_inserts(map, cx, cx_other, next_name, next_item, name, item, n);
    lemma_values_after_inserts(map, cx, cx_other, next_name, next_item, name, item, track);
    lemma_get_name(one, cx_one, n);
    lemma_get_name(other, cx_other, n);
    if let Some((_, v)) = naming::track_of(name) {
        if let Some((_, w)) = naming::track_of(next_name) {
            order::law_order_is_total(v, w, w);
            if let Some((_, prev)) = highest_value(map, cx, track) {
                order::law_order_is_total(v, w, prev);
                order::law_order_is_total(w, v, prev);
                order::law_order_is_total(v, prev, w);
                order::law_order_is_total(w, prev, v);
                order::law_order_is_total(prev, v, w);
                order::law_order_is_total(prev, w, v);
            }
        }
    }
}

/// A map is the same after it has been taken apart and put together again.
pub proof fn law_parts_make_the_map<I: NameMapIntern, V>(
    map: NameMapState<<I::Key as View>::V, V>,
    cx: &I,
)
    requires
        state::is_keyed(map, cx),
    ensures
        index_map::put_all(map.definitions) == map.definitions,
        index_map::put_all(map.alternates) == map.alternates,
{
    index_map::lemma_put_all(map.definitions);
    index_map::lemma_put_all(map.alternates);
}

/// A map that is made of entries has the last value of each key, and no other
/// keys.
pub proof fn law_last_entry_counts<K, V>(entries: Seq<(K, V)>, key: K)
    ensures
        index_map::distinct(index_map::put_all(entries)),
        forall|i: int|
            0 <= i < entries.len() && (#[trigger] entries[i]).0 == key && (forall|j: int|
                i < j < entries.len() ==> (#[trigger] entries[j]).0 != key)
                ==> index_map::value_of(index_map::put_all(entries), key) == Some(entries[i].1),
        (forall|i: int| 0 <= i < entries.len() ==> (#[trigger] entries[i]).0 != key)
            ==> index_map::value_of(index_map::put_all(entries), key) is None,
    decreases entries.len(),
{
    index_map::lemma_put_all(entries);
    if entries.len() > 0 {
        let init = entries.drop_last();
        let last = entries.last();
        law_last_entry_counts(init, key);
        index_map::lemma_put(index_map::put_all(init), last.0, last.1);
        assert(entries[entries.len() - 1] == last);
        assert(forall|i: int| 0 <= i < init.len() ==> #[trigger] init[i] == entries[i]);
        assert forall|i: int|
            0 <= i < entries.len() && (#[trigger] entries[i]).0 == key && (forall|j: int|
                i < j < entries.len() ==> (#[trigger] entries[j]).0
                    != key) implies index_map::value_of(index_map::put_all(entries), key) == Some(
            entries[i].1,
        ) by {
            if i < init.len() {
                assert(init[i].0 == key);
                assert(entries[entries.len() - 1].0 != key);
            }
        }
        if forall|i: int| 0 <= i < entries.len() ==> (#[trigger] entries[i]).0 != key {
            assert(entries[entries.len() - 1].0 != key);
        }
    } else {
        index_map::lemma_index_of(index_map::put_all(entries), key);
    }
}

} // verus!
