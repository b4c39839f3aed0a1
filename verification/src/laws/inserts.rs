//! What holds of a name map after the insertion of a name.
use crate::error::NameMapError;
use crate::index_map;
use crate::intern::{NameMapIntern, TryClone};
use crate::laws;
use crate::naming;
use crate::order;
use crate::state;
use crate::state::NameMapState;
use vstd::prelude::*;

verus! {

/// Whether `after` has the definitions of `before`, in the same places and with
/// the same values, but for that of `name`, which is there with the value
/// `item`: in its place if it was defined, and else at the end.
pub open spec fn defines_one<I: NameMapIntern, V>(
    before: NameMapState<<I::Key as View>::V, V>,
    after: NameMapState<<I::Key as View>::V, V>,
    cx: &I,
    name: Seq<char>,
    item: V,
) -> bool {
    let key = cx.key_of(name);
    &&& key is Some
    &&& exists|i: int|
        0 <= i < after.definitions.len() && #[trigger] after.definitions[i] == (key.unwrap(), item)
    &&& after.definitions.len() == if state::is_defined(before, cx, name) {
        before.definitions.len()
    } else {
        before.definitions.len() + 1
    }
    &&& forall|i: int|
        0 <= i < before.definitions.len() ==> (#[trigger] after.definitions[i]).0
            == before.definitions[i].0
    &&& forall|i: int|
        0 <= i < before.definitions.len() && before.definitions[i].0 != key.unwrap() ==> (
        #[trigger] after.definitions[i]) == before.definitions[i]
}

/// What the state after an insertion has of the definitions.
pub(crate) proof fn lemma_defines_one<I: NameMapIntern, V>(
    before: NameMapState<<I::Key as View>::V, V>,
    cx: &I,
    name: Seq<char>,
    item: V,
)
    requires
        cx.key_of(name) is Some,
    ensures
        ({
            let key = cx.key_of(name).unwrap();
            let after = before.insert(key, item, state::track_key(cx, name));
            &&& defines_one(before, after, cx, name, item)
            &&& index_map::value_of(after.definitions, key) == Some(item)
            &&& index_map::distinct(before.definitions) ==> index_map::distinct(after.definitions)
        }),
{
    let key = cx.key_of(name).unwrap();
    let after = before.insert(key, item, state::track_key(cx, name));
    index_map::lemma_put(before.definitions, key, item);
    index_map::lemma_index_of(before.definitions, key);
    index_map::lemma_index_of(after.definitions, key);
    let i = index_map::index_of(after.definitions, key).unwrap();
    assert(after.definitions[i] == (key, item));
}

/// What the state after an insertion gives for a name that is not inserted.
pub(crate) proof fn lemma_others_after_insert<I: NameMapIntern, V>(
    before: NameMapState<<I::Key as View>::V, V>,
    cx: &I,
    name: Seq<char>,
    item: V,
    other: Seq<char>,
)
    requires
        cx.key_of(name) is Some,
        other != name,
    ensures
        ({
            let after = before.insert(
                cx.key_of(name).unwrap(),
                item,
                state::track_key(cx, name),
            );
            &&& state::is_defined(after, cx, other) <==> state::is_defined(before, cx, other)
            &&& state::is_defined(before, cx, other) && !naming::is_canonical_name(other)
                ==> state::get_name(after, cx, other) == state::get_name(before, cx, other)
        }),
{
    state::lemma_defined_after_insert(before, cx, name, item, other);
    if state::is_defined(before, cx, other) {
        laws::law_insert_keeps_definitions(before, cx, name, item, other);
        if !naming::is_canonical_name(other) {
            laws::law_exact_match_first(before, cx, other);
            let after = before.insert(cx.key_of(name).unwrap(), item, state::track_key(cx, name));
            laws::law_exact_match_first(after, cx, other);
        }
    }
}

/// What the state after an insertion gives for the names on the track of the
/// name that is inserted, unless they have a definition of their own that
/// counts.
pub(crate) proof fn lemma_track_after_insert<I: NameMapIntern, V>(
    before: NameMapState<<I::Key as View>::V, V>,
    cx_before: &I,
    cx: &I,
    name: Seq<char>,
    item: V,
    n: Seq<char>,
)
    requires
        state::is_linked(before, cx_before),
        state::is_maximal(before, cx_before),
        state::keeps_keys(cx_before, cx),
        cx.key_of(name) is Some,
        naming::track_of(name) matches Some((track, _)) && {
            &&& cx.key_of(track) is Some
            &&& naming::canonical_name_of(n) == track
        },
        naming::is_canonical_name(n) || n != name && !state::is_defined(before, cx_before, n),
    ensures
        ({
            let after = before.insert(
                cx.key_of(name).unwrap(),
                item,
                state::track_key(cx, name),
            );
            if is_highest(before, cx_before, name) {
                state::get_name(after, cx, n) == Some(item)
            } else {
                state::get_name(after, cx, n) == state::get_name(before, cx_before, n)
            }
        }),
{
    let key = cx.key_of(name).unwrap();
    let after = before.insert(key, item, state::track_key(cx, name));
    let (track, version) = naming::track_of(name).unwrap();
    state::lemma_intern_keeps_links(before, cx_before, cx);
    laws::law_interning_keeps_lookups(before, cx_before, cx, n);
    state::lemma_defined_after_insert(before, cx, name, item, n);
    if state::is_defined(before, cx, n) {
        state::lemma_defined_before(before, cx_before, cx, n);
    }
    state::lemma_highest_after_insert(before, cx, name, item, track);
    index_map::lemma_put(before.definitions, key, item);
    index_map::lemma_index_of(after.definitions, key);
    if let Some((prev_key, prev)) = state::highest(before, cx, track) {
        state::lemma_highest_is_on_track(before, cx, track);
        index_map::lemma_index_of(before.definitions, prev_key);
        let prev_name = choose|m: Seq<char>|
            state::is_on_track(cx, m, cx.key_of(track).unwrap(), prev_key, prev);
        assert(state::is_defined(before, cx, prev_name));
        state::lemma_defined_before(before, cx_before, cx, prev_name);
        order::law_order_is_total(version, version, version);
        if prev_key == key {
            cx.keys_are_distinct(prev_name, name);
        } else {
            assert(index_map::value_of(after.definitions, prev_key) == index_map::value_of(
                before.definitions,
                prev_key,
            ));
        }
        if !is_highest(before, cx_before, name) {
            let m = choose|m: Seq<char>|
                state::is_defined(before, cx_before, m) && is_above(m, name);
            let w = naming::track_of(m).unwrap().1;
            assert(cx.key_of(m) == cx_before.key_of(m));
            assert(state::is_defined(before, cx, m));
            if cx.key_of(m) == Some(prev_key) {
                cx.keys_are_distinct(m, prev_name);
            }
            order::law_order_is_total(version, w, prev);
            order::law_order_is_total(prev, w, w);
        } else {
            assert(!is_above(prev_name, name));
        }
    } else if !is_highest(before, cx_before, name) {
        let m = choose|m: Seq<char>|
            state::is_defined(before, cx_before, m) && is_above(m, name);
        assert(cx.key_of(m) == cx_before.key_of(m));
        assert(state::is_defined(before, cx, m));
    }
}

/// Whether `other` is on the track of `name` with a higher version.
pub open spec fn is_above(other: Seq<char>, name: Seq<char>) -> bool {
    naming::track_of(other) matches Some((track, higher)) && naming::track_of(name) matches Some(
        (t, version),
    ) && t == track && version.precedes(higher)
}

/// Whether no defined name is on the track of `name` with a higher version.
pub open spec fn is_highest<I: NameMapIntern, V>(
    map: NameMapState<<I::Key as View>::V, V>,
    cx: &I,
    name: Seq<char>,
) -> bool {
    forall|other: Seq<char>| #[trigger]
        state::is_defined(map, cx, other) ==> !is_above(other, name)
}

/// An insertion that succeeds defines the name with the item, whether it
/// shadows a definition or not, and keeps all other definitions. Without
/// shadowing the name was not defined. The key that is returned is that of the
/// name.
pub proof fn law_insert_defines_the_name<I: NameMapIntern, V>(
    before: NameMapState<<I::Key as View>::V, V>,
    after: NameMapState<<I::Key as View>::V, V>,
    cx: &I,
    name: Seq<char>,
    allow_shadowing: bool,
    item: V,
    key: I::Key,
)
    requires
        state::is_insert(before, after, cx, name, allow_shadowing, item, Ok(key)),
    ensures
        cx.key_of(name) == Some(key@),
        state::is_defined(after, cx, name),
        defines_one(before, after, cx, name, item),
        allow_shadowing || !state::is_defined(before, cx, name),
{
    lemma_defines_one(before, cx, name, item);
}

/// After an insertion that succeeds the name is found with the item, unless it
/// is a canonical name below a version that is defined on its track.
pub proof fn law_inserted_item_is_found<I: NameMapIntern, V>(
    before: NameMapState<<I::Key as View>::V, V>,
    cx_before: &I,
    after: NameMapState<<I::Key as View>::V, V>,
    cx: &I,
    name: Seq<char>,
    allow_shadowing: bool,
    item: V,
    key: I::Key,
)
    requires
        state::is_insert(before, after, cx, name, allow_shadowing, item, Ok(key)),
    ensures
        !naming::is_canonical_name(name) ==> state::get_name(after, cx, name) == Some(item),
        state::is_linked(before, cx_before) && state::is_maximal(before, cx_before)
            && state::keeps_keys(cx_before, cx) && is_highest(before, cx_before, name)
            ==> state::get_name(after, cx, name) == Some(item),
{
    if !naming::is_canonical_name(name) {
        laws::law_get_after_insert(before, cx, name, item);
    } else if state::is_linked(before, cx_before) && state::is_maximal(before, cx_before)
        && state::keeps_keys(cx_before, cx) {
        naming::law_track_is_lowest_on_itself(name);
        lemma_track_after_insert(before, cx_before, cx, name, item, name);
    }
}

/// What is found by a track after an insertion that succeeds: on the track of
/// the name it is the item if no higher version is defined there, and else what
/// was found before. A name with a definition of its own that counts, and a
/// name on another track, is found as before.
pub proof fn law_lookups_after_insert<I: NameMapIntern, V>(
    before: NameMapState<<I::Key as View>::V, V>,
    cx_before: &I,
    after: NameMapState<<I::Key as View>::V, V>,
    cx: &I,
    name: Seq<char>,
    allow_shadowing: bool,
    item: V,
    key: I::Key,
    n: Seq<char>,
)
    requires
        state::is_insert(before, after, cx, name, allow_shadowing, item, Ok(key)),
        state::interns_only(cx_before, cx, name),
        state::is_linked(before, cx_before),
        state::is_maximal(before, cx_before),
        n != name,
    ensures
        ({
            let found = state::get_name(before, cx_before, n);
            let has_own = !naming::is_canonical_name(n) && state::is_defined(before, cx_before, n);
            let same_track = naming::track_of(name) matches Some((track, _))
                && naming::canonical_name_of(n) == track;
            &&& state::is_defined(after, cx, n) <==> state::is_defined(before, cx_before, n)
            &&& has_own || !same_track ==> state::get_name(after, cx, n) == found
            &&& !has_own && same_track && is_highest(before, cx_before, name) ==> state::get_name(
                after,
                cx,
                n,
            ) == Some(item)
            &&& !has_own && same_track && !is_highest(before, cx_before, name) ==> state::get_name(
                after,
                cx,
                n,
            ) == found
        }),
{
    let has_own = !naming::is_canonical_name(n) && state::is_defined(before, cx_before, n);
    let same_track = naming::track_of(name) matches Some((track, _)) && naming::canonical_name_of(n)
        == track;
    lemma_others_after_insert(before, cx, name, item, n);
    lemma_same_when_interned(before, cx_before, cx, n);
    if has_own {
    } else if same_track {
        lemma_track_after_insert(before, cx_before, cx, name, item, n);
    } else {
        lemma_other_track_after_insert(before, cx, name, item, n);
    }
}

/// What is defined and found is the same after more strings are interned.
pub(crate) proof fn lemma_same_when_interned<I: NameMapIntern, V>(
    map: NameMapState<<I::Key as View>::V, V>,
    before: &I,
    after: &I,
    n: Seq<char>,
)
    requires
        state::is_keyed(map, before),
        state::keeps_keys(before, after),
    ensures
        state::is_keyed(map, after),
        state::is_defined(map, after, n) <==> state::is_defined(map, before, n),
        state::get_name(map, after, n) == state::get_name(map, before, n),
{
    laws::law_interning_keeps_lookups(map, before, after, n);
    state::lemma_intern_keeps_links(map, before, after);
    if state::is_defined(map, after, n) {
        state::lemma_defined_before(map, before, after, n);
    }
    if state::is_defined(map, before, n) {
        assert(after.key_of(n) == before.key_of(n));
    }
}

/// What is found on other tracks is the same after an insertion, also if the
/// name that is inserted is on no track.
pub(crate) proof fn lemma_other_track_after_insert<I: NameMapIntern, V>(
    before: NameMapState<<I::Key as View>::V, V>,
    cx: &I,
    name: Seq<char>,
    item: V,
    n: Seq<char>,
)
    requires
        state::is_keyed(before, cx),
        cx.key_of(name) is Some,
        naming::track_of(name) matches Some((track, _)) ==> {
            &&& cx.key_of(track) is Some
            &&& naming::canonical_name_of(n) != track
        },
        n != name,
    ensures
        state::get_name(
            before.insert(cx.key_of(name).unwrap(), item, state::track_key(cx, name)),
            cx,
            n,
        ) == state::get_name(before, cx, n),
{
    if naming::canonical_name_of(n) != naming::canonical_name_of(name) {
        laws::law_insert_keeps_other_tracks(before, cx, name, item, n);
    } else {
        // `name` is on no track, and it is its own canonical name.
        naming::law_track_is_lowest_on_itself(n);
        assert(naming::alternate_of(n) is Some ==> naming::is_canonical_name(name));
    }
}

/// An insertion succeeds if there is memory, unless the name is defined and
/// shadowing is not allowed: then it fails with an error that says so, and
/// changes nothing.
pub proof fn law_when_insert_succeeds<I: NameMapIntern, V>(
    before: NameMapState<<I::Key as View>::V, V>,
    after: NameMapState<<I::Key as View>::V, V>,
    cx: &I,
    name: Seq<char>,
    allow_shadowing: bool,
    item: V,
    r: Result<I::Key, NameMapError>,
)
    requires
        state::is_insert(before, after, cx, name, allow_shadowing, item, r),
    ensures
        I::never_fails() && <I::Key as TryClone>::never_fails() ==> (r is Ok <==> allow_shadowing
            || !state::is_defined(before, cx, name)),
        I::never_fails() && <I::Key as TryClone>::never_fails() && r is Err ==> (
        r matches Err(NameMapError::DefinedTwice { name: twice }) && twice@ == name),
        r matches Err(NameMapError::DefinedTwice { name: twice }) ==> {
            &&& twice@ == name
            &&& !allow_shadowing
            &&& state::is_defined(before, cx, name)
            &&& after == before
        },
        !(r matches Err(NameMapError::InvalidName { .. })),
        !(r matches Err(NameMapError::InvalidVersion { .. })),
{
}

/// An insertion for which there is no memory changes nothing, or it defines the
/// name without an entry for its track.
pub proof fn law_insert_without_memory<I: NameMapIntern, V>(
    before: NameMapState<<I::Key as View>::V, V>,
    after: NameMapState<<I::Key as View>::V, V>,
    cx: &I,
    name: Seq<char>,
    allow_shadowing: bool,
    item: V,
)
    requires
        state::is_insert(
            before,
            after,
            cx,
            name,
            allow_shadowing,
            item,
            Err(NameMapError::OutOfMemory),
        ),
    ensures
        after.alternates == before.alternates,
        after.definitions == before.definitions || defines_one(before, after, cx, name, item),
{
    if after != before {
        let key = cx.key_of(name).unwrap();
        lemma_defines_one(before, cx, name, item);
        let inserted = before.insert(key, item, state::track_key(cx, name));
        assert(inserted.definitions == after.definitions);
        let i = choose|i: int|
            0 <= i < inserted.definitions.len() && #[trigger] inserted.definitions[i] == (
                key,
                item,
            );
        assert(after.definitions[i] == (key, item));
    }
}

/// An operation on a name interns nothing but the name and its canonical name,
/// and all strings keep their keys.
pub proof fn law_interns_name_and_track_only<I: NameMapIntern>(
    before: &I,
    after: &I,
    name: Seq<char>,
    s: Seq<char>,
)
    requires
        state::interns_only(before, after, name),
    ensures
        s != name && s != naming::canonical_name_of(name) ==> after.key_of(s) == before.key_of(s),
        before.key_of(s) is Some ==> after.key_of(s) == before.key_of(s),
        state::keeps_keys(before, after),
{
    assert(after.key_of(s) == after.key_of(s));
}

/// An insertion that succeeds makes the name the highest of its track, unless a
/// higher version is there, and leaves all other tracks as they are, whatever
/// the map holds. The entries for the tracks keep their places.
pub proof fn law_insert_records_the_track<I: NameMapIntern, V>(
    before: NameMapState<<I::Key as View>::V, V>,
    after: NameMapState<<I::Key as View>::V, V>,
    cx: &I,
    name: Seq<char>,
    allow_shadowing: bool,
    item: V,
    key: I::Key,
    t: Seq<char>,
)
    requires
        state::is_insert(before, after, cx, name, allow_shadowing, item, Ok(key)),
    ensures
        records_track(before, after, cx, name, t),
{
    lemma_records_track(before, cx, name, item, t);
}

/// Whether `after` has the entries of `before` for all tracks, in the same
/// places, but that the entry for the track of `name` is `name` with its
/// version, unless a higher version was there. Said of the track `t`.
pub open spec fn records_track<I: NameMapIntern, V>(
    before: NameMapState<<I::Key as View>::V, V>,
    after: NameMapState<<I::Key as View>::V, V>,
    cx: &I,
    name: Seq<char>,
    t: Seq<char>,
) -> bool {
    &&& forall|i: int|
        0 <= i < before.alternates.len() ==> (#[trigger] after.alternates[i]).0
            == before.alternates[i].0
    &&& before.alternates.len() <= after.alternates.len() <= before.alternates.len() + 1
    &&& match naming::track_of(name) {
        Some((track, version)) => {
            let is_lower = state::highest(before, cx, track) matches Some((_, prev))
                && version.precedes(prev);
            &&& cx.key_of(track) is Some
            &&& t != track || is_lower ==> state::highest(after, cx, t) == state::highest(
                before,
                cx,
                t,
            )
            &&& is_lower ==> after.alternates == before.alternates
            &&& !is_lower ==> state::highest(after, cx, track) == Some(
                (cx.key_of(name).unwrap(), version),
            )
        },
        None => after.alternates == before.alternates,
    }
}

/// What the state after an insertion has of the tracks.
pub(crate) proof fn lemma_records_track<I: NameMapIntern, V>(
    before: NameMapState<<I::Key as View>::V, V>,
    cx: &I,
    name: Seq<char>,
    item: V,
    t: Seq<char>,
)
    requires
        cx.key_of(name) is Some,
        naming::track_of(name) matches Some((track, _)) ==> cx.key_of(track) is Some,
    ensures
        records_track(
            before,
            before.insert(cx.key_of(name).unwrap(), item, state::track_key(cx, name)),
            cx,
            name,
            t,
        ),
{
    state::lemma_highest_after_insert(before, cx, name, item, t);
    if let Some((track, _)) = naming::track_of(name) {
        state::lemma_highest_after_insert(before, cx, name, item, track);
        index_map::lemma_index_of(before.alternates, cx.key_of(track).unwrap());
    }
}

/// After an insertion that does not run out of memory each defined name that is
/// on a track has an entry for it, and the entries are the highest, if that
/// held before.
pub proof fn law_insert_keeps_tracks_highest<I: NameMapIntern, V>(
    before: NameMapState<<I::Key as View>::V, V>,
    cx_before: &I,
    after: NameMapState<<I::Key as View>::V, V>,
    cx: &I,
    name: Seq<char>,
    allow_shadowing: bool,
    item: V,
    r: Result<I::Key, NameMapError>,
)
    requires
        state::is_insert(before, after, cx, name, allow_shadowing, item, r),
        state::interns_only(cx_before, cx, name),
        state::is_keyed(before, cx_before),
    ensures
        state::is_keyed(after, cx),
        !(r matches Err(NameMapError::OutOfMemory)) && state::is_linked(before, cx_before)
            ==> state::is_linked(after, cx),
        !(r matches Err(NameMapError::OutOfMemory)) && state::is_linked(before, cx_before)
            && state::is_maximal(before, cx_before) ==> state::is_maximal(after, cx),
{
    state::lemma_insert_keeps_tracks(
        before,
        cx_before,
        after,
        cx,
        name,
        allow_shadowing,
        item,
        r,
    );
}

} // verus!
