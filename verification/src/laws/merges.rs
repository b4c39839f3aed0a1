//! What holds of a name map after a lookup that inserts a default if it has to.
use crate::error::NameMapError;
use crate::index_map;
use crate::intern::{NameMapIntern, TryClone};
use crate::laws;
use crate::laws::inserts;
use crate::naming;
use crate::order;
use crate::state;
use crate::state::NameMapState;
use vstd::prelude::*;

verus! {

/// Whether `name` is found, and `can_merge` can only be true of what is found.
pub open spec fn must_merge<I: NameMapIntern, V, M: FnOnce(&V) -> bool>(
    map: NameMapState<<I::Key as View>::V, V>,
    cx: &I,
    name: Seq<char>,
    can_merge: M,
) -> bool {
    state::get_name(map, cx, name) matches Some(value) && !can_merge.ensures((&value,), false)
}

/// Whether `name` is not found, or `can_merge` can only be false of what is
/// found.
pub open spec fn must_insert<I: NameMapIntern, V, M: FnOnce(&V) -> bool>(
    map: NameMapState<<I::Key as View>::V, V>,
    cx: &I,
    name: Seq<char>,
    can_merge: M,
) -> bool {
    state::get_name(map, cx, name) matches Some(value) ==> !can_merge.ensures((&value,), true)
}

/// Where the definition found can be merged it is returned as it is, no
/// definition is added or removed, all others stay as they are, and the name is
/// then found with what the value is changed to.
pub proof fn law_merge_reopens_what_is_found<
    I: NameMapIntern,
    V,
    M: FnOnce(&V) -> bool,
    D: FnOnce() -> V,
>(
    before: NameMapState<<I::Key as View>::V, V>,
    cx_before: &I,
    after: NameMapState<<I::Key as View>::V, V>,
    cx: &I,
    name: Seq<char>,
    allow_shadowing: bool,
    can_merge: M,
    default: D,
    value: V,
    new_value: V,
)
    requires
        state::is_keyed(before, cx_before),
        state::interns_only(cx_before, cx, name),
        state::is_get_or_insert(
            before,
            cx_before,
            after,
            cx,
            name,
            allow_shadowing,
            can_merge,
            default,
            Ok((value, new_value)),
        ),
        must_merge(before, cx_before, name, can_merge),
    ensures
        state::get_name(before, cx_before, name) == Some(value),
        state::get_name(after, cx, name) == Some(new_value),
        after.definitions.len() == before.definitions.len(),
        state::find_name(before, cx_before, name) matches Some((index, _)) && {
            &&& after.definitions[index].1 == new_value
            &&& forall|i: int|
                0 <= i < before.definitions.len() && i != index ==> (
                #[trigger] after.definitions[i]) == before.definitions[i]
        },
{
    state::lemma_find_name(before, cx_before, name);
    laws::law_get_after_merge(before, cx_before, after, cx, name, value, new_value);
}

/// Where the definition found can be merged, every name finds the definition
/// that it found before.
pub proof fn law_merge_keeps_what_is_found<
    I: NameMapIntern,
    V,
    M: FnOnce(&V) -> bool,
    D: FnOnce() -> V,
>(
    before: NameMapState<<I::Key as View>::V, V>,
    cx_before: &I,
    after: NameMapState<<I::Key as View>::V, V>,
    cx: &I,
    name: Seq<char>,
    allow_shadowing: bool,
    can_merge: M,
    default: D,
    value: V,
    new_value: V,
    n: Seq<char>,
)
    requires
        state::is_keyed(before, cx_before),
        state::interns_only(cx_before, cx, name),
        state::is_get_or_insert(
            before,
            cx_before,
            after,
            cx,
            name,
            allow_shadowing,
            can_merge,
            default,
            Ok((value, new_value)),
        ),
        must_merge(before, cx_before, name, can_merge),
    ensures
        match state::find_name(before, cx_before, n) {
            Some((i, _)) => state::find_name(after, cx, n) matches Some((j, _)) && i == j,
            None => state::find_name(after, cx, n) is None,
        },
{
    laws::law_merge_keeps_lookups(before, cx_before, after, cx, name, value, new_value, n);
}

/// The version of a defined name by which another name is found.
proof fn lemma_found_by_track<I: NameMapIntern, V>(
    map: NameMapState<<I::Key as View>::V, V>,
    cx: &I,
    name: Seq<char>,
    found: Seq<char>,
    index: int,
)
    requires
        state::is_keyed(map, cx),
        found != name,
        state::find_name(map, cx, name) matches Some((i, _)) && i == index,
        cx.key_of(found) == Some(map.definitions[index].0),
    ensures
        state::find_name(map, cx, name) == Some((index, false)),
        0 <= index < map.definitions.len(),
        index_map::index_of(map.definitions, map.definitions[index].0) == Some(index),
        naming::track_of(found) matches Some((track, version)) && {
            &&& naming::canonical_name_of(name) == track
            &&& state::highest(map, cx, track) == Some((map.definitions[index].0, version))
        },
{
    let key = map.definitions[index].0;
    laws::law_found_definition(map, cx, name);
    if cx.key_of(name) == Some(key) {
        cx.keys_are_distinct(name, found);
    }
    let track = naming::canonical_name_of(name);
    state::lemma_highest_is_on_track(map, cx, track);
    let (k, version) = state::highest(map, cx, track).unwrap();
    index_map::lemma_index_of(map.definitions, k);
    let n = choose|n: Seq<char>|
        state::is_on_track(cx, n, cx.key_of(track).unwrap(), k, version);
    cx.keys_are_distinct(n, found);
}

/// Where a definition of another name is found that can be merged, and the name
/// has a higher version, the definition is re-keyed, whether shadowing is
/// allowed or not: the name is defined, in the place of the definition, and the
/// name that was there is defined no more.
pub proof fn law_merge_rekeys_to_a_higher_version<
    I: NameMapIntern,
    V,
    M: FnOnce(&V) -> bool,
    D: FnOnce() -> V,
>(
    before: NameMapState<<I::Key as View>::V, V>,
    cx_before: &I,
    after: NameMapState<<I::Key as View>::V, V>,
    cx: &I,
    name: Seq<char>,
    allow_shadowing: bool,
    can_merge: M,
    default: D,
    value: V,
    new_value: V,
    found: Seq<char>,
    index: int,
)
    requires
        state::is_keyed(before, cx_before),
        state::interns_only(cx_before, cx, name),
        state::is_get_or_insert(
            before,
            cx_before,
            after,
            cx,
            name,
            allow_shadowing,
            can_merge,
            default,
            Ok((value, new_value)),
        ),
        must_merge(before, cx_before, name, can_merge),
        state::find_name(before, cx_before, name) matches Some((i, _)) && i == index,
        cx_before.key_of(found) == Some(before.definitions[index].0),
        inserts::is_above(name, found),
    ensures
        state::is_defined(after, cx, name),
        after.definitions[index] == (cx.key_of(name).unwrap(), new_value),
        index_map::index_of(after.definitions, cx.key_of(name).unwrap()) == Some(index),
        !state::is_defined(after, cx, found),
        state::highest(after, cx, naming::track_of(name).unwrap().0) == Some(
            (cx.key_of(name).unwrap(), naming::track_of(name).unwrap().1),
        ),
        forall|t: Seq<char>|
            t != naming::track_of(name).unwrap().0 ==> #[trigger] state::highest(after, cx, t)
                == state::highest(before, cx, t),
        after.alternates.len() == before.alternates.len(),
        forall|i: int|
            0 <= i < before.alternates.len() ==> (#[trigger] after.alternates[i]).0
                == before.alternates[i].0,
{
    let (track, version) = naming::track_of(name).unwrap();
    order::law_order_is_total(version, version, version);
    lemma_found_by_track(before, cx_before, name, found, index);
    assert(cx.key_of(track) == cx_before.key_of(track));
    assert(cx.key_of(found) == cx_before.key_of(found));
    state::lemma_intern_keeps_links(before, cx_before, cx);
    state::lemma_upgrade_is_to_new_key(before, cx_before, cx, name, index);
    let key = cx.key_of(name).unwrap();
    let old_key = before.definitions[index].0;
    state::lemma_defined_after_upgrade(before, cx, name, index, old_key);
    let upgraded = before.upgrade(index, key, state::track_key(cx, name));
    assert(index_map::keys(after.definitions) =~= index_map::keys(upgraded.definitions));
    if key == old_key {
        cx.keys_are_distinct(name, found);
    }
    index_map::lemma_put(before.alternates, cx.key_of(track).unwrap(), (key, version));
    index_map::lemma_index_of(before.alternates, cx.key_of(track).unwrap());
    assert forall|t: Seq<char>| t != track implies #[trigger] state::highest(after, cx, t)
        == state::highest(before, cx, t) by {
        if cx.key_of(t) == cx.key_of(track) {
            cx.keys_are_distinct(t, track);
        }
    }
}

/// Where a definition is found that can be merged, and the name is not higher
/// than it, the definition keeps its key, and so do all others.
pub proof fn law_merge_keeps_key_of_other_versions<
    I: NameMapIntern,
    V,
    M: FnOnce(&V) -> bool,
    D: FnOnce() -> V,
>(
    before: NameMapState<<I::Key as View>::V, V>,
    cx_before: &I,
    after: NameMapState<<I::Key as View>::V, V>,
    cx: &I,
    name: Seq<char>,
    allow_shadowing: bool,
    can_merge: M,
    default: D,
    value: V,
    new_value: V,
    found: Seq<char>,
    index: int,
)
    requires
        state::is_keyed(before, cx_before),
        state::interns_only(cx_before, cx, name),
        state::is_get_or_insert(
            before,
            cx_before,
            after,
            cx,
            name,
            allow_shadowing,
            can_merge,
            default,
            Ok((value, new_value)),
        ),
        must_merge(before, cx_before, name, can_merge),
        state::find_name(before, cx_before, name) matches Some((i, _)) && i == index,
        cx_before.key_of(found) == Some(before.definitions[index].0),
        !inserts::is_above(name, found),
    ensures
        after.alternates == before.alternates,
        after.definitions.len() == before.definitions.len(),
        forall|i: int|
            0 <= i < before.definitions.len() ==> (#[trigger] after.definitions[i]).0
                == before.definitions[i].0,
{
    laws::law_found_definition(before, cx_before, name);
    if found != name {
        lemma_found_by_track(before, cx_before, name, found, index);
        let track = naming::track_of(found).unwrap().0;
        naming::law_canonical_name_is_track(name);
        assert(cx.key_of(track) == cx_before.key_of(track));
    }
}

/// Where nothing is found that can be merged, the default is inserted: it is
/// returned, and what it is changed to is then the value of the name. All other
/// definitions are kept. Without shadowing the name was not defined.
pub proof fn law_default_is_inserted<
    I: NameMapIntern,
    V,
    M: FnOnce(&V) -> bool,
    D: FnOnce() -> V,
>(
    before: NameMapState<<I::Key as View>::V, V>,
    cx_before: &I,
    after: NameMapState<<I::Key as View>::V, V>,
    cx: &I,
    name: Seq<char>,
    allow_shadowing: bool,
    can_merge: M,
    default: D,
    value: V,
    new_value: V,
)
    requires
        state::is_get_or_insert(
            before,
            cx_before,
            after,
            cx,
            name,
            allow_shadowing,
            can_merge,
            default,
            Ok((value, new_value)),
        ),
        must_insert(before, cx_before, name, can_merge),
    ensures
        default.ensures((), value),
        state::is_defined(after, cx, name),
        inserts::defines_one(before, after, cx, name, new_value),
        allow_shadowing || !state::is_defined(before, cx, name),
        forall|t: Seq<char>| #[trigger] inserts::records_track(before, after, cx, name, t),
        !naming::is_canonical_name(name) ==> state::get_name(after, cx, name) == Some(new_value),
        state::is_linked(before, cx_before) && state::is_maximal(before, cx_before)
            && state::keeps_keys(cx_before, cx) && inserts::is_highest(before, cx_before, name)
            ==> state::get_name(after, cx, name) == Some(new_value),
{
    inserts::lemma_defines_one(before, cx, name, new_value);
    assert forall|t: Seq<char>| #[trigger]
        inserts::records_track(before, after, cx, name, t) by {
        inserts::lemma_records_track(before, cx, name, new_value, t);
    }
    if !naming::is_canonical_name(name) {
        laws::law_get_after_insert(before, cx, name, new_value);
    } else if state::is_linked(before, cx_before) && state::is_maximal(before, cx_before)
        && state::keeps_keys(cx_before, cx) {
        naming::law_track_is_lowest_on_itself(name);
        inserts::lemma_track_after_insert(before, cx_before, cx, name, new_value, name);
    }
}

/// What is found by a track after the default has been inserted, as after an
/// insertion.
pub proof fn law_lookups_after_default<
    I: NameMapIntern,
    V,
    M: FnOnce(&V) -> bool,
    D: FnOnce() -> V,
>(
    before: NameMapState<<I::Key as View>::V, V>,
    cx_before: &I,
    after: NameMapState<<I::Key as View>::V, V>,
    cx: &I,
    name: Seq<char>,
    allow_shadowing: bool,
    can_merge: M,
    default: D,
    value: V,
    new_value: V,
    n: Seq<char>,
)
    requires
        state::is_get_or_insert(
            before,
            cx_before,
            after,
            cx,
            name,
            allow_shadowing,
            can_merge,
            default,
            Ok((value, new_value)),
        ),
        must_insert(before, cx_before, name, can_merge),
        state::interns_only(cx_before, cx, name),
        state::is_linked(before, cx_before),
        state::is_maximal(before, cx_before),
        n != name,
    ensures
        ({
            let found = state::get_name(before, cx_before, n);
            let has_own = !naming::is_canonical_name(n) && state::is_defined(before, cx_before, n);
            let same_track = naming::track_of(name) matches Some((track, _))
                && naming::canonical_name_of(n) == track;
            let highest = inserts::is_highest(before, cx_before, name);
            &&& state::is_defined(after, cx, n) <==> state::is_defined(before, cx_before, n)
            &&& has_own || !same_track ==> state::get_name(after, cx, n) == found
            &&& !has_own && same_track && highest ==> state::get_name(after, cx, n) == Some(
                new_value,
            )
            &&& !has_own && same_track && !highest ==> state::get_name(after, cx, n) == found
        }),
{
    let has_own = !naming::is_canonical_name(n) && state::is_defined(before, cx_before, n);
    let same_track = naming::track_of(name) matches Some((track, _)) && naming::canonical_name_of(n)
        == track;
    inserts::lemma_others_after_insert(before, cx, name, new_value, n);
    inserts::lemma_same_when_interned(before, cx_before, cx, n);
    if has_own {
    } else if same_track {
        inserts::lemma_track_after_insert(before, cx_before, cx, name, new_value, n);
    } else {
        inserts::lemma_other_track_after_insert(before, cx, name, new_value, n);
    }
}

/// If there is memory then the definition found is returned where it can be
/// merged, and otherwise the insertion of the default succeeds unless the name
/// is defined and shadowing is not allowed. An error for that changes nothing.
pub proof fn law_when_get_or_insert_succeeds<
    I: NameMapIntern,
    V,
    M: FnOnce(&V) -> bool,
    D: FnOnce() -> V,
>(
    before: NameMapState<<I::Key as View>::V, V>,
    cx_before: &I,
    after: NameMapState<<I::Key as View>::V, V>,
    cx: &I,
    name: Seq<char>,
    allow_shadowing: bool,
    can_merge: M,
    default: D,
    r: Result<(V, V), NameMapError>,
)
    requires
        state::is_get_or_insert(
            before,
            cx_before,
            after,
            cx,
            name,
            allow_shadowing,
            can_merge,
            default,
            r,
        ),
    ensures
        ({
            let has_memory = I::never_fails() && <I::Key as TryClone>::never_fails();
            &&& has_memory && must_merge(before, cx_before, name, can_merge) ==> r is Ok
            &&& has_memory && must_insert(before, cx_before, name, can_merge) ==> (r is Ok
                <==> allow_shadowing || !state::is_defined(before, cx, name))
            &&& has_memory && r is Err ==> r matches Err(NameMapError::DefinedTwice { .. })
        }),
        r matches Err(NameMapError::DefinedTwice { name: twice }) ==> {
            &&& twice@ == name
            &&& !allow_shadowing
            &&& state::is_defined(before, cx, name)
            &&& after == before
        },
        !(r matches Err(NameMapError::InvalidName { .. })),
        !(r matches Err(NameMapError::InvalidVersion { .. })),
        r matches Err(NameMapError::OutOfMemory) ==> after.alternates == before.alternates,
        r matches Err(NameMapError::OutOfMemory) && must_merge(before, cx_before, name, can_merge)
            ==> after == before,
{
}

/// After a lookup that inserts a default if it has to, and that succeeds, each
/// defined name that is on a track has an entry for it, and the entries are the
/// highest, if that held before.
pub proof fn law_get_or_insert_keeps_tracks_highest<
    I: NameMapIntern,
    V,
    M: FnOnce(&V) -> bool,
    D: FnOnce() -> V,
>(
    before: NameMapState<<I::Key as View>::V, V>,
    cx_before: &I,
    after: NameMapState<<I::Key as View>::V, V>,
    cx: &I,
    name: Seq<char>,
    allow_shadowing: bool,
    can_merge: M,
    default: D,
    value: V,
    new_value: V,
)
    requires
        state::is_keyed(before, cx_before),
        state::interns_only(cx_before, cx, name),
        state::is_get_or_insert(
            before,
            cx_before,
            after,
            cx,
            name,
            allow_shadowing,
            can_merge,
            default,
            Ok((value, new_value)),
        ),
    ensures
        state::is_keyed(after, cx),
        state::is_linked(before, cx_before) ==> state::is_linked(after, cx),
        state::is_linked(before, cx_before) && state::is_maximal(before, cx_before)
            ==> state::is_maximal(after, cx),
{
    let track = state::track_key(cx, name);
    state::lemma_intern_keeps_links(before, cx_before, cx);
    if state::is_insert_of(before, after, cx, name, allow_shadowing, new_value) {
        state::lemma_insert_keeps_links(before, cx, name, new_value);
        if state::is_linked(before, cx_before) && state::is_maximal(before, cx_before) {
            state::lemma_insert_keeps_maxima(before, cx, name, new_value);
        }
    } else {
        let (index, exact) = state::find_name(before, cx_before, name).unwrap();
        state::lemma_find_name(before, cx_before, name);
        let merged = if !exact && before.is_outdone_by(track) {
            state::lemma_upgrade_is_to_new_key(before, cx_before, cx, name, index);
            state::lemma_upgrade_keeps_links(before, cx, name, index);
            before.upgrade(index, cx.key_of(name).unwrap(), track)
        } else {
            before
        };
        state::lemma_set_values_keep_tracks(merged, cx, index);
        assert(after == merged.set_value(index, new_value));
    }
}

} // verus!
