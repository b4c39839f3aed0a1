//! What a name map holds, what its operations make of it, and what they keep.
use crate::error::NameMapError;
use crate::grammar::VersionView;
use crate::index_map;
use crate::intern::{NameMapIntern, TryClone};
use crate::naming;
use crate::order;
use vstd::prelude::*;

verus! {

/// What a [`NameMap`] holds, with its keys by their views.
#[verifier::ext_equal]
pub struct NameMapState<K, V> {
    /// The names that were defined and their values, in the order of the
    /// definitions.
    pub definitions: Seq<(K, V)>,
    /// For each canonical name of a track, the definition with the highest
    /// version on it, and that version.
    pub alternates: Seq<(K, (K, VersionView))>,
}

impl<K, V> NameMapState<K, V> {
    /// The state without definitions.
    pub open spec fn empty() -> NameMapState<K, V> {
        NameMapState { definitions: Seq::empty(), alternates: Seq::empty() }
    }

    /// The state with the value `item` for `key`.
    pub open spec fn define(self, key: K, item: V) -> NameMapState<K, V> {
        NameMapState { definitions: index_map::put(self.definitions, key, item), ..self }
    }

    /// The state with the definition `key`, which has the version and the
    /// canonical name given by `track`, as the highest on its track, unless a
    /// higher one is there.
    pub open spec fn add_to_track(self, key: K, track: Option<(K, VersionView)>) -> NameMapState<
        K,
        V,
    > {
        match track {
            Some((track_key, version)) => match index_map::value_of(self.alternates, track_key) {
                Some((_, prev)) if version.precedes(prev) => self,
                _ => NameMapState {
                    alternates: index_map::put(self.alternates, track_key, (key, version)),
                    ..self
                },
            },
            None => self,
        }
    }

    /// The state after the insertion of `key`.
    pub open spec fn insert(self, key: K, item: V, track: Option<(K, VersionView)>) -> NameMapState<
        K,
        V,
    > {
        self.define(key, item).add_to_track(key, track)
    }

    /// Whether the version given by `track` is higher than the highest one
    /// that is defined on its track.
    pub open spec fn is_outdone_by(self, track: Option<(K, VersionView)>) -> bool {
        track matches Some((track_key, version)) && index_map::value_of(
            self.alternates,
            track_key,
        ) matches Some((_, prev)) && prev.precedes(version)
    }

    /// The state after the definition at `index`, which is the highest on the
    /// track given by `track`, has been re-keyed to `key`, which has the version
    /// given by `track`.
    pub open spec fn upgrade(
        self,
        index: int,
        key: K,
        track: Option<(K, VersionView)>,
    ) -> NameMapState<K, V> {
        let (track_key, version) = track.unwrap();
        NameMapState {
            definitions: self.definitions.update(index, (key, self.definitions[index].1)),
            alternates: index_map::put(self.alternates, track_key, (key, version)),
        }
    }

    /// The state with the value `item` at `index`.
    pub open spec fn set_value(self, index: int, item: V) -> NameMapState<K, V> {
        NameMapState {
            definitions: self.definitions.update(index, (self.definitions[index].0, item)),
            ..self
        }
    }

    /// The index of the definition with the key `exact`, unless the name that
    /// is looked up is canonical, or else the index of the highest definition
    /// on the track whose key is `track`. The flag says whether the key of the
    /// definition is `exact`.
    pub open spec fn find(self, is_canonical: bool, exact: Option<K>, track: Option<K>) -> Option<
        (int, bool),
    > {
        if !is_canonical && exact is Some && index_map::index_of(self.definitions, exact.unwrap())
            is Some {
            Some((index_map::index_of(self.definitions, exact.unwrap()).unwrap(), true))
        } else if track is Some && index_map::value_of(self.alternates, track.unwrap()) is Some {
            let (key, _) = index_map::value_of(self.alternates, track.unwrap()).unwrap();
            match index_map::index_of(self.definitions, key) {
                Some(index) => Some((index, exact == Some(key))),
                None => None,
            }
        } else {
            None
        }
    }
}

/// Of two values that are set in a row at the same index, the second stays.
pub proof fn lemma_set_value_twice<K, V>(state: NameMapState<K, V>, index: int, item: V)
    requires
        0 <= index < state.definitions.len(),
    ensures
        forall|new_item: V| #[trigger]
            state.set_value(index, item).set_value(index, new_item) == state.set_value(
                index,
                new_item,
            ),
{
    assert forall|new_item: V| #[trigger]
        state.set_value(index, item).set_value(index, new_item) == state.set_value(
            index,
            new_item,
        ) by {
        assert(state.set_value(index, item).set_value(index, new_item) =~= state.set_value(
            index,
            new_item,
        ));
    }
}

/// Inserting a value and then setting another is inserting the other.
pub proof fn lemma_insert_then_set_value<K, V>(
    state: NameMapState<K, V>,
    key: K,
    item: V,
    track: Option<(K, VersionView)>,
)
    ensures
        ({
            let after = state.insert(key, item, track);
            index_map::index_of(after.definitions, key) matches Some(index) && {
                &&& 0 <= index < after.definitions.len()
                &&& after.definitions[index].1 == item
                &&& forall|new_item: V| #[trigger]
                    after.set_value(index, new_item) == state.insert(key, new_item, track)
            }
        }),
{
    let after = state.insert(key, item, track);
    index_map::lemma_put(state.definitions, key, item);
    index_map::lemma_index_of(after.definitions, key);
    let index = index_map::index_of(after.definitions, key).unwrap();
    assert forall|new_item: V| #[trigger]
        after.set_value(index, new_item) == state.insert(key, new_item, track) by {
        index_map::lemma_put_then_update(state.definitions, key, item, new_item);
    }
}

/// The key of the track that `name` is on, and the version of `name`.
pub open spec fn track_key<I: NameMapIntern>(cx: &I, name: Seq<char>) -> Option<
    (<I::Key as View>::V, VersionView),
> {
    match naming::track_of(name) {
        Some((track, version)) => Some((cx.key_of(track).unwrap(), version)),
        None => None,
    }
}

/// Where `name` is found in `state`: the index of the definition, and whether
/// it is an exact match for `name`.
pub open spec fn find_name<I: NameMapIntern, V>(
    state: NameMapState<<I::Key as View>::V, V>,
    cx: &I,
    name: Seq<char>,
) -> Option<(int, bool)> {
    state.find(
        naming::is_canonical_name(name),
        cx.key_of(name),
        cx.key_of(naming::canonical_name_of(name)),
    )
}

/// The value that `name` is found to have in `state`.
pub open spec fn get_name<I: NameMapIntern, V>(
    state: NameMapState<<I::Key as View>::V, V>,
    cx: &I,
    name: Seq<char>,
) -> Option<V> {
    match find_name(state, cx, name) {
        Some((index, _)) => Some(state.definitions[index].1),
        None => None,
    }
}

/// What is found is there.
pub proof fn lemma_find_name<I: NameMapIntern, V>(
    state: NameMapState<<I::Key as View>::V, V>,
    cx: &I,
    name: Seq<char>,
)
    ensures
        find_name(state, cx, name) matches Some((index, _)) ==> 0 <= index
            < state.definitions.len(),
{
    if let Some(key) = cx.key_of(name) {
        index_map::lemma_index_of(state.definitions, key);
    }
    if let Some((key, _)) = highest(state, cx, naming::canonical_name_of(name)) {
        index_map::lemma_index_of(state.definitions, key);
    }
}

/// Whether nothing but `name` and its track has been interned between `before`
/// and `after`.
pub open spec fn interns_only<I: NameMapIntern>(before: &I, after: &I, name: Seq<char>) -> bool {
    forall|s: Seq<char>|
        {
            ||| before.key_of(s) is Some
            ||| s != name && (naming::track_of(name) matches Some((track, _)) ==> s != track)
        } ==> #[trigger] after.key_of(s) == before.key_of(s)
}

/// Whether `key` is the key of a string.
pub open spec fn is_interned<I: NameMapIntern>(cx: &I, key: <I::Key as View>::V) -> bool {
    exists|s: Seq<char>| #[trigger] cx.key_of(s) == Some(key)
}

/// Whether `name` has a definition of its own.
pub open spec fn is_defined<I: NameMapIntern, V>(
    state: NameMapState<<I::Key as View>::V, V>,
    cx: &I,
    name: Seq<char>,
) -> bool {
    cx.key_of(name) is Some && index_map::index_of(state.definitions, cx.key_of(name).unwrap())
        is Some
}

/// The highest definition of the track with the canonical name `track`, and
/// its version.
pub open spec fn highest<I: NameMapIntern, V>(
    state: NameMapState<<I::Key as View>::V, V>,
    cx: &I,
    track: Seq<char>,
) -> Option<(<I::Key as View>::V, VersionView)> {
    match cx.key_of(track) {
        Some(key) => index_map::value_of(state.alternates, key),
        None => None,
    }
}

/// Whether `name` has the key `key` and is on the track with the key
/// `track_key` with the version `version`.
pub open spec fn is_on_track<I: NameMapIntern>(
    cx: &I,
    name: Seq<char>,
    track_key: <I::Key as View>::V,
    key: <I::Key as View>::V,
    version: VersionView,
) -> bool {
    &&& cx.key_of(name) == Some(key)
    &&& naming::track_of(name) matches Some((track, v)) && v == version && cx.key_of(track) == Some(
        track_key,
    )
}

/// Whether the keys of `state` are those of `cx`: no key occurs twice, all are
/// keys of names, and each entry for a track names a definition on that track,
/// with its version.
pub open spec fn is_keyed<I: NameMapIntern, V>(
    state: NameMapState<<I::Key as View>::V, V>,
    cx: &I,
) -> bool {
    &&& index_map::distinct(state.definitions)
    &&& index_map::distinct(state.alternates)
    &&& forall|i: int|
        0 <= i < state.definitions.len() ==> is_interned(cx, (#[trigger] state.definitions[i]).0)
    &&& forall|i: int|
        0 <= i < state.alternates.len() ==> {
            let (track_key, (key, version)) = #[trigger] state.alternates[i];
            &&& index_map::index_of(state.definitions, key) is Some
            &&& exists|name: Seq<char>| is_on_track(cx, name, track_key, key, version)
        }
}

/// Whether the tracks of `state` fit its definitions, when its keys are those
/// of `cx`: each defined name that is on a track has an entry for the track.
pub open spec fn is_linked<I: NameMapIntern, V>(
    state: NameMapState<<I::Key as View>::V, V>,
    cx: &I,
) -> bool {
    &&& is_keyed(state, cx)
    &&& forall|name: Seq<char>| #[trigger]
        is_defined(state, cx, name) && naming::track_of(name) is Some ==> highest(
            state,
            cx,
            naming::track_of(name).unwrap().0,
        ) is Some
}

/// Whether no defined name has a higher version than the entry for its track,
/// when the keys of `state` are those of `cx`.
pub open spec fn is_maximal<I: NameMapIntern, V>(
    state: NameMapState<<I::Key as View>::V, V>,
    cx: &I,
) -> bool {
    forall|name: Seq<char>| #[trigger]
        is_defined(state, cx, name) ==> (naming::track_of(name) matches Some((track, version)) ==> (
        highest(state, cx, track) matches Some((key, highest_version)) ==> key == cx.key_of(
            name,
        ).unwrap() || !highest_version.precedes(version)))
}

/// Whether the tracks fit the definitions, and their entries are the highest,
/// after an operation if they were before.
pub open spec fn keeps_tracks<I: NameMapIntern, V>(
    before: NameMapState<<I::Key as View>::V, V>,
    cx_before: &I,
    after: NameMapState<<I::Key as View>::V, V>,
    cx_after: &I,
) -> bool {
    is_linked(before, cx_before) ==> {
        &&& is_linked(after, cx_after)
        &&& is_maximal(before, cx_before) ==> is_maximal(after, cx_after)
    }
}

/// What the insertion of `name`, which is valid, returns and makes of `before`.
/// If memory runs out then the definition may be there without an entry for
/// its track.
pub open spec fn is_insert<I: NameMapIntern, V>(
    before: NameMapState<<I::Key as View>::V, V>,
    after: NameMapState<<I::Key as View>::V, V>,
    cx_after: &I,
    name: Seq<char>,
    allow_shadowing: bool,
    item: V,
    r: Result<I::Key, NameMapError>,
) -> bool {
    match r {
        Ok(key) => {
            &&& cx_after.key_of(name) == Some(key@)
            &&& naming::track_of(name) matches Some((track, _)) ==> cx_after.key_of(track) is Some
            &&& allow_shadowing || index_map::index_of(before.definitions, key@) is None
            &&& after == before.insert(key@, item, track_key(cx_after, name))
        },
        Err(NameMapError::DefinedTwice { name: twice }) => {
            &&& twice@ == name
            &&& !allow_shadowing
            &&& is_defined(before, cx_after, name)
            &&& after == before
        },
        Err(NameMapError::OutOfMemory) => {
            &&& !(I::never_fails() && <I::Key as TryClone>::never_fails())
            &&& after == before || {
                &&& cx_after.key_of(name) is Some
                &&& after == before.define(cx_after.key_of(name).unwrap(), item)
            }
        },
        Err(_) => false,
    }
}

/// What it makes of `before` to find `name` there and to merge with what is
/// found: `value` is the value that is there, and `new_value` the one that it
/// is then given. A definition of another name is re-keyed to `name` if `name`
/// is higher.
pub open spec fn is_merge<I: NameMapIntern, V>(
    before: NameMapState<<I::Key as View>::V, V>,
    cx_before: &I,
    after: NameMapState<<I::Key as View>::V, V>,
    cx_after: &I,
    name: Seq<char>,
    value: V,
    new_value: V,
) -> bool {
    find_name(before, cx_before, name) matches Some((index, exact)) && {
        let key = cx_after.key_of(name);
        let track = track_key(cx_after, name);
        &&& value == before.definitions[index].1
        &&& if !exact && before.is_outdone_by(track) {
            &&& key is Some
            &&& after == before.upgrade(index, key.unwrap(), track).set_value(index, new_value)
        } else {
            after == before.set_value(index, new_value)
        }
    }
}

/// What it makes of `before` to insert `name` there with a value, if that is
/// then changed to `new_value`.
pub open spec fn is_insert_of<I: NameMapIntern, V>(
    before: NameMapState<<I::Key as View>::V, V>,
    after: NameMapState<<I::Key as View>::V, V>,
    cx_after: &I,
    name: Seq<char>,
    allow_shadowing: bool,
    new_value: V,
) -> bool {
    &&& cx_after.key_of(name) is Some
    &&& naming::track_of(name) matches Some((track, _)) ==> cx_after.key_of(track) is Some
    &&& allow_shadowing || !is_defined(before, cx_after, name)
    &&& after == before.insert(
        cx_after.key_of(name).unwrap(),
        new_value,
        track_key(cx_after, name),
    )
}

/// Whether `can_merge` and `default` can be called where a lookup of `name` and
/// an insertion if it fails call them.
pub open spec fn can_get_or_insert<
    I: NameMapIntern,
    V,
    M: FnOnce(&V) -> bool,
    D: FnOnce() -> V,
>(
    before: NameMapState<<I::Key as View>::V, V>,
    cx_before: &I,
    name: Seq<char>,
    can_merge: M,
    default: D,
) -> bool {
    match find_name(before, cx_before, name) {
        Some((index, _)) => {
            let value = before.definitions[index].1;
            &&& can_merge.requires((&value,))
            &&& can_merge.ensures((&value,), false) ==> default.requires(())
        },
        None => default.requires(()),
    }
}

/// What it returns and makes of `before` to look up `name`, which is valid, to
/// merge with the definition found if `can_merge` is true of it, and otherwise
/// to insert `default()`. A value that is returned is given by what it is and
/// by what it is changed to later.
pub open spec fn is_get_or_insert<
    I: NameMapIntern,
    V,
    M: FnOnce(&V) -> bool,
    D: FnOnce() -> V,
>(
    before: NameMapState<<I::Key as View>::V, V>,
    cx_before: &I,
    after: NameMapState<<I::Key as View>::V, V>,
    cx_after: &I,
    name: Seq<char>,
    allow_shadowing: bool,
    can_merge: M,
    default: D,
    r: Result<(V, V), NameMapError>,
) -> bool {
    let merges = match find_name(before, cx_before, name) {
        Some((index, _)) => can_merge.ensures((&before.definitions[index].1,), true),
        None => false,
    };
    let inserts = match find_name(before, cx_before, name) {
        Some((index, _)) => can_merge.ensures((&before.definitions[index].1,), false),
        None => true,
    };
    match r {
        Ok((value, new_value)) => {
            ||| {
                &&& merges
                &&& is_merge(before, cx_before, after, cx_after, name, value, new_value)
            }
            ||| {
                &&& inserts
                &&& default.ensures((), value)
                &&& is_insert_of(before, after, cx_after, name, allow_shadowing, new_value)
            }
        },
        Err(NameMapError::DefinedTwice { name: twice }) => {
            &&& inserts
            &&& twice@ == name
            &&& !allow_shadowing
            &&& is_defined(before, cx_after, name)
            &&& after == before
        },
        Err(NameMapError::OutOfMemory) => {
            &&& !(I::never_fails() && <I::Key as TryClone>::never_fails())
            &&& after == before || exists|item: V|
                {
                    &&& inserts
                    &&& #[trigger] default.ensures((), item)
                    &&& cx_after.key_of(name) matches Some(key)
                    &&& after == before.define(key, item)
                }
        },
        Err(_) => false,
    }
}

/// Strings that are interned keep their keys from `before` to `after`.
pub open spec fn keeps_keys<I: NameMapIntern>(before: &I, after: &I) -> bool {
    forall|s: Seq<char>|
        before.key_of(s) is Some ==> #[trigger] after.key_of(s) == before.key_of(s)
}

/// A name that is defined after more strings have been interned was defined
/// before.
pub proof fn lemma_defined_before<I: NameMapIntern, V>(
    state: NameMapState<<I::Key as View>::V, V>,
    before: &I,
    after: &I,
    name: Seq<char>,
)
    requires
        keeps_keys(before, after),
        is_keyed(state, before),
        is_defined(state, after, name),
    ensures
        is_defined(state, before, name),
        before.key_of(name) == after.key_of(name),
{
    let key = after.key_of(name).unwrap();
    index_map::lemma_index_of(state.definitions, key);
    let i = index_map::index_of(state.definitions, key).unwrap();
    assert(is_interned(before, state.definitions[i].0));
    let s = choose|s: Seq<char>| #[trigger] before.key_of(s) == Some(key);
    assert(after.key_of(s) == before.key_of(s));
    after.keys_are_distinct(name, s);
}

/// Interning more strings keeps the tracks in order.
pub proof fn lemma_intern_keeps_links<I: NameMapIntern, V>(
    state: NameMapState<<I::Key as View>::V, V>,
    before: &I,
    after: &I,
)
    requires
        keeps_keys(before, after),
        is_keyed(state, before),
    ensures
        is_keyed(state, after),
        keeps_tracks(state, before, state, after),
{
    assert forall|i: int| 0 <= i < state.definitions.len() implies is_interned(
        after,
        (#[trigger] state.definitions[i]).0,
    ) by {
        let key = state.definitions[i].0;
        assert(is_interned(before, key));
        let s = choose|s: Seq<char>| #[trigger] before.key_of(s) == Some(key);
        assert(after.key_of(s) == Some(key));
    }
    assert forall|i: int| 0 <= i < state.alternates.len() implies {
        let (track_key, (key, version)) = #[trigger] state.alternates[i];
        &&& index_map::index_of(state.definitions, key) is Some
        &&& exists|name: Seq<char>| is_on_track(after, name, track_key, key, version)
    } by {
        let (track_key, (key, version)) = state.alternates[i];
        let name = choose|name: Seq<char>| is_on_track(before, name, track_key, key, version);
        let track = naming::track_of(name).unwrap().0;
        assert(after.key_of(name) == before.key_of(name));
        assert(after.key_of(track) == before.key_of(track));
        assert(is_on_track(after, name, track_key, key, version));
    }
    if is_linked(state, before) {
        assert forall|name: Seq<char>| #[trigger]
            is_defined(state, after, name) && naming::track_of(name) is Some implies highest(
            state,
            after,
            naming::track_of(name).unwrap().0,
        ) is Some by {
            lemma_defined_before(state, before, after, name);
            let track = naming::track_of(name).unwrap().0;
            assert(after.key_of(track) == before.key_of(track));
        }
    }
    if is_linked(state, before) && is_maximal(state, before) {
        assert forall|name: Seq<char>| #[trigger] is_defined(state, after, name) implies (
        naming::track_of(name) matches Some((track, version)) ==> (highest(
            state,
            after,
            track,
        ) matches Some((key, highest_version)) ==> key == after.key_of(name).unwrap()
            || !highest_version.precedes(version))) by {
            lemma_defined_before(state, before, after, name);
            if let Some((track, version)) = naming::track_of(name) {
                assert(highest(state, before, track) is Some);
                assert(after.key_of(track) == before.key_of(track));
            }
        }
    }
}

/// Which names are defined after the insertion of `name`.
pub proof fn lemma_defined_after_insert<I: NameMapIntern, V>(
    state: NameMapState<<I::Key as View>::V, V>,
    cx: &I,
    name: Seq<char>,
    item: V,
    other: Seq<char>,
)
    requires
        cx.key_of(name) is Some,
    ensures
        is_defined(
            state.insert(cx.key_of(name).unwrap(), item, track_key(cx, name)),
            cx,
            other,
        ) <==> other == name || is_defined(state, cx, other),
{
    let key = cx.key_of(name).unwrap();
    index_map::lemma_put(state.definitions, key, item);
    if cx.key_of(other) == Some(key) {
        cx.keys_are_distinct(other, name);
    }
}

/// The entry for a track after the insertion of `name`.
pub proof fn lemma_highest_after_insert<I: NameMapIntern, V>(
    state: NameMapState<<I::Key as View>::V, V>,
    cx: &I,
    name: Seq<char>,
    item: V,
    track: Seq<char>,
)
    requires
        cx.key_of(name) is Some,
        naming::track_of(name) matches Some((t, _)) ==> cx.key_of(t) is Some,
    ensures
        ({
            let key = cx.key_of(name).unwrap();
            let after = state.insert(key, item, track_key(cx, name));
            highest(after, cx, track) == match naming::track_of(name) {
                Some((t, version)) if t == track => match highest(state, cx, track) {
                    Some((prev_key, prev)) if version.precedes(prev) => Some((prev_key, prev)),
                    _ => Some((key, version)),
                },
                _ => highest(state, cx, track),
            }
        }),
{
    let key = cx.key_of(name).unwrap();
    if let Some((t, version)) = naming::track_of(name) {
        index_map::lemma_put(state.alternates, cx.key_of(t).unwrap(), (key, version));
        if cx.key_of(track) == cx.key_of(t) {
            cx.keys_are_distinct(track, t);
        }
    }
}

/// Inserting a name keeps the tracks linked to the definitions.
pub proof fn lemma_insert_keeps_links<I: NameMapIntern, V>(
    state: NameMapState<<I::Key as View>::V, V>,
    cx: &I,
    name: Seq<char>,
    item: V,
)
    requires
        is_keyed(state, cx),
        cx.key_of(name) is Some,
        naming::track_of(name) matches Some((t, _)) ==> cx.key_of(t) is Some,
    ensures
        ({
            let after = state.insert(cx.key_of(name).unwrap(), item, track_key(cx, name));
            &&& is_keyed(after, cx)
            &&& is_linked(state, cx) ==> is_linked(after, cx)
        }),
{
    let key = cx.key_of(name).unwrap();
    let after = state.insert(key, item, track_key(cx, name));
    index_map::lemma_put(state.definitions, key, item);
    index_map::lemma_index_of(state.definitions, key);
    assert forall|i: int| 0 <= i < after.definitions.len() implies is_interned(
        cx,
        (#[trigger] after.definitions[i]).0,
    ) by {
        if after.definitions[i].0 != key {
            assert(after.definitions[i] == state.definitions[i]);
        }
    }
    if is_linked(state, cx) {
        assert forall|other: Seq<char>| #[trigger]
            is_defined(after, cx, other) && naming::track_of(other) is Some implies highest(
            after,
            cx,
            naming::track_of(other).unwrap().0,
        ) is Some by {
            lemma_defined_after_insert(state, cx, name, item, other);
            lemma_highest_after_insert(state, cx, name, item, naming::track_of(other).unwrap().0);
        }
    }
    assert forall|i: int| 0 <= i < after.alternates.len() implies {
        let (track_key, (k, version)) = #[trigger] after.alternates[i];
        &&& index_map::index_of(after.definitions, k) is Some
        &&& exists|n: Seq<char>| is_on_track(cx, n, track_key, k, version)
    } by {
        let (tk, (k, version)) = after.alternates[i];
        if k == key && track_key(cx, name) == Some((tk, version)) {
            assert(is_on_track(cx, name, tk, k, version));
        } else {
            if let Some((t, _)) = naming::track_of(name) {
                index_map::lemma_index_of(state.alternates, cx.key_of(t).unwrap());
            }
            assert(state.alternates[i] == after.alternates[i]);
            if k != key {
                assert(index_map::index_of(after.definitions, k) == index_map::index_of(
                    state.definitions,
                    k,
                ));
            }
        }
    }
    if let Some((t, version)) = naming::track_of(name) {
        index_map::lemma_put(state.alternates, cx.key_of(t).unwrap(), (key, version));
    }
}

/// Defining a name without an entry for its track keeps the keys.
pub proof fn lemma_define_keeps_keys<I: NameMapIntern, V>(
    state: NameMapState<<I::Key as View>::V, V>,
    cx: &I,
    name: Seq<char>,
    item: V,
)
    requires
        is_keyed(state, cx),
        cx.key_of(name) is Some,
    ensures
        is_keyed(state.define(cx.key_of(name).unwrap(), item), cx),
{
    let key = cx.key_of(name).unwrap();
    let after = state.define(key, item);
    index_map::lemma_put(state.definitions, key, item);
    index_map::lemma_index_of(state.definitions, key);
    assert forall|i: int| 0 <= i < after.definitions.len() implies is_interned(
        cx,
        (#[trigger] after.definitions[i]).0,
    ) by {
        if after.definitions[i].0 != key {
            assert(after.definitions[i] == state.definitions[i]);
        }
    }
    assert forall|k: <I::Key as View>::V|
        index_map::index_of(state.definitions, k) is Some implies #[trigger] index_map::index_of(
        after.definitions,
        k,
    ) is Some by {
        if k != key {
            assert(index_map::index_of(after.definitions, k) == index_map::index_of(
                state.definitions,
                k,
            ));
        }
    }
}

/// Inserting a name keeps the highest version on each track.
pub proof fn lemma_insert_keeps_maxima<I: NameMapIntern, V>(
    state: NameMapState<<I::Key as View>::V, V>,
    cx: &I,
    name: Seq<char>,
    item: V,
)
    requires
        is_linked(state, cx),
        is_maximal(state, cx),
        cx.key_of(name) is Some,
        naming::track_of(name) matches Some((track, _)) ==> cx.key_of(track) is Some,
    ensures
        is_maximal(state.insert(cx.key_of(name).unwrap(), item, track_key(cx, name)), cx),
{
    let key = cx.key_of(name).unwrap();
    let after = state.insert(key, item, track_key(cx, name));
    assert forall|other: Seq<char>| #[trigger] is_defined(after, cx, other) implies (
    naming::track_of(other) matches Some((track, version)) ==> (highest(
        after,
        cx,
        track,
    ) matches Some((k, highest_version)) ==> k == cx.key_of(other).unwrap()
        || !highest_version.precedes(version))) by {
        if let Some((track, version)) = naming::track_of(other) {
            lemma_defined_after_insert(state, cx, name, item, other);
            lemma_highest_after_insert(state, cx, name, item, track);
            if let Some((prev_key, prev)) = highest(state, cx, track) {
                if let Some((_, new)) = naming::track_of(name) {
                    order::law_order_is_total(new, prev, version);
                    order::law_order_is_total(prev, new, version);
                }
                lemma_highest_is_on_track(state, cx, track);
                let n = choose|n: Seq<char>|
                    is_on_track(cx, n, cx.key_of(track).unwrap(), prev_key, prev);
                if prev_key == cx.key_of(other).unwrap() {
                    cx.keys_are_distinct(n, other);
                }
            }
        }
    }
}

/// What holds of the keys and the tracks after the insertion of a name.
pub proof fn lemma_insert_keeps_tracks<I: NameMapIntern, V>(
    before: NameMapState<<I::Key as View>::V, V>,
    cx_before: &I,
    after: NameMapState<<I::Key as View>::V, V>,
    cx_after: &I,
    name: Seq<char>,
    allow_shadowing: bool,
    item: V,
    r: Result<I::Key, NameMapError>,
)
    requires
        is_insert(before, after, cx_after, name, allow_shadowing, item, r),
        interns_only(cx_before, cx_after, name),
    ensures
        is_keyed(before, cx_before) ==> is_keyed(after, cx_after),
        !(r matches Err(NameMapError::OutOfMemory)) ==> keeps_tracks(
            before,
            cx_before,
            after,
            cx_after,
        ),
{
    if is_keyed(before, cx_before) {
        lemma_intern_keeps_links(before, cx_before, cx_after);
        if cx_after.key_of(name) is Some {
            lemma_define_keeps_keys(before, cx_after, name, item);
        }
        if r is Ok {
            lemma_insert_keeps_links(before, cx_after, name, item);
            if is_linked(before, cx_before) && is_maximal(before, cx_before) {
                lemma_insert_keeps_maxima(before, cx_after, name, item);
            }
        }
    }
}

/// The entry for a track names a definition on it.
pub proof fn lemma_highest_is_on_track<I: NameMapIntern, V>(
    state: NameMapState<<I::Key as View>::V, V>,
    cx: &I,
    track: Seq<char>,
)
    requires
        is_keyed(state, cx),
        highest(state, cx, track) is Some,
    ensures
        ({
            let (key, version) = highest(state, cx, track).unwrap();
            &&& index_map::index_of(state.definitions, key) is Some
            &&& exists|name: Seq<char>|
                is_on_track(cx, name, cx.key_of(track).unwrap(), key, version)
            &&& forall|name: Seq<char>| #[trigger]
                is_on_track(cx, name, cx.key_of(track).unwrap(), key, version)
                    ==> naming::track_of(name) == Some((track, version))
        }),
{
    let track_key = cx.key_of(track).unwrap();
    index_map::lemma_index_of(state.alternates, track_key);
    let i = index_map::index_of(state.alternates, track_key).unwrap();
    let (key, version) = highest(state, cx, track).unwrap();
    assert(state.alternates[i] == (track_key, (key, version)));
    assert forall|name: Seq<char>| #[trigger]
        is_on_track(cx, name, track_key, key, version) implies naming::track_of(name) == Some(
        (track, version),
    ) by {
        cx.keys_are_distinct(naming::track_of(name).unwrap().0, track);
    }
}

/// A name that is found by its track, and that is higher than the highest
/// definition on it, is not defined.
pub proof fn lemma_upgrade_is_to_new_key<I: NameMapIntern, V>(
    state: NameMapState<<I::Key as View>::V, V>,
    before: &I,
    after: &I,
    name: Seq<char>,
    index: int,
)
    requires
        is_keyed(state, before),
        keeps_keys(before, after),
        find_name(state, before, name) == Some((index, false)),
        naming::track_of(name) matches Some((track, version)) && highest(
            state,
            after,
            track,
        ) matches Some((_, prev)) && prev.precedes(version),
    ensures
        !is_defined(state, after, name),
        ({
            let (track, version) = naming::track_of(name).unwrap();
            let (prev_key, _) = highest(state, after, track).unwrap();
            index_map::index_of(state.definitions, prev_key) == Some(index)
        }),
{
    let (track, version) = naming::track_of(name).unwrap();
    assert(after.key_of(track) == before.key_of(track));
    if is_defined(state, after, name) {
        lemma_defined_before(state, before, after, name);
        lemma_highest_is_on_track(state, before, track);
        let (prev_key, prev) = highest(state, before, track).unwrap();
        let n = choose|n: Seq<char>|
            is_on_track(before, n, before.key_of(track).unwrap(), prev_key, prev);
        naming::law_track_is_lowest_on_itself(n);
    }
}

/// The definitions after the one at `index` has been re-keyed to `name`.
pub proof fn lemma_defined_after_upgrade<I: NameMapIntern, V>(
    state: NameMapState<<I::Key as View>::V, V>,
    cx: &I,
    name: Seq<char>,
    index: int,
    key: <I::Key as View>::V,
)
    requires
        is_keyed(state, cx),
        cx.key_of(name) is Some,
        !is_defined(state, cx, name),
        0 <= index < state.definitions.len(),
    ensures
        ({
            let new_key = cx.key_of(name).unwrap();
            let defs = state.definitions;
            let after = defs.update(index, (new_key, defs[index].1));
            &&& index_map::distinct(after)
            &&& index_map::index_of(after, new_key) == Some(index)
            &&& key != new_key ==> (index_map::index_of(after, key) is Some <==> key
                != defs[index].0 && index_map::index_of(defs, key) is Some)
            &&& key != new_key && key != defs[index].0 ==> index_map::index_of(after, key)
                == index_map::index_of(defs, key)
        }),
{
    let new_key = cx.key_of(name).unwrap();
    let defs = state.definitions;
    let after = defs.update(index, (new_key, defs[index].1));
    index_map::lemma_index_of(defs, new_key);
    index_map::lemma_index_of(defs, key);
    index_map::lemma_index_of(after, key);
    index_map::lemma_index_of_first(after, new_key, index);
    if key != new_key {
        if let Some(i) = index_map::index_of(defs, key) {
            if key != defs[index].0 {
                assert(after[i].0 == key);
                index_map::lemma_index_of_first(after, key, i);
            }
        }
        if let Some(i) = index_map::index_of(after, key) {
            assert(defs[i].0 == key);
        }
    }
}

/// Re-keying the highest definition on a track to a higher version on it keeps
/// the tracks linked to the definitions.
pub proof fn lemma_upgrade_keeps_links<I: NameMapIntern, V>(
    state: NameMapState<<I::Key as View>::V, V>,
    cx: &I,
    name: Seq<char>,
    index: int,
)
    requires
        is_keyed(state, cx),
        cx.key_of(name) is Some,
        !is_defined(state, cx, name),
        naming::track_of(name) matches Some((track, version)) && highest(
            state,
            cx,
            track,
        ) matches Some((prev_key, prev)) && prev.precedes(version) && index_map::index_of(
            state.definitions,
            prev_key,
        ) == Some(index),
    ensures
        ({
            let after = state.upgrade(index, cx.key_of(name).unwrap(), track_key(cx, name));
            &&& is_keyed(after, cx)
            &&& keeps_tracks(state, cx, after, cx)
        }),
{
    let key = cx.key_of(name).unwrap();
    let (track, version) = naming::track_of(name).unwrap();
    let tk = cx.key_of(track).unwrap();
    let (prev_key, prev) = highest(state, cx, track).unwrap();
    let after = state.upgrade(index, key, track_key(cx, name));
    index_map::lemma_index_of(state.definitions, prev_key);
    index_map::lemma_put(state.alternates, tk, (key, version));
    index_map::lemma_index_of(state.alternates, tk);
    lemma_highest_is_on_track(state, cx, track);
    lemma_defined_after_upgrade(state, cx, name, index, key);
    assert forall|i: int| 0 <= i < after.definitions.len() implies is_interned(
        cx,
        (#[trigger] after.definitions[i]).0,
    ) by {
        if i != index {
            assert(after.definitions[i] == state.definitions[i]);
        }
    }
    assert forall|other: Seq<char>| #[trigger] is_defined(after, cx, other) && other
        != name implies is_defined(state, cx, other) && cx.key_of(other) != Some(prev_key) by {
        if cx.key_of(other) == Some(key) {
            cx.keys_are_distinct(other, name);
        }
        lemma_defined_after_upgrade(state, cx, name, index, cx.key_of(other).unwrap());
    }
    assert forall|t: Seq<char>| #[trigger] highest(after, cx, t) == if t == track {
        Some((key, version))
    } else {
        highest(state, cx, t)
    } by {
        if cx.key_of(t) == Some(tk) {
            cx.keys_are_distinct(t, track);
        }
    }
    assert forall|i: int| 0 <= i < after.alternates.len() implies {
        let (track_key, (k, v)) = #[trigger] after.alternates[i];
        &&& index_map::index_of(after.definitions, k) is Some
        &&& exists|n: Seq<char>| is_on_track(cx, n, track_key, k, v)
    } by {
        let (other_tk, (k, v)) = after.alternates[i];
        if i == index_map::index_of(state.alternates, tk).unwrap() {
            assert(is_on_track(cx, name, tk, key, version));
        } else {
            assert(state.alternates[i] == after.alternates[i]);
            assert(other_tk != tk);
            let n = choose|n: Seq<char>| is_on_track(cx, n, other_tk, k, v);
            if k == prev_key {
                let m = choose|m: Seq<char>| is_on_track(cx, m, tk, prev_key, prev);
                cx.keys_are_distinct(n, m);
            }
            lemma_defined_after_upgrade(state, cx, name, index, k);
        }
    }
    if is_linked(state, cx) && is_maximal(state, cx) {
        assert forall|other: Seq<char>| #[trigger] is_defined(after, cx, other) implies (
        naming::track_of(other) matches Some((t, v)) ==> (highest(
            after,
            cx,
            t,
        ) matches Some((k, highest_version)) ==> k == cx.key_of(other).unwrap()
            || !highest_version.precedes(v))) by {
            if let Some((_, v)) = naming::track_of(other) {
                order::law_order_is_total(prev, version, v);
            }
        }
    }
}

/// The tracks do not depend on the values of the definitions.
proof fn lemma_set_value_keeps_tracks<I: NameMapIntern, V>(
    state: NameMapState<<I::Key as View>::V, V>,
    cx: &I,
    index: int,
    item: V,
)
    requires
        0 <= index < state.definitions.len(),
    ensures
        keeps_tracks(state, cx, state.set_value(index, item), cx),
        is_keyed(state, cx) ==> is_keyed(state.set_value(index, item), cx),
{
    let after = state.set_value(index, item);
    assert(index_map::keys(after.definitions) =~= index_map::keys(state.definitions));
    assert(forall|name: Seq<char>| #[trigger]
        is_defined(after, cx, name) == is_defined(state, cx, name));
    assert(forall|track: Seq<char>| #[trigger]
        highest(after, cx, track) == highest(state, cx, track));
    if is_keyed(state, cx) {
        assert forall|i: int| 0 <= i < after.definitions.len() implies is_interned(
            cx,
            (#[trigger] after.definitions[i]).0,
        ) by {
            assert(after.definitions[i].0 == state.definitions[i].0);
        }
    }
}

/// The tracks do not depend on the values of the definitions, whatever the
/// value at `index` becomes.
pub proof fn lemma_set_values_keep_tracks<I: NameMapIntern, V>(
    state: NameMapState<<I::Key as View>::V, V>,
    cx: &I,
    index: int,
)
    requires
        0 <= index < state.definitions.len(),
    ensures
        forall|item: V| keeps_tracks(state, cx, #[trigger] state.set_value(index, item), cx),
        is_keyed(state, cx) ==> forall|item: V|
            is_keyed(#[trigger] state.set_value(index, item), cx),
{
    assert forall|item: V|
        {
            &&& keeps_tracks(state, cx, #[trigger] state.set_value(index, item), cx)
            &&& is_keyed(state, cx) ==> is_keyed(state.set_value(index, item), cx)
        } by {
        lemma_set_value_keeps_tracks(state, cx, index, item);
    }
}

} // verus!
