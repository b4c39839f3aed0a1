//! A semver-aware map for imports/exports of a component.
use crate::error::{NameMapError, OutOfMemory};
use crate::grammar::VersionView;
use crate::index_map;
use crate::index_map::IndexMap;
use crate::intern::{KeyEq, NameMapIntern, TryClone, TryCow};
use crate::naming;
use crate::naming::{canonical_name, semver_track, validate_name};
use crate::state;
use crate::state::NameMapState;
use crate::text;
use crate::version::Version;
use vstd::prelude::*;

verus! {

/// A semver-aware map for imports/exports of a component.
///
/// This data structure is used when looking up the names of imports/exports of
/// a component to enable semver-compatible matching of lookups. This will
/// enable lookups of `a:b/c@0.2.0` to match entries defined as `a:b/c@0.2.1`
/// which is currently considered a key feature of WASI's compatibility story.
///
/// On the outside this looks like a map of `K` to `V`.
#[derive(Debug)]
pub struct NameMap<K, V> {
    /// A map of keys to the value that they define.
    ///
    /// Note that this map is "exact" where the name here is the exact name that
    /// was specified when the `insert` was called. This doesn't have any
    /// semver-mangling or anything like that.
    ///
    /// This map is always consulted first during lookups.
    definitions: IndexMap<K, V>,
    /// An auxiliary map tracking semver-compatible names. This is a map from
    /// "semver compatible alternate name" to a name present in `definitions`
    /// and the semver version it was registered at.
    ///
    /// An example map would be:
    ///
    /// ```text
    /// {
    ///     "a:b/c@0.2": ("a:b/c@0.2.1", 0.2.1),
    ///     "a:b/c@2": ("a:b/c@2.0.0+abc", 2.0.0+abc),
    ///     "a:b/c@0.0.1": ("a:b/c@0.0.1+abc", 0.0.1+abc),
    ///     "a:b/d@1": ("a:b/d@1", 1.0.0),
    /// }
    /// ```
    ///
    /// As names are inserted into `definitions` each name may have up to one
    /// semver-compatible name with extra numbers/info chopped off which is
    /// inserted into this map. This map is the lookup table from `@0.2` to
    /// `@0.2.x` where `x` is what was inserted manually.
    ///
    /// The `Version` here is tracked to ensure that when multiple versions on
    /// one track are defined that only the maximal version here is retained.
    /// Canonical names such as `a:b/d@1` are padded to their lowest version.
    alternate_lookups: IndexMap<K, (K, Version)>,
}

/// The highest definitions of tracks, with keys and versions by their views.
pub open spec fn alternates_view<K: View>(
    alternates: Seq<(<K as View>::V, (K, Version))>,
) -> Seq<(<K as View>::V, (<K as View>::V, VersionView))> {
    Seq::new(
        alternates.len(),
        |i: int| (alternates[i].0, (alternates[i].1.0@, alternates[i].1.1@)),
    )
}

impl<K: View, V> View for NameMap<K, V> {
    type V = NameMapState<<K as View>::V, V>;

    closed spec fn view(&self) -> NameMapState<<K as View>::V, V> {
        NameMapState {
            definitions: self.definitions@,
            alternates: alternates_view::<K>(self.alternate_lookups@),
        }
    }
}

/// Looking up a key and putting one in are the same before and after taking
/// the views.
proof fn lemma_alternates_view<K: View>(
    alternates: Seq<(<K as View>::V, (K, Version))>,
    key: <K as View>::V,
)
    ensures
        index_map::index_of(alternates_view::<K>(alternates), key) == index_map::index_of(
            alternates,
            key,
        ),
        index_map::value_of(alternates_view::<K>(alternates), key) == match index_map::value_of(
            alternates,
            key,
        ) {
            Some((k, v)) => Some((k@, v@)),
            None => None,
        },
        forall|k: K, v: Version| #[trigger]
            alternates_view::<K>(index_map::put(alternates, key, (k, v))) == index_map::put(
                alternates_view::<K>(alternates),
                key,
                (k@, v@),
            ),
{
    let views = alternates_view::<K>(alternates);
    assert(index_map::keys(views) =~= index_map::keys(alternates));
    index_map::lemma_index_of(alternates, key);
    assert forall|k: K, v: Version| #[trigger]
        alternates_view::<K>(index_map::put(alternates, key, (k, v))) == index_map::put(
            views,
            key,
            (k@, v@),
        ) by {
        assert(alternates_view::<K>(index_map::put(alternates, key, (k, v))) =~= index_map::put(
            views,
            key,
            (k@, v@),
        ));
    }
}

/// Putting in all entries is the same before and after taking the views.
proof fn lemma_alternates_view_of_all<K: View>(entries: Seq<(<K as View>::V, (K, Version))>)
    ensures
        alternates_view::<K>(index_map::put_all(entries)) == index_map::put_all(
            alternates_view::<K>(entries),
        ),
    decreases entries.len(),
{
    let views = alternates_view::<K>(entries);
    if entries.len() > 0 {
        let init = entries.drop_last();
        let (key, (k, v)) = entries.last();
        lemma_alternates_view_of_all::<K>(init);
        lemma_alternates_view::<K>(index_map::put_all(init), key);
        assert(views.drop_last() =~= alternates_view::<K>(init));
        assert(alternates_view::<K>(index_map::put(index_map::put_all(init), key, (k, v)))
            == index_map::put(
            alternates_view::<K>(index_map::put_all(init)),
            key,
            (k@, v@),
        ));
    } else {
        assert(alternates_view::<K>(index_map::put_all(entries)) =~= index_map::put_all(views));
    }
}

impl<K: TryClone + KeyEq<K>, V> Default for NameMap<K, V> {
    fn default() -> (r: NameMap<K, V>)
        ensures
            r@ == NameMapState::<<K as View>::V, V>::empty(),
    {
        let map = NameMap { definitions: IndexMap::new(), alternate_lookups: IndexMap::new() };
        assert(map@ =~= NameMapState::empty());
        map
    }
}

impl<K: TryClone + KeyEq<K>, V> NameMap<K, V> {
    /// Inserts the `name` specified into this map.
    ///
    /// The name is intern'd through the `cx` argument and shadowing is
    /// controlled by the `allow_shadowing` variable.
    ///
    /// This function will automatically insert an entry in
    /// `self.alternate_lookups` if `name` is a semver-looking name, including
    /// canonical names such as `a:b/c@0.2`.
    ///
    /// Note that this never merges `item` with a semver-compatible definition,
    /// see [`NameMap::get_or_insert_with`] for that.
    ///
    /// Returns an error if `name` isn't a valid component name, see
    /// [`validate_name`], or if `allow_shadowing` is `false` and the `name` is
    /// already present in this map (by exact match). Otherwise returns the
    /// intern'd version of `name`. Note that the definition may later be
    /// re-keyed to a higher version by [`NameMap::get_or_insert_with`], after
    /// which the returned key no longer refers to it.
    pub fn insert<I: NameMapIntern<Key = K>>(
        &mut self,
        name: &str,
        cx: &mut I,
        allow_shadowing: bool,
        item: V,
    ) -> (r: Result<K, NameMapError>)
        ensures
            match naming::name_error(name@) {
                Some(error) => {
                    &&& r matches Err(e) && e@ == error
                    &&& final(self)@ == old(self)@
                    &&& *final(cx) == *old(cx)
                },
                None => state::is_insert(
                    old(self)@,
                    final(self)@,
                    final(cx),
                    name@,
                    allow_shadowing,
                    item,
                    r,
                ),
            },
            state::interns_only(old(cx), final(cx), name@),
            state::is_keyed(old(self)@, old(cx)) ==> state::is_keyed(final(self)@, final(cx)),
            !(r matches Err(NameMapError::OutOfMemory)) ==> state::keeps_tracks(
                old(self)@,
                old(cx),
                final(self)@,
                final(cx),
            ),
    {
        match validate_name(name) {
            Ok(()) => self.insert_unvalidated(name, cx, allow_shadowing, item),
            Err(e) => Err(e),
        }
    }

    /// Looks up `name` the same way as [`NameMap::get`], returning the index
    /// of the definition in `self.definitions` and whether it was an exact
    /// match for `name`.
    fn get_index_of<I: NameMapIntern<Key = K>>(&self, name: &str, cx: &I) -> (r: Option<
        (usize, bool),
    >)
        ensures
            match r {
                Some((index, exact)) => {
                    &&& state::find_name(self@, cx, name@) == Some((index as int, exact))
                    &&& index < self@.definitions.len()
                },
                None => state::find_name(self@, cx, name@) is None,
            },
    {
        // First look up an exact match and if that's found return that. This
        // enables defining multiple versions in the map and the requested
        // version is returned if it matches exactly.
        //
        // This is skipped for canonical names, such as `a:b/c@0.2`, as those
        // always resolve to the maximal version on their semver track. Note
        // that a canonical name is itself on its own track, so an exact
        // definition is still found below if it's the maximal version.
        let is_canonical = match semver_track(name) {
            Some((track, _)) => text::str_eq(track, name),
            None => false,
        };
        if !is_canonical {
            let candidate = match cx.lookup(name) {
                Some(TryCow::Borrowed(key)) => self.definitions.get_index_of(key),
                Some(TryCow::Owned(key)) => self.definitions.get_index_of(&key),
                None => None,
            };
            if let Some(index) = candidate {
                proof {
                    index_map::lemma_index_of(self.definitions@, cx.key_of(name@).unwrap());
                }
                return Some((index, true));
            }
        }
        // Failing that, then try to look for a semver-compatible alternative.
        // This looks up the semver track of `name`, which is `name` itself if
        // it's already canonical, and then looks to see if that was intern'd.
        // Given all that look to see if it was defined in `alternate_lookups`
        // and finally at the end that exact key is then used to look up again
        // in `self.definitions`.

        let canonical = canonical_name(name);
        let entry = match cx.lookup(canonical) {
            Some(TryCow::Borrowed(key)) => self.alternate_lookups.get(key),
            Some(TryCow::Owned(key)) => self.alternate_lookups.get(&key),
            None => None,
        };
        proof {
            if let Some(key) = cx.key_of(canonical@) {
                lemma_alternates_view::<K>(self.alternate_lookups@, key);
            }
        }
        match entry {
            Some((exact_key, _version)) => match self.definitions.get_index_of(exact_key) {
                Some(index) => {
                    proof {
                        index_map::lemma_index_of(self.definitions@, exact_key@);
                    }
                    let exact = match cx.lookup(name) {
                        Some(TryCow::Borrowed(key)) => key.key_eq(exact_key),
                        Some(TryCow::Owned(key)) => key.key_eq(exact_key),
                        None => false,
                    };
                    Some((index, exact))
                },
                None => None,
            },
            None => None,
        }
    }

    /// Looks up `name` within this map, using the interning specified by
    /// `cx`.
    ///
    /// This may return a definition even if `name` wasn't exactly defined in
    /// this map, such as looking up `a:b/c@0.2.0` when the map only has
    /// `a:b/c@0.2.1` defined. Canonical names, such as `a:b/c@0.2`, return the
    /// maximal version defined on that semver track.
    pub fn get<I: NameMapIntern<Key = K>>(&self, name: &str, cx: &I) -> (r: Option<&V>)
        ensures
            match r {
                Some(value) => state::get_name(self@, cx, name@) == Some(*value),
                None => state::get_name(self@, cx, name@) is None,
            },
    {
        match self.get_index_of(name, cx) {
            Some((index, _exact)) => Some(self.definitions.get_index(index)),
            None => None,
        }
    }

    /// Inserts `name`, which is not validated, like [`NameMap::insert`].
    pub fn insert_unvalidated<I: NameMapIntern<Key = K>>(
        &mut self,
        name: &str,
        cx: &mut I,
        allow_shadowing: bool,
        item: V,
    ) -> (r: Result<K, NameMapError>)
        ensures
            state::is_insert(
                old(self)@,
                final(self)@,
                final(cx),
                name@,
                allow_shadowing,
                item,
                r,
            ),
            state::interns_only(old(cx), final(cx), name@),
            state::is_keyed(old(self)@, old(cx)) ==> state::is_keyed(final(self)@, final(cx)),
            !(r matches Err(NameMapError::OutOfMemory)) ==> state::keeps_tracks(
                old(self)@,
                old(cx),
                final(self)@,
                final(cx),
            ),
    {
        let r = self.insert_entries(name, cx, allow_shadowing, item);
        proof {
            state::lemma_insert_keeps_tracks(
                old(self)@,
                old(cx),
                self@,
                cx,
                name@,
                allow_shadowing,
                item,
                r,
            );
        }
        r
    }

    /// Inserts `name` as a definition and as the entry for its track.
    fn insert_entries<I: NameMapIntern<Key = K>>(
        &mut self,
        name: &str,
        cx: &mut I,
        allow_shadowing: bool,
        item: V,
    ) -> (r: Result<K, NameMapError>)
        ensures
            state::is_insert(
                old(self)@,
                final(self)@,
                final(cx),
                name@,
                allow_shadowing,
                item,
                r,
            ),
            state::interns_only(old(cx), final(cx), name@),
    {
        // Always insert `name` and `item` as an exact definition.
        let key = match cx.intern(name) {
            Ok(key) => key,
            Err(_) => return Err(NameMapError::OutOfMemory),
        };
        if !allow_shadowing && self.definitions.contains_key(&key) {
            return Err(NameMapError::DefinedTwice { name: name.to_owned() });
        }
        match key.try_clone() {
            Ok(definition) => {
                self.definitions.insert(definition, item);
            },
            Err(_) => return Err(NameMapError::OutOfMemory),
        }
        let ghost defined = self@;
        assert(defined =~= old(self)@.define(key@, item));

        // If `name` is a semver-looking thing, like `a:b/c@1.0.0`, then also
        // insert an entry in the semver-compatible map under a key such as
        // `a:b/c@1`.
        //
        // This key is used during `get` later on.
        if let Some((track, version)) = semver_track(name) {
            let alternate_key = match cx.intern(track) {
                Ok(key) => key,
                Err(_) => return Err(NameMapError::OutOfMemory),
            };
            let (k1, k2, v) = match (
                alternate_key.try_clone(),
                key.try_clone(),
                version.try_clone(),
            ) {
                (Ok(k1), Ok(k2), Ok(v)) => (k1, k2, v),
                _ => return Err(NameMapError::OutOfMemory),
            };
            proof {
                lemma_alternates_view::<K>(self.alternate_lookups@, alternate_key@);
            }
            let ghost before = self.alternate_lookups@;
            assert(self.alternate_lookups@ == old(self).alternate_lookups@);
            if let Some((prev_key, prev_version)) = self.alternate_lookups.insert(k1, (k2, v)) {
                // Prefer the latest version, so only do this if we're greater
                // than the prior version.
                if version.lt(&prev_version) {
                    proof {
                        lemma_alternates_view::<K>(self.alternate_lookups@, alternate_key@);
                        index_map::lemma_put_back(
                            alternates_view::<K>(before),
                            alternate_key@,
                            (key@, version@),
                            (prev_key@, prev_version@),
                        );
                    }
                    self.alternate_lookups.insert(alternate_key, (prev_key, prev_version));
                }
            }
        }
        Ok(key)
    }

    /// Re-keys the definition at `index` to `name` if `name` is a higher
    /// version on the same semver track.
    ///
    /// This requires that the definition at `index` is the maximal version on
    /// the semver track of `name` and that `name` isn't already defined.
    fn upgrade_key<I: NameMapIntern<Key = K>>(
        &mut self,
        index: usize,
        name: &str,
        cx: &mut I,
    ) -> (r: Result<(), NameMapError>)
        requires
            state::is_keyed(old(self)@, old(cx)),
            state::find_name(old(self)@, old(cx), name@) == Some((index as int, false)),
            index < old(self)@.definitions.len(),
        ensures
            match r {
                Ok(()) => state::is_merge(
                    old(self)@,
                    old(cx),
                    final(self)@,
                    final(cx),
                    name@,
                    old(self)@.definitions[index as int].1,
                    old(self)@.definitions[index as int].1,
                ),
                Err(e) => {
                    &&& e is OutOfMemory
                    &&& !(I::never_fails() && K::never_fails())
                    &&& final(self)@ == old(self)@
                },
            },
            state::interns_only(old(cx), final(cx), name@),
            state::is_keyed(final(self)@, final(cx)),
            state::keeps_tracks(old(self)@, old(cx), final(self)@, final(cx)),
            final(self)@.definitions.len() == old(self)@.definitions.len(),
    {
        let ghost value = self@.definitions[index as int].1;
        assert(self@ =~= self@.set_value(index as int, value));
        let (track, version) = match semver_track(name) {
            Some(track) => track,
            None => return Ok(()),
        };
        let alternate_key = match cx.intern(track) {
            Ok(key) => key,
            Err(_) => {
                proof {
                    state::lemma_intern_keeps_links(old(self)@, old(cx), cx);
                }
                return Err(NameMapError::OutOfMemory);
            },
        };
        proof {
            state::lemma_intern_keeps_links(old(self)@, old(cx), cx);
            lemma_alternates_view::<K>(self.alternate_lookups@, alternate_key@);
        }
        let is_higher = match self.alternate_lookups.get(&alternate_key) {
            Some((_, prev_version)) => prev_version.lt(&version),
            None => false,
        };
        if !is_higher {
            return Ok(());
        }
        let key = match cx.intern(name) {
            Ok(key) => key,
            Err(_) => {
                proof {
                    state::lemma_intern_keeps_links(old(self)@, old(cx), cx);
                }
                return Err(NameMapError::OutOfMemory);
            },
        };
        proof {
            state::lemma_intern_keeps_links(old(self)@, old(cx), cx);
            state::lemma_upgrade_is_to_new_key(old(self)@, old(cx), cx, name@, index as int);
            state::lemma_upgrade_keeps_links(old(self)@, cx, name@, index as int);
        }
        let definition = match key.try_clone() {
            Ok(key) => key,
            Err(_) => return Err(NameMapError::OutOfMemory),
        };
        let replaced = self.definitions.replace_index(index, definition);
        assert(replaced is Ok);
        self.alternate_lookups.insert(alternate_key, (key, version));
        proof {
            let upgraded = old(self)@.upgrade(
                index as int,
                key@,
                state::track_key(cx, name@),
            );
            assert(self@ =~= upgraded);
            assert(upgraded =~= upgraded.set_value(index as int, value));
        }
        Ok(())
    }

    /// The value of the definition at `index`, to be changed.
    fn get_index_mut(&mut self, index: usize) -> (r: &mut V)
        requires
            index < old(self)@.definitions.len(),
        ensures
            *r == old(self)@.definitions[index as int].1,
            final(self)@ == old(self)@.set_value(index as int, *final(r)),
    {
        self.definitions.get_index_mut(index)
    }

    /// Looks up `name`, which is not validated, like
    /// [`NameMap::get_or_insert_with`].
    pub fn get_or_insert_unvalidated<I: NameMapIntern<Key = K>>(
        &mut self,
        name: &str,
        cx: &mut I,
        allow_shadowing: bool,
        can_merge: impl FnOnce(&V) -> bool,
        default: impl FnOnce() -> V,
    ) -> (r: Result<&mut V, NameMapError>)
        requires
            state::is_keyed(old(self)@, old(cx)),
            state::can_get_or_insert(old(self)@, old(cx), name@, can_merge, default),
        ensures
            state::is_get_or_insert(
                old(self)@,
                old(cx),
                final(self)@,
                final(cx),
                name@,
                allow_shadowing,
                can_merge,
                default,
                match r {
                    Ok(value) => Ok((*value, *final(value))),
                    Err(e) => Err(e),
                },
            ),
            state::interns_only(old(cx), final(cx), name@),
            state::is_keyed(old(self)@, old(cx)) ==> state::is_keyed(final(self)@, final(cx)),
            !(r matches Err(NameMapError::OutOfMemory)) ==> state::keeps_tracks(
                old(self)@,
                old(cx),
                final(self)@,
                final(cx),
            ),
    {
        if let Some((index, exact)) = self.get_index_of(name, cx) {
            if can_merge(self.definitions.get_index(index)) {
                if !exact {
                    if let Err(e) = self.upgrade_key(index, name, cx) {
                        return Err(e);
                    }
                    proof {
                        let track = state::track_key(cx, name@);
                        let merged = if old(self)@.is_outdone_by(track) {
                            old(self)@.upgrade(
                                index as int,
                                cx.key_of(name@).unwrap(),
                                track,
                            )
                        } else {
                            old(self)@
                        };
                        let value = old(self)@.definitions[index as int].1;
                        state::lemma_set_value_twice(merged, index as int, value);
                        assert(merged =~= merged.set_value(index as int, value));
                    }
                }
                proof {
                    state::lemma_set_values_keep_tracks(self@, cx, index as int);
                }
                return Ok(self.get_index_mut(index));
            }
        }
        let item = default();
        match self.insert_unvalidated(name, cx, allow_shadowing, item) {
            Ok(key) => {
                proof {
                    state::lemma_insert_then_set_value(
                        old(self)@,
                        key@,
                        item,
                        state::track_key(cx, name@),
                    );
                }
                let index: usize = self.definitions.get_index_of(&key).unwrap();
                proof {
                    state::lemma_set_values_keep_tracks(self@, cx, index as int);
                }
                Ok(self.get_index_mut(index))
            },
            Err(e) => Err(e),
        }
    }

    /// Looks up `name` like [`NameMap::get`] and returns the definition found
    /// if `can_merge` returns `true` for it, and otherwise inserts `default()`
    /// like [`NameMap::insert`].
    ///
    /// This is used to merge definitions on the same semver track. If `name`
    /// resolves to a mergeable definition on its semver track, but not an
    /// exact match, and `name` is a higher version than that definition, then
    /// the definition is re-keyed to `name`. For example if `a:b/c@0.2.0` is
    /// defined then `a:b/c@0.2.3` re-keys that definition to `a:b/c@0.2.3`
    /// while `a:b/c@0.2` or `a:b/c@0.1.0` leaves it as-is.
    ///
    /// Returns an error if `name` isn't valid, see [`validate_name`], even if
    /// it would otherwise resolve to an existing definition.
    pub fn get_or_insert_with<I: NameMapIntern<Key = K>>(
        &mut self,
        name: &str,
        cx: &mut I,
        allow_shadowing: bool,
        can_merge: impl FnOnce(&V) -> bool,
        default: impl FnOnce() -> V,
    ) -> (r: Result<&mut V, NameMapError>)
        requires
            state::is_keyed(old(self)@, old(cx)),
            naming::name_error(name@) is None ==> state::can_get_or_insert(
                old(self)@,
                old(cx),
                name@,
                can_merge,
                default,
            ),
        ensures
            match naming::name_error(name@) {
                Some(error) => {
                    &&& r matches Err(e) && e@ == error
                    &&& final(self)@ == old(self)@
                    &&& *final(cx) == *old(cx)
                },
                None => state::is_get_or_insert(
                    old(self)@,
                    old(cx),
                    final(self)@,
                    final(cx),
                    name@,
                    allow_shadowing,
                    can_merge,
                    default,
                    match r {
                        Ok(value) => Ok((*value, *final(value))),
                        Err(e) => Err(e),
                    },
                ),
            },
            state::interns_only(old(cx), final(cx), name@),
            state::is_keyed(old(self)@, old(cx)) ==> state::is_keyed(final(self)@, final(cx)),
            !(r matches Err(NameMapError::OutOfMemory)) ==> state::keeps_tracks(
                old(self)@,
                old(cx),
                final(self)@,
                final(cx),
            ),
    {
        match validate_name(name) {
            Ok(()) => self.get_or_insert_unvalidated(
                name,
                cx,
                allow_shadowing,
                can_merge,
                default,
            ),
            Err(e) => Err(e),
        }
    }

    /// Returns the inserted values in this map.
    ///
    /// Note that the items are intern'd keys and values, and that this
    /// additionally does not do anything special with semver names and such,
    /// it only literally yields what's been inserted with [`NameMap::insert`].
    pub fn raw_iter(&self) -> (r: Vec<(&K, &V)>)
        ensures
            r@.len() == self@.definitions.len(),
            forall|i: int|
                0 <= i < r@.len() ==> (#[trigger] r@[i]).0@ == self@.definitions[i].0 && *r@[i].1
                    == self@.definitions[i].1,
    {
        self.definitions.iter()
    }

    /// Returns the canonical names of the tracks in this map, each with the
    /// key and the version of the highest definition on it.
    pub fn raw_alternates(&self) -> (r: Vec<(&K, &(K, Version))>)
        ensures
            r@.len() == self@.alternates.len(),
            forall|i: int|
                0 <= i < r@.len() ==> {
                    &&& (#[trigger] r@[i]).0@ == self@.alternates[i].0
                    &&& r@[i].1.0@ == self@.alternates[i].1.0
                    &&& r@[i].1.1@ == self@.alternates[i].1.1
                },
    {
        self.alternate_lookups.iter()
    }

    /// Makes a map of what [`NameMap::raw_iter`] and
    /// [`NameMap::raw_alternates`] return. Of two entries with the same key the
    /// latter counts, in the place of the former.
    pub fn from_parts(definitions: Vec<(K, V)>, alternates: Vec<(K, (K, Version))>) -> (r: NameMap<
        K,
        V,
    >)
        ensures
            r@.definitions == index_map::put_all(
                Seq::new(definitions@.len(), |i: int| (definitions@[i].0@, definitions@[i].1)),
            ),
            r@.alternates == index_map::put_all(
                Seq::new(
                    alternates@.len(),
                    |i: int|
                        (alternates@[i].0@, (alternates@[i].1.0@, alternates@[i].1.1@)),
                ),
            ),
    {
        let ghost entries = Seq::new(
            alternates@.len(),
            |i: int| (alternates@[i].0@, alternates@[i].1),
        );
        proof {
            lemma_alternates_view_of_all::<K>(entries);
            assert(alternates_view::<K>(entries) =~= Seq::new(
                alternates@.len(),
                |i: int| (alternates@[i].0@, (alternates@[i].1.0@, alternates@[i].1.1@)),
            ));
        }
        NameMap {
            definitions: IndexMap::from_entries(definitions),
            alternate_lookups: IndexMap::from_entries(alternates),
        }
    }
}

impl<K: TryClone + KeyEq<K>, V: TryClone> NameMap<K, V> {
    /// Clones the map.
    pub fn try_clone(&self) -> (r: Result<NameMap<K, V>, OutOfMemory>)
        ensures
            r matches Ok(clone) ==> {
                &&& clone@.definitions.len() == self@.definitions.len()
                &&& forall|i: int|
                    0 <= i < clone@.definitions.len() ==> {
                        &&& (#[trigger] clone@.definitions[i]).0 == self@.definitions[i].0
                        &&& clone@.definitions[i].1@ == self@.definitions[i].1@
                    }
                &&& clone@.alternates == self@.alternates
            },
            K::never_fails() && V::never_fails() ==> r is Ok,
    {
        match (self.definitions.try_clone(), self.alternate_lookups.try_clone()) {
            (Ok(definitions), Ok(alternate_lookups)) => {
                let clone = NameMap { definitions, alternate_lookups };
                assert(clone@.alternates =~= self@.alternates);
                Ok(clone)
            },
            _ => Err(OutOfMemory),
        }
    }
}

} // verus!
