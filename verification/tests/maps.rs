use component_names::error::NameMapError;
use component_names::index_map::IndexMap;
use component_names::intern::{NameMapIntern, NameMapNoIntern, TryClone, TryCow, TryToOwned};
use component_names::name_map::NameMap;
use component_names::string_pool::{Atom, StringPool};
use component_names::version::Version;

fn keys<V>(map: &NameMap<String, V>) -> Vec<&str> {
    map.raw_iter().into_iter().map(|(k, _)| k.as_str()).collect()
}

fn tracks<V>(map: &NameMap<String, V>) -> Vec<(&str, &str, u64)> {
    map.raw_alternates()
        .into_iter()
        .map(|(k, (key, v))| (k.as_str(), key.as_str(), v.patch()))
        .collect()
}

#[test]
fn atoms_stay() {
    let mut pool = StringPool::new();
    assert!(pool.get_atom("a").is_none());
    let a = pool.insert("a").unwrap();
    let b = pool.insert("b").unwrap();
    assert_ne!(a, b);
    assert_eq!(pool.insert("a"), Ok(a));
    assert_eq!(pool.get_atom("a"), Some(a));
    assert_eq!(pool.get_atom("b"), Some(b));
    assert_eq!(pool.get_atom("c"), None);
    assert_eq!(a.try_clone(), Ok(a));
}

#[test]
fn interning() {
    let mut none = NameMapNoIntern;
    assert_eq!(none.intern("a"), Ok("a".to_string()));
    assert!(matches!(none.lookup("b"), Some(TryCow::Borrowed("b"))));
    assert_eq!("b".try_to_owned(), Ok("b".to_string()));
    let mut pool = StringPool::new();
    assert!(pool.lookup("a").is_none());
    let a = pool.intern("a").unwrap();
    assert!(matches!(pool.lookup("a"), Some(TryCow::Owned(atom)) if atom == a));
    assert_eq!(pool.intern("a"), Ok(a));
}

#[test]
fn index_map_keeps_places() {
    let mut map: IndexMap<String, u32> = IndexMap::new();
    assert_eq!(map.insert("a".to_string(), 1), None);
    assert_eq!(map.insert("b".to_string(), 2), None);
    assert_eq!(map.insert("a".to_string(), 3), Some(1));
    assert_eq!(map.len(), 2);
    assert_eq!(map.get_index_of("a"), Some(0));
    assert_eq!(map.get_index_of("b"), Some(1));
    assert_eq!(map.get_index_of("c"), None);
    assert_eq!(map.get("a"), Some(&3));
    assert_eq!(map.get("c"), None);
    assert_eq!(map.replace_index(0, "b".to_string()), Err("b".to_string()));
    assert_eq!(map.replace_index(0, "a".to_string()), Ok("a".to_string()));
    assert_eq!(map.replace_index(0, "c".to_string()), Ok("a".to_string()));
    assert!(!map.contains_key(&"a".to_string()));
    *map.get_index_mut(0) = 4;
    let entries: Vec<(String, u32)> = map.iter().into_iter().map(|(k, v)| (k.clone(), *v)).collect();
    assert_eq!(entries, [("c".to_string(), 4), ("b".to_string(), 2)]);
    let twice = vec![("x".to_string(), 1), ("y".to_string(), 2), ("x".to_string(), 3)];
    let map = IndexMap::from_entries(twice);
    assert_eq!(map.iter(), [(&"x".to_string(), &3), (&"y".to_string(), &2)]);
}

#[test]
fn found_by_atoms() {
    let mut pool = StringPool::new();
    let mut map: NameMap<Atom, u32> = NameMap::default();
    let key = map.insert("a:b/c@1.0.1", &mut pool, false, 1).unwrap();
    assert_eq!(pool.get_atom("a:b/c@1.0.1"), Some(key));
    assert!(pool.get_atom("a:b/c@1").is_some());
    assert_eq!(map.get("a:b/c@1.0.1", &pool), Some(&1));
    assert_eq!(map.get("a:b/c@1.0.0", &pool), Some(&1));
    assert_eq!(map.get("a:b/c@1", &pool), Some(&1));
    assert_eq!(map.get("a:b/c@2.0.0", &pool), None);
    // Interning more strings changes nothing.
    pool.insert("a:b/c@1.0.0").unwrap();
    pool.insert("a:b/c@2").unwrap();
    assert_eq!(map.get("a:b/c@1.0.0", &pool), Some(&1));
    assert_eq!(map.get("a:b/c@2.0.0", &pool), None);
    *map.get_or_insert_with("a:b/c@1.3.0", &mut pool, false, |_| true, || 0).unwrap() = 5;
    assert_eq!(map.get("a:b/c@1.0.1", &pool), Some(&5));
    assert_eq!(map.raw_iter().len(), 1);
    assert_eq!(*map.raw_iter()[0].0, pool.get_atom("a:b/c@1.3.0").unwrap());
}

#[test]
fn lookup_does_not_depend_on_the_order_of_insertion() {
    let names = ["a:b/m@1.0.3", "a:b/m@1.0.0", "a:b/m@1.0.1"];
    for order in [[0, 1, 2], [0, 2, 1], [1, 0, 2], [1, 2, 0], [2, 0, 1], [2, 1, 0]] {
        let mut map = NameMap::default();
        for i in order {
            map.insert(names[i], &mut NameMapNoIntern, false, i).unwrap();
        }
        for missing in ["a:b/m@1.0.2", "a:b/m@1.0.4", "a:b/m@1", "a:b/m@1.7.0"] {
            assert_eq!(map.get(missing, &NameMapNoIntern), Some(&0), "{missing}");
        }
        for i in order {
            assert_eq!(map.get(names[i], &NameMapNoIntern), Some(&i));
        }
        assert_eq!(map.get("a:b/m@1.0", &NameMapNoIntern), None);
    }
}

#[test]
fn old_and_new_versions_stand_for_each_other() {
    let mut map = NameMap::default();
    map.insert("a:b/m@1.0.0", &mut NameMapNoIntern, false, 'm').unwrap();
    map.insert("a:b/i@1.0.1", &mut NameMapNoIntern, false, 'i').unwrap();
    assert_eq!(map.get("a:b/m@1.0.1", &NameMapNoIntern), Some(&'m'));
    assert_eq!(map.get("a:b/i@1.0.0", &NameMapNoIntern), Some(&'i'));
}

#[test]
fn insertion_leaves_the_rest() {
    let mut map = NameMap::default();
    for (i, name) in ["x", "a:b/c@1.0.0", "a:b/d@1.0.0"].iter().enumerate() {
        map.insert(name, &mut NameMapNoIntern, false, i).unwrap();
    }
    map.insert("a:b/c@1.0.5", &mut NameMapNoIntern, false, 7).unwrap();
    assert_eq!(keys(&map), ["x", "a:b/c@1.0.0", "a:b/d@1.0.0", "a:b/c@1.0.5"]);
    assert_eq!(map.get("x", &NameMapNoIntern), Some(&0));
    assert_eq!(map.get("a:b/c@1.0.0", &NameMapNoIntern), Some(&1));
    assert_eq!(map.get("a:b/d@1.2.0", &NameMapNoIntern), Some(&2));
    assert_eq!(map.get("a:b/c@1", &NameMapNoIntern), Some(&7));
}

#[test]
fn shadowing_replaces_in_place() {
    let mut map = NameMap::default();
    map.insert("a", &mut NameMapNoIntern, false, 1).unwrap();
    map.insert("b", &mut NameMapNoIntern, false, 2).unwrap();
    let err = map.insert("a", &mut NameMapNoIntern, false, 3).unwrap_err();
    assert!(matches!(&err, NameMapError::DefinedTwice { name } if name == "a"));
    assert_eq!(err.to_string(), "map entry `a` defined twice");
    assert_eq!(map.get("a", &NameMapNoIntern), Some(&1));
    assert_eq!(map.insert("a", &mut NameMapNoIntern, true, 3).unwrap(), "a");
    assert_eq!(map.get("a", &NameMapNoIntern), Some(&3));
    assert_eq!(keys(&map), ["a", "b"]);
}

#[test]
fn refused_names_leave_the_map() {
    let mut pool = StringPool::new();
    let mut map: NameMap<Atom, u32> = NameMap::default();
    let err = map.insert("a:b/c@1.2", &mut pool, true, 1).unwrap_err();
    assert!(matches!(err, NameMapError::InvalidVersion { .. }));
    let err = map.insert("a_b", &mut pool, true, 1).unwrap_err();
    assert!(matches!(err, NameMapError::InvalidName { .. }));
    let err = map
        .get_or_insert_with("a_b", &mut pool, true, |_| true, || 1)
        .unwrap_err();
    assert!(matches!(err, NameMapError::InvalidName { .. }));
    assert!(map.raw_iter().is_empty());
    assert!(pool.get_atom("a_b").is_none());
    assert!(pool.get_atom("a:b/c@1.2").is_none());
}

#[test]
fn names_that_are_not_validated() {
    let mut map = NameMap::default();
    map.insert_unvalidated("not a name@1.0.0", &mut NameMapNoIntern, false, 1).unwrap();
    assert_eq!(map.get("not a name@1", &NameMapNoIntern), Some(&1));
    let v = map
        .get_or_insert_unvalidated("not a name@1.1.0", &mut NameMapNoIntern, false, |_| true, || 9)
        .unwrap();
    assert_eq!(*v, 1);
    assert_eq!(keys(&map), ["not a name@1.1.0"]);
}

#[test]
fn the_highest_stays_on_the_track() {
    let mut map = NameMap::default();
    map.insert("a:b/c@0.2.3", &mut NameMapNoIntern, false, 1).unwrap();
    map.insert("a:b/c@0.2.1", &mut NameMapNoIntern, false, 2).unwrap();
    map.insert("a:b/c@0.2", &mut NameMapNoIntern, false, 3).unwrap();
    map.insert("a:b/d@0.2.1", &mut NameMapNoIntern, false, 4).unwrap();
    assert_eq!(
        tracks(&map),
        [("a:b/c@0.2", "a:b/c@0.2.3", 3), ("a:b/d@0.2", "a:b/d@0.2.1", 1)]
    );
    map.get_or_insert_with("a:b/c@0.2.9", &mut NameMapNoIntern, false, |_| true, || 0).unwrap();
    assert_eq!(keys(&map), ["a:b/c@0.2.9", "a:b/c@0.2.1", "a:b/c@0.2", "a:b/d@0.2.1"]);
    assert_eq!(
        tracks(&map),
        [("a:b/c@0.2", "a:b/c@0.2.9", 9), ("a:b/d@0.2", "a:b/d@0.2.1", 1)]
    );
}

#[test]
fn what_is_merged_is_found_again() {
    let mut map = NameMap::default();
    map.insert("a:b/c@1.0.0", &mut NameMapNoIntern, false, 1).unwrap();
    for name in ["a:b/c@1.0.0", "a:b/c@1", "a:b/c@1.2.0", "a:b/c@1.1.0", "a:b/c@1.2.0+x"] {
        let v = map
            .get_or_insert_with(name, &mut NameMapNoIntern, false, |_| true, || 100)
            .unwrap();
        *v += 1;
        let now = *v;
        assert_eq!(map.get(name, &NameMapNoIntern), Some(&now));
        assert_eq!(map.get("a:b/c@1.0.0", &NameMapNoIntern), Some(&now));
    }
    assert_eq!(keys(&map), ["a:b/c@1.2.0+x"]);
}

#[test]
fn shadowing_what_cannot_be_merged() {
    let mut map = NameMap::default();
    map.insert("a:b/c@1.0.0", &mut NameMapNoIntern, false, 1).unwrap();
    let v = map
        .get_or_insert_with("a:b/c@1.0.0", &mut NameMapNoIntern, true, |_| false, || 2)
        .unwrap();
    assert_eq!(*v, 2);
    let err = map
        .get_or_insert_with("a:b/c@1.0.0", &mut NameMapNoIntern, false, |_| false, || 3)
        .unwrap_err();
    assert_eq!(err.to_string(), "map entry `a:b/c@1.0.0` defined twice");
    assert_eq!(map.get("a:b/c@1.0.0", &NameMapNoIntern), Some(&2));
}

#[test]
fn out_of_memory() {
    assert_eq!(NameMapError::OutOfMemory.to_string(), "out of memory");
}

#[test]
fn clones_hold_the_same() {
    let mut map: NameMap<String, String> = NameMap::default();
    map.insert("x", &mut NameMapNoIntern, false, "1".to_string()).unwrap();
    map.insert("a:b/c@1.0.2", &mut NameMapNoIntern, false, "2".to_string()).unwrap();
    let clone = map.try_clone().unwrap();
    assert_eq!(clone.raw_iter(), map.raw_iter());
    assert_eq!(tracks(&clone), tracks(&map));
    map.insert("y", &mut NameMapNoIntern, false, "3".to_string()).unwrap();
    assert_eq!(clone.get("y", &NameMapNoIntern), None);
    assert_eq!(clone.get("a:b/c@1", &NameMapNoIntern), Some(&"2".to_string()));
}

#[test]
fn clones_of_primitives() {
    let mut map: NameMap<String, u32> = NameMap::default();
    map.insert("x", &mut NameMapNoIntern, false, 7).unwrap();
    let clone = map.try_clone().unwrap();
    assert_eq!(clone.get("x", &NameMapNoIntern), Some(&7));
    assert_eq!(true.try_clone(), Ok(true));
    assert_eq!((250u8.try_clone(), (-3i8).try_clone()), (Ok(250), Ok(-3)));
    assert_eq!((65000u16.try_clone(), (-300i16).try_clone()), (Ok(65000), Ok(-300)));
    assert_eq!((-70000i32).try_clone(), Ok(-70000));
    assert_eq!((u64::MAX.try_clone(), i64::MIN.try_clone()), (Ok(u64::MAX), Ok(i64::MIN)));
    assert_eq!((u128::MAX.try_clone(), i128::MIN.try_clone()), (Ok(u128::MAX), Ok(i128::MIN)));
    assert_eq!((9usize.try_clone(), (-9isize).try_clone()), (Ok(9), Ok(-9)));
}

#[test]
fn merging_changes_no_lookup() {
    let mut map: NameMap<String, u32> = NameMap::default();
    for (i, name) in ["x", "a:b/c@1.0.0", "a:b/c@1.0.5", "a:b/c@2", "a:b/d@1.0.0"].iter().enumerate() {
        map.insert(name, &mut NameMapNoIntern, false, i as u32).unwrap();
    }
    let names = [
        "x", "y", "a:b/c@1", "a:b/c@1.0.0", "a:b/c@1.0.5", "a:b/c@1.0.9", "a:b/c@1.2.0", "a:b/c@2",
        "a:b/c@2.0.0", "a:b/c@3.0.0", "a:b/d@1", "a:b/d@1.9.0", "a:b/d@1.0.0-pre",
    ];
    let found = |map: &NameMap<String, u32>| -> Vec<Option<u32>> {
        names.iter().map(|n| map.get(n, &NameMapNoIntern).copied()).collect()
    };
    let before = found(&map);
    for name in ["a:b/c@2", "a:b/c@1", "a:b/c@1.2.0", "a:b/d@1.9.0", "a:b/c@2.0.0+b"] {
        map.get_or_insert_with(name, &mut NameMapNoIntern, false, |_| true, || 9).unwrap();
        assert_eq!(found(&map), before, "{name}");
    }
    assert_eq!(keys(&map), ["x", "a:b/c@1.0.0", "a:b/c@1.2.0", "a:b/c@2.0.0+b", "a:b/d@1.9.0"]);
}

#[test]
fn a_defined_canonical_name_stays() {
    let mut pool = StringPool::new();
    let mut map: NameMap<Atom, u32> = NameMap::default();
    let key = map.insert("a:b/c@1", &mut pool, false, 0).unwrap();
    *map.get_or_insert_with("a:b/c@1", &mut pool, false, |_| true, || 9).unwrap() += 1;
    assert_eq!(map.raw_iter(), [(&key, &1)]);
    assert_eq!(map.get("a:b/c@1", &pool), Some(&1));
}

#[test]
fn insertion_order_matters_for_equal_versions_only() {
    let get = |first: &str, second: &str, name: &str| {
        let mut map: NameMap<String, String> = NameMap::default();
        map.insert("a:b/c@1.0.1", &mut NameMapNoIntern, false, "c".to_string()).unwrap();
        map.insert(first, &mut NameMapNoIntern, false, first.to_string()).unwrap();
        map.insert(second, &mut NameMapNoIntern, false, second.to_string()).unwrap();
        map.get(name, &NameMapNoIntern).cloned()
    };
    for (a, b) in [("a:b/c@1.0.0", "a:b/c@1.0.2"), ("a:b/c@1.0.2", "a:b/d@1.0.2"), ("a", "a:b/c@1")] {
        for name in [a, b, "a:b/c@1", "a:b/c@1.7.0", "a:b/d@1"] {
            assert_eq!(get(a, b, name), get(b, a, name), "{a} {b} {name}");
        }
    }
    let (a, b) = ("a:b/e@1", "a:b/e@1.0.0");
    assert_eq!(get(a, b, "a:b/e@1.1.0"), Some(b.to_string()));
    assert_eq!(get(b, a, "a:b/e@1.1.0"), Some(a.to_string()));
}

#[test]
fn closures_are_not_called_for_invalid_names() {
    let mut map: NameMap<String, u32> = NameMap::default();
    let r = map.get_or_insert_with("a_b", &mut NameMapNoIntern, false, |_| panic!(), || panic!());
    assert!(matches!(r, Err(NameMapError::InvalidName { .. })));
}

#[test]
fn parts_make_the_map() {
    let mut map: NameMap<String, u32> = NameMap::default();
    map.insert("a:b/c@1.0.2", &mut NameMapNoIntern, false, 1).unwrap();
    map.insert("x", &mut NameMapNoIntern, false, 2).unwrap();
    map.insert("a:b/c@1.0.1", &mut NameMapNoIntern, false, 3).unwrap();
    let definitions: Vec<(String, u32)> =
        map.raw_iter().into_iter().map(|(k, v)| (k.clone(), *v)).collect();
    let alternates: Vec<(String, (String, Version))> = map
        .raw_alternates()
        .into_iter()
        .map(|(k, (key, v))| (k.clone(), (key.clone(), v.try_clone().unwrap())))
        .collect();
    let again = NameMap::from_parts(definitions, alternates);
    assert_eq!(again.raw_iter(), map.raw_iter());
    assert_eq!(tracks(&again), tracks(&map));
    assert_eq!(again.get("a:b/c@1.5.0", &NameMapNoIntern), Some(&1));
}
