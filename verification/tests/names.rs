use component_names::intern::NameMapNoIntern;
use component_names::name_map::NameMap;

#[test]
fn alternate_lookup_key() {
    fn alt(s: &str) -> Option<&str> {
        component_names::naming::alternate_lookup_key(s).map(|(s, _)| s)
    }

    assert_eq!(alt("x"), None);
    assert_eq!(alt("x:y/z"), None);
    assert_eq!(alt("x:y/z@1.0.0"), Some("x:y/z@1"));
    assert_eq!(alt("x:y/z@1.1.0"), Some("x:y/z@1"));
    assert_eq!(alt("x:y/z@1.1.2"), Some("x:y/z@1"));
    assert_eq!(alt("x:y/z@2.1.2"), Some("x:y/z@2"));
    assert_eq!(alt("x:y/z@2.1.2+abc"), Some("x:y/z@2"));
    assert_eq!(alt("x:y/z@0.1.2"), Some("x:y/z@0.1"));
    assert_eq!(alt("x:y/z@0.1.3"), Some("x:y/z@0.1"));
    assert_eq!(alt("x:y/z@0.2.3"), Some("x:y/z@0.2"));
    assert_eq!(alt("x:y/z@0.2.3+abc"), Some("x:y/z@0.2"));
    assert_eq!(alt("x:y/z@0.0.1"), Some("x:y/z@0.0.1"));
    assert_eq!(alt("x:y/z@0.0.1+abc"), Some("x:y/z@0.0.1"));
    assert_eq!(alt("x:y/z@0.0.1-pre"), Some("x:y/z@0.0.1-pre"));
    assert_eq!(alt("x:y/z@0.1.0-pre"), Some("x:y/z@0.1.0-pre"));
    assert_eq!(alt("x:y/z@1.0.0-pre+abc"), Some("x:y/z@1.0.0-pre"));
    assert_eq!(alt("x:y/z@1"), None);
    assert_eq!(alt("x:y/z@1.2"), None);
}

#[test]
fn name_map_smoke() {
    let mut map = NameMap::default();
    let mut intern = NameMapNoIntern;

    map.insert("a", &mut intern, false, 0).unwrap();
    map.insert("b", &mut intern, false, 1).unwrap();

    assert!(map.insert("a", &mut intern, false, 0).is_err());
    assert!(map.insert("a", &mut intern, true, 0).is_ok());

    assert_eq!(map.get("a", &intern), Some(&0));
    assert_eq!(map.get("b", &intern), Some(&1));
    assert_eq!(map.get("c", &intern), None);

    map.insert("a:b/c@1.0.0", &mut intern, false, 2).unwrap();
    map.insert("a:b/c@1.0.1", &mut intern, false, 3).unwrap();
    assert_eq!(map.get("a:b/c@1.0.0", &intern), Some(&2));
    assert_eq!(map.get("a:b/c@1.0.1", &intern), Some(&3));
    assert_eq!(map.get("a:b/c@1.0.2", &intern), Some(&3));
    assert_eq!(map.get("a:b/c@1.1.0", &intern), Some(&3));
}

#[test]
fn canonical_name() {
    let canonical_name = component_names::naming::canonical_name;

    assert_eq!(canonical_name("x"), "x");
    assert_eq!(canonical_name("x:y/z"), "x:y/z");
    assert_eq!(canonical_name("x:y/z@1.1.2"), "x:y/z@1");
    assert_eq!(canonical_name("x:y/z@1"), "x:y/z@1");
    assert_eq!(canonical_name("x:y/z@0.2.3+abc"), "x:y/z@0.2");
    assert_eq!(canonical_name("x:y/z@0.2"), "x:y/z@0.2");
    assert_eq!(canonical_name("x:y/z@0.0.1"), "x:y/z@0.0.1");
    assert_eq!(canonical_name("x:y/z@1.0.0-pre"), "x:y/z@1.0.0-pre");
}

#[test]
fn name_map_canonical_lookup() {
    let mut map = NameMap::default();
    let mut intern = NameMapNoIntern;

    map.insert("a:b/c@1.0.0", &mut intern, false, 0).unwrap();
    map.insert("a:b/c@1.0.1", &mut intern, false, 1).unwrap();
    map.insert("a:b/d@0.2.0", &mut intern, false, 2).unwrap();
    map.insert("a:b/e@0.0.1", &mut intern, false, 3).unwrap();

    // Canonical names resolve to the maximal version on their track.
    assert_eq!(map.get("a:b/c@1", &intern), Some(&1));
    assert_eq!(map.get("a:b/d@0.2", &intern), Some(&2));

    // Full versions still prefer an exact match.
    assert_eq!(map.get("a:b/c@1.0.0", &intern), Some(&0));
    assert_eq!(map.get("a:b/c@1.0.1", &intern), Some(&1));
    assert_eq!(map.get("a:b/c@1.0.2", &intern), Some(&1));

    // Other tracks don't match.
    assert_eq!(map.get("a:b/c@2", &intern), None);
    assert_eq!(map.get("a:b/d@0.3", &intern), None);
    assert_eq!(map.get("a:b/e@0.0.1", &intern), Some(&3));
    assert_eq!(map.get("a:b/e@0.0.2", &intern), None);

    // Versions that differ only in build metadata are on the same track.
    map.insert("a:b/f@0.0.1+b", &mut intern, false, 4).unwrap();
    map.insert("a:b/f@0.0.1+a", &mut intern, false, 5).unwrap();
    assert_eq!(map.get("a:b/f@0.0.1+a", &intern), Some(&5));
    assert_eq!(map.get("a:b/f@0.0.1+b", &intern), Some(&4));
    assert_eq!(map.get("a:b/f@0.0.1+c", &intern), Some(&4));
    assert_eq!(map.get("a:b/f@0.0.1", &intern), Some(&4));
    assert_eq!(map.get("a:b/f@0.0.2", &intern), None);
}

#[test]
fn name_map_insert_canonical() {
    let mut map = NameMap::default();
    let mut intern = NameMapNoIntern;

    // Canonical names are on their own track as the lowest version.
    map.insert("a:b/c@1", &mut intern, false, 0).unwrap();
    map.insert("a:b/d@0.2", &mut intern, false, 1).unwrap();
    assert_eq!(map.get("a:b/c@1", &intern), Some(&0));
    assert_eq!(map.get("a:b/c@1.2.3", &intern), Some(&0));
    assert_eq!(map.get("a:b/d@0.2", &intern), Some(&1));
    assert_eq!(map.get("a:b/d@0.2.1", &intern), Some(&1));

    // Higher full versions take over the track, even for lookups of the
    // canonical name itself.
    map.insert("a:b/c@1.0.1", &mut intern, false, 2).unwrap();
    assert_eq!(map.get("a:b/c@1", &intern), Some(&2));
    assert_eq!(map.get("a:b/c@1.0.0", &intern), Some(&2));
    assert_eq!(map.get("a:b/c@1.2.3", &intern), Some(&2));

    // Invalid names and versions are rejected.
    for name in [
        "",
        "aB",
        "foo_bar",
        "a:b",
        "a:b/c@",
        "a:b/c@0",
        "a:b/c@0.0",
        "a:b/c@01",
        "a:b/c@0.02",
        "a:b/c@1.2",
        "a:b/c@1.x",
    ] {
        let err = map.insert(name, &mut intern, false, 3).unwrap_err();
        let text = err.to_string();
        assert!(text.contains(&format!("`{name}`")), "{text}");
        assert_eq!(map.get(name, &intern), None);
    }

    // Other kinds of names are accepted.
    for name in [
        "[constructor]a",
        "[method]a.b",
        "[static]a.b",
        "a:b/c@0.0.1",
        "a:b/c@1.0.0-pre",
        "locked-dep=<a:b/c@1.2.3>",
        "unlocked-dep=<a:b/c@{>=1.2.3}>",
        "url=<https://user@host/x>",
    ] {
        map.insert(name, &mut intern, false, 3).unwrap();
        assert_eq!(map.get(name, &intern), Some(&3));
    }
}

#[test]
fn name_map_get_or_insert_with() {
    let mut map = NameMap::default();
    let mut intern = NameMapNoIntern;

    // Values of at least 10 are mergeable, and merging adds one.
    fn get_or_insert(map: &mut NameMap<String, u32>, name: &str, default: u32) -> u32 {
        let v = map
            .get_or_insert_with(name, &mut NameMapNoIntern, false, |v| *v >= 10, || default)
            .unwrap();
        if *v >= 10 {
            *v += 1;
        }
        *v
    }
    fn keys(map: &NameMap<String, u32>) -> Vec<&str> {
        map.raw_iter().into_iter().map(|(k, _)| &**k).collect()
    }

    assert_eq!(get_or_insert(&mut map, "a:b/c@0.2.1", 10), 11);
    assert_eq!(keys(&map), ["a:b/c@0.2.1"]);

    // Exact, lower, and canonical names reopen the definition as-is.
    assert_eq!(get_or_insert(&mut map, "a:b/c@0.2.1", 0), 12);
    assert_eq!(get_or_insert(&mut map, "a:b/c@0.2.0", 0), 13);
    assert_eq!(get_or_insert(&mut map, "a:b/c@0.2", 0), 14);
    assert_eq!(keys(&map), ["a:b/c@0.2.1"]);

    // A higher version re-keys the definition.
    assert_eq!(get_or_insert(&mut map, "a:b/c@0.2.3", 0), 15);
    assert_eq!(keys(&map), ["a:b/c@0.2.3"]);
    assert_eq!(map.get("a:b/c@0.2", &intern), Some(&15));
    assert_eq!(map.get("a:b/c@0.2.1", &intern), Some(&15));
    assert_eq!(map.get("a:b/c@0.2.3", &intern), Some(&15));

    // Other tracks get their own definition.
    assert_eq!(get_or_insert(&mut map, "a:b/c@0.3.0", 20), 21);
    assert_eq!(get_or_insert(&mut map, "a:b/c@1", 30), 31);
    assert_eq!(get_or_insert(&mut map, "a:b/c@1.0.1", 0), 32);
    assert_eq!(keys(&map), ["a:b/c@0.2.3", "a:b/c@0.3.0", "a:b/c@1.0.1"]);

    // Definitions that can't be merged coexist with each other, except
    // for exact duplicates.
    map.insert("a:b/d@1.0.0", &mut intern, false, 0).unwrap();
    assert_eq!(get_or_insert(&mut map, "a:b/d@1.0.1", 1), 1);
    assert_eq!(keys(&map)[3..], ["a:b/d@1.0.0", "a:b/d@1.0.1"]);
    assert_eq!(map.get("a:b/d@1.0.0", &intern), Some(&0));
    assert_eq!(map.get("a:b/d@1", &intern), Some(&1));
    assert!(
        map.get_or_insert_with("a:b/d@1.0.0", &mut intern, false, |_| false, || 2)
            .is_err()
    );
}
