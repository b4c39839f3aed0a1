use component_names::naming::{alternate_lookup_key, semver_track, validate_name, validate_parsed_name, ParsedName};
use component_names::version::{pad_canonical_version, Version};

fn version(s: &str) -> Version {
    Version::parse(s).unwrap()
}

fn parts(v: &Version) -> (u64, u64, u64, &str, &str) {
    (v.major(), v.minor(), v.patch(), v.pre(), v.build())
}

#[test]
fn version_parts() {
    assert_eq!(parts(&version("1.2.3")), (1, 2, 3, "", ""));
    assert_eq!(parts(&version("0.20.300-rc.1+a.01")), (0, 20, 300, "rc.1", "a.01"));
    assert_eq!(parts(&version("1.0.0-x-y")), (1, 0, 0, "x-y", ""));
    assert_eq!(parts(&version("1.0.0+x-y")), (1, 0, 0, "", "x-y"));
    assert_eq!(
        parts(&version("18446744073709551615.0.0")),
        (u64::MAX, 0, 0, "", "")
    );
}

#[test]
fn not_a_version() {
    for s in [
        "",
        "1",
        "1.2",
        "1.2.",
        "1.2.3.4",
        "01.2.3",
        "1.02.3",
        "1.2.03",
        "1.2.3-",
        "1.2.3+",
        "1.2.3-01",
        "1.2.3-a..b",
        "1.2.3-a_b",
        " 1.2.3",
        "v1.2.3",
        "1.2.3-\u{e9}",
        "18446744073709551616.0.0",
    ] {
        assert!(Version::parse(s).is_none(), "{s}");
    }
}

#[test]
fn versions_in_order() {
    let sorted = [
        "0.0.1",
        "0.1.0",
        "0.1.10",
        "0.2.0",
        "1.0.0-0",
        "1.0.0-8",
        "1.0.0-12",
        "1.0.0-12.a",
        "1.0.0-B",
        "1.0.0-a",
        "1.0.0-a.9",
        "1.0.0-a.10",
        "1.0.0-a.10.0",
        "1.0.0-a.b",
        "1.0.0-ab",
        "1.0.0-b",
        "1.0.0-pre12",
        "1.0.0-pre8",
        "1.0.0",
        "1.0.0+0",
        "1.0.0+00",
        "1.0.0+1",
        "1.0.0+01",
        "1.0.0+10",
        "1.0.0+a",
        "1.0.0+a.1",
        "1.0.0+b",
        "1.0.1",
        "2.0.0",
        "10.0.0",
    ];
    for (i, a) in sorted.iter().enumerate() {
        for (j, b) in sorted.iter().enumerate() {
            assert_eq!(version(a).lt(&version(b)), i < j, "{a} {b}");
        }
    }
}

#[test]
fn padded_versions() {
    fn pad(s: &str) -> Option<(u64, u64, u64, String)> {
        pad_canonical_version(s).map(|v| (v.major(), v.minor(), v.patch(), v.pre().to_string()))
    }
    assert_eq!(pad("1"), Some((1, 0, 0, String::new())));
    assert_eq!(pad("12"), Some((12, 0, 0, String::new())));
    assert_eq!(pad("0.2"), Some((0, 2, 0, String::new())));
    assert_eq!(pad("0.0.3"), Some((0, 0, 3, String::new())));
    assert_eq!(pad("1.2.3-rc"), Some((1, 2, 3, "rc".to_string())));
    for s in ["", "0", "0.0", "1.0", "1.2.3", "0.1.2", "01", "0.02", "0.0.1+a", "x", "18446744073709551616"] {
        assert_eq!(pad(s), None, "{s}");
    }
}

#[test]
fn tracks() {
    fn track(s: &str) -> Option<(&str, (u64, u64, u64))> {
        semver_track(s).map(|(t, v)| (t, (v.major(), v.minor(), v.patch())))
    }
    assert_eq!(track("x"), None);
    assert_eq!(track("x:y/z@1.2"), None);
    assert_eq!(track("x:y/z@1.2.3+b"), Some(("x:y/z@1", (1, 2, 3))));
    assert_eq!(track("x:y/z@1"), Some(("x:y/z@1", (1, 0, 0))));
    assert_eq!(track("x:y/z@0.2"), Some(("x:y/z@0.2", (0, 2, 0))));
    assert_eq!(track("x:y/z@0.0.3"), Some(("x:y/z@0.0.3", (0, 0, 3))));
    // Only what stands after the first `@` counts.
    assert_eq!(track("x@y@1.0.0"), None);
    // Characters of more than one byte before the `@` do no harm.
    assert_eq!(track("\u{e9}\u{4e2d}@1.0.0"), Some(("\u{e9}\u{4e2d}@1", (1, 0, 0))));
}

#[test]
fn alternate_lookup_key_gives_the_version() {
    let (key, v) = alternate_lookup_key("x:y/z@0.2.3-rc.1+abc").unwrap();
    assert_eq!(key, "x:y/z@0.2.3-rc.1");
    assert_eq!(parts(&v), (0, 2, 3, "rc.1", "abc"));
    // The version has to fit, though its canonical form does.
    assert!(alternate_lookup_key("x:y/z@1.18446744073709551616.0").is_none());
    assert!(alternate_lookup_key("x:y/z@1.0.0-01").is_none());
}

#[test]
fn a_track_is_on_itself_as_its_lowest_version() {
    for name in ["x:y/z@1.2.3", "x:y/z@0.2.3", "x:y/z@0.0.3+a", "x:y/z@1.0.0-pre+a", "x:y/z@2"] {
        let (track, v) = semver_track(name).unwrap();
        let (again, lowest) = semver_track(track).unwrap();
        assert_eq!(track, again);
        assert!(!v.lt(&lowest), "{name}");
        assert_eq!(component_names::naming::canonical_name(track), track);
        assert_eq!(component_names::naming::canonical_name(name), track);
    }
}

#[test]
fn same_track_means_compatible() {
    let track = |s| component_names::naming::canonical_name(s);
    assert_eq!(track("a:b/c@1.2.3"), track("a:b/c@1.9.0+x"));
    assert_eq!(track("a:b/c@0.2.3"), track("a:b/c@0.2.0"));
    assert_ne!(track("a:b/c@0.2.3"), track("a:b/c@0.3.3"));
    assert_ne!(track("a:b/c@0.0.3"), track("a:b/c@0.0.4"));
    assert_ne!(track("a:b/c@1.2.3-a"), track("a:b/c@1.2.3"));
    assert_ne!(track("a:b/c@1.2.3-a"), track("a:b/c@1.2.3-b"));
    assert_ne!(track("a:b/c@1.2.3"), track("a:b/d@1.2.3"));
}

#[test]
fn valid_and_invalid_names() {
    for name in ["a", "a-b", "a:b/c", "a:b/c@1.2.3", "a:b/c@1", "a:b/c@0.2", "a:b/c@1.2.3-x+y"] {
        assert!(validate_name(name).is_ok(), "{name}");
    }
    let text = |name: &str| validate_name(name).unwrap_err().to_string();
    assert_eq!(
        text("a:b/c@1.2"),
        "invalid name `a:b/c@1.2`: version is neither a full nor canonical version"
    );
    assert!(text("a_b").starts_with("invalid name `a_b`: "));
    assert!(text("").starts_with("invalid name ``: "));
    assert!(text("a_b").len() > "invalid name `a_b`: ".len());
}

#[test]
fn parsed_names() {
    let check = |name: &str, parsed| validate_parsed_name(name, parsed).map_err(|e| e.to_string());
    assert_eq!(check("x", Ok(ParsedName::Other)), Ok(()));
    assert_eq!(check("x@1.2", Ok(ParsedName::Other)), Ok(()));
    assert_eq!(
        check("x@1.2", Ok(ParsedName::Interface { version_error: false })),
        Ok(())
    );
    assert_eq!(
        check("x@1", Ok(ParsedName::Interface { version_error: true })),
        Ok(())
    );
    assert_eq!(
        check("x@1.2", Ok(ParsedName::Interface { version_error: true })),
        Err("invalid name `x@1.2`: version is neither a full nor canonical version".to_string())
    );
    assert_eq!(
        check("x", Err("no good".to_string())),
        Err("invalid name `x`: no good".to_string())
    );
}
