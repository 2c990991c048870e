use artifact::expand::expand_names;
use artifact::family::{auto_partofs, strip_auto_partofs, Names};
use artifact::name::Name;

fn name(raw: &str) -> Name {
    Name::from_str(raw).unwrap()
}

fn names(raw: &[&str]) -> Names {
    let mut out = Names::new();
    for r in raw {
        out.insert(name(r));
    }
    out
}

/// The keys of the names, sorted: names compared as a set.
fn key_set(n: &Names) -> Vec<String> {
    let mut keys: Vec<String> = n.0.iter().map(|x| x.key_str().to_string()).collect();
    keys.sort();
    keys
}

#[test]
fn sanity_parent() {
    let values: &[(&str, Option<&str>)] = &[
        // no parents
        ("REQ-foo", None),
        ("TST-a", None),
        ("TST-23kjskljef32", None),
        // has parents
        ("REQ-a-b", Some("REQ-a")),
        ("REQ-A-B", Some("REQ-A")),
        ("REQ-aasdf-bbSdf-DES", Some("REQ-aasdf-bbSdf")),
    ];
    for (raw, expected) in values {
        let result = name(raw).parent();
        match (result, expected) {
            (None, None) => {}
            (Some(r), Some(e)) => assert!(r == name(e), "{}: {:?}", raw, r),
            (r, e) => panic!("{}: got {:?}, expected {:?}", raw, r, e),
        }
    }
}

#[test]
fn sanity_auto_partof() {
    let values: &[(&str, Option<&str>)] = &[
        ("REQ-foo", None),
        ("REQ-a-b", None),
        ("REQ-A-B", None),
        ("spc-aasdf-bbSdf-DES", Some("REQ-aasdf-bbSdf-DES")),
        ("TSt-a", Some("SPC-a")),
        ("TST-23kjskljef32", Some("SPC-23kjskljef32")),
    ];
    for (raw, expected) in values {
        let result = name(raw).auto_partof();
        match (result, expected) {
            (None, None) => {}
            (Some(r), Some(e)) => assert!(r == name(e), "{}: {:?}", raw, r),
            (r, e) => panic!("{}: got {:?}, expected {:?}", raw, r, e),
        }
    }
}

#[test]
fn sanity_collapse_name_invalid() {
    let values = &[
        "REQ",                       // invalid name
        "REQ-foo-[bar-, baz]",       // extra `-`
        "REQ-[foo, [bar]]",          // `[` can't appear by itself
        "SPC-foo[bar",               // no closing brace
        "SPC-foo]",                  // no opening brace
        "SPC-[foo]]",                // no opening brace
        "SPC-foo-[bar, [baz, bom]]", // brackets not after `-`
    ];
    let errors: Vec<&&str> = values.iter().filter(|r| expand_names(r).is_ok()).collect();
    assert!(errors.is_empty(), "some collapsed names were valid: {:?}", errors);
}

#[test]
fn sanity_auto_partofs() {
    let file = "/fake".to_string();
    let raw = ["REQ-foo", "REQ-foo-bar", "SPC-foo", "TST-foo", "TST-foo-bar", "SPC-a-b", "TST-a-b"];
    let input: Vec<(Name, String)> = raw.iter().map(|r| (name(r), file.clone())).collect();
    let expected: Vec<(&str, Vec<&str>)> = vec![
        ("REQ-foo", vec![]),
        ("REQ-foo-bar", vec!["REQ-foo"]),
        ("SPC-foo", vec!["REQ-foo"]),
        ("TST-foo", vec!["SPC-foo"]),
        // contains no auto -- it doesn't exist
        ("TST-foo-bar", vec!["TST-foo"]),
        ("SPC-a-b", vec![]),
        ("TST-a-b", vec!["SPC-a-b"]),
    ];
    let auto = auto_partofs(&input);
    assert_eq!(auto.len(), expected.len());
    for ((n, ps), (en, eps)) in auto.iter().zip(expected.iter()) {
        assert!(*n == name(en));
        assert_eq!(key_set(ps), key_set(&names(eps)), "partofs of {}", en);
    }
}

#[test]
fn sanity_strip_auto_partofs() {
    let mut result = names(&["REQ-bar", "REQ-foo", "REQ-foo-bar", "SPC-bar", "SPC-foo"]);
    let expected = names(&["REQ-bar", "REQ-foo", "SPC-bar"]);
    strip_auto_partofs(&name("SPC-foo-bar"), &mut result);
    assert_eq!(key_set(&expected), key_set(&result));
}

#[test]
fn names_insert_remove_contains() {
    let mut n = Names::new();
    assert!(n.insert(name("REQ-a")));
    assert!(!n.insert(name("req-A")));
    assert!(n.insert(name("SPC-b")));
    assert_eq!(n.len(), 2);
    assert!(n.contains(&name("REQ-A")));
    n.remove(&name("REQ-a"));
    assert!(!n.contains(&name("REQ-a")));
    assert_eq!(n.len(), 1);
}

#[test]
fn names_sort_orders_by_key() {
    let mut n = names(&["TST-b", "req-z", "REQ-a", "SPC-c"]);
    n.sort();
    let raws: Vec<&str> = n.0.iter().map(|x| x.as_str()).collect();
    assert_eq!(raws, vec!["REQ-a", "req-z", "SPC-c", "TST-b"]);
}

#[test]
fn names_extend_skips_duplicates() {
    let mut a = names(&["REQ-a", "REQ-b"]);
    let b = names(&["req-B", "SPC-c"]);
    a.extend_names(&b);
    let raws: Vec<&str> = a.0.iter().map(|x| x.as_str()).collect();
    assert_eq!(raws, vec!["REQ-a", "REQ-b", "SPC-c"]);
}

#[test]
fn expand_names_valid() {
    let n = expand_names("REQ-[zay, bar-[baz, bom], foo]").unwrap();
    assert_eq!(
        key_set(&n),
        key_set(&names(&["REQ-foo", "REQ-bar-baz", "REQ-bar-bom", "REQ-zay"]))
    );
    let n = expand_names("SPC-[foo, foo-bob, bar], REQ-baz, SPC-foo-baz").unwrap();
    assert_eq!(
        key_set(&n),
        key_set(&names(&["REQ-baz", "SPC-bar", "SPC-foo", "SPC-foo-baz", "SPC-foo-bob"]))
    );
    assert_eq!(expand_names("").unwrap().len(), 0);
}
