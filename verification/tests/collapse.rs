use artifact::collapse::collapse_names;
use artifact::expand::expand_names;

fn key_set(raw: &[&str]) -> Vec<String> {
    let mut keys: Vec<String> = raw.iter().map(|r| r.to_uppercase()).collect();
    keys.sort();
    keys
}

/// (raw, expected_collapsed, expected): expanding gives the expected names
/// and collapsing them again gives the collapsed form (the raw one when
/// none is given).
fn assert_collapsed_valid(values: &[(&str, Option<&str>, Vec<&str>)]) {
    for (raw, expect_col, expect) in values {
        let result = expand_names(raw).unwrap_or_else(|_| panic!("invalid raw: {}", raw));
        let mut keys: Vec<String> = result.0.iter().map(|n| n.key_str().to_string()).collect();
        keys.sort();
        assert_eq!(keys, key_set(expect), "{} different from expected", raw);
        let collapsed = collapse_names(&result);
        let expect_col = match expect_col {
            Some(e) => e,
            None => raw,
        };
        assert_eq!(&collapsed, expect_col, "collapsed differ");
    }
}

#[test]
fn sanity_collapse_name() {
    let values = &[
        ("REQ-foo", None, vec!["REQ-foo"]),
        ("REQ-[bar, foo]", None, vec!["REQ-foo", "REQ-bar"]),
        (
            "REQ-[zay, bar-[baz, bom], foo]",
            Some("REQ-[bar-[baz, bom], foo, zay]"),
            vec!["REQ-foo", "REQ-bar-baz", "REQ-bar-bom", "REQ-zay"],
        ),
        (
            "SPC-[foo, foo-bob, bar], REQ-baz, SPC-foo-baz",
            Some("REQ-baz, SPC-[bar, foo, foo-[baz, bob]]"),
            vec!["REQ-baz", "SPC-bar", "SPC-foo", "SPC-foo-baz", "SPC-foo-bob"],
        ),
    ];
    assert_collapsed_valid(values);
}

#[test]
fn collapse_empty_and_deep() {
    let none = expand_names("").unwrap();
    assert_eq!(collapse_names(&none), "");
    let deep = expand_names("TST-a-b-c-d").unwrap();
    assert_eq!(collapse_names(&deep), "TST-a-b-c-d");
    let mixed = expand_names("REQ-a-b-c, REQ-a-b-d, REQ-a").unwrap();
    assert_eq!(collapse_names(&mixed), "REQ-[a, a-b-[c, d]]");
}

#[test]
fn collapse_then_expand_gives_the_names_back() {
    for raw in ["REQ-[bar, foo]", "SPC-[a-[b, c], d], TST-x", "REQ-one"] {
        let names = expand_names(raw).unwrap();
        let again = expand_names(&collapse_names(&names)).unwrap();
        let mut a: Vec<&str> = names.0.iter().map(|n| n.key_str()).collect();
        let mut b: Vec<&str> = again.0.iter().map(|n| n.key_str()).collect();
        a.sort();
        b.sort();
        assert_eq!(a, b);
    }
}
