use artifact::artifact::CodeLoc;
use artifact::implemented::{join_locations, parse_locations, replace_links, try_parse_locations};
use artifact::lint::{Category, Level};
use artifact::name::{Name, SubName};

fn name(raw: &str) -> Name {
    Name::from_str(raw).unwrap()
}

fn subname(raw: &str) -> SubName {
    SubName::from_str(raw).unwrap()
}

fn loc(file: &str, line: u64) -> CodeLoc {
    CodeLoc::new(&file.to_string(), line)
}

fn same_loc(a: &CodeLoc, b: &CodeLoc) -> bool {
    a.file == b.file && a.line == b.line
}

#[test]
fn sanity_parse_locations() {
    let example = r#"
This is some kind of text file.
There are links to code like below
%SPC-example %tst-example %TsT-ExAmPle

Some are not on the beginning of the line: %SPC-right
Some have a period after them like %SPC-period.
Multi: %SPC-one %SPC-two%SPC-three
Repeat: %SPC-repeat %SPC-repeat
REQ is valid: %REQ-valid
Also not valid: %REQ-.foo
Also not valid: %SPC--.foo
Also not valid: %SPC
Also not valid: %TST

Some are legitamate subnames:
%SPC-sub.name

And to the right:
    %SPC-right.sub
"#;
    let file = "/fake/file.c".to_string();
    let expected: Vec<(u64, &str, Option<&str>)> = vec![
        (3, "SPC-example", None),
        (3, "TST-example", None),
        (3, "TST-example", None),
        (5, "SPC-right", None),
        (6, "SPC-period", None),
        (7, "SPC-one", None),
        (7, "SPC-two", None),
        (7, "SPC-three", None),
        (8, "SPC-repeat", None),
        (8, "SPC-repeat", None),
        (9, "REQ-valid", None),
        (16, "SPC-sub", Some(".name")),
        (19, "SPC-right", Some(".sub")),
    ];
    let text = replace_links(example);
    let locations = parse_locations(&file, &text);
    assert_eq!(locations.len(), expected.len());
    for ((l, n, s), (el, en, es)) in locations.iter().zip(expected.iter()) {
        assert!(same_loc(l, &loc("/fake/file.c", *el)), "{:?} != {}", l, el);
        assert!(*n == name(en), "{:?} != {}", n, en);
        match (s, es) {
            (None, None) => {}
            (Some(s), Some(es)) => assert!(*s == subname(es)),
            _ => panic!("subnames differ at line {}", el),
        }
    }
}

#[test]
fn parse_locations_non_ascii_type_is_refused() {
    // a name whose type prefix is not ASCII cannot be read
    assert!(try_parse_locations(&"/f".to_string(), "#ſpc-foo").is_none());
    let found = try_parse_locations(&"/f".to_string(), "#spc-foo").unwrap();
    assert_eq!(found.len(), 1);
}

#[test]
fn sanity_join_locations() {
    let file1 = "/fake/foo.py";
    let file2 = "/fake/bar.py";
    let file3 = "/fake/long/foo.py";

    let req_foo = name("req-foo");
    let spc_bar = name("spc-bar");
    let tst_baz = name("tst-baz");

    let sub_a = subname(".sub_a");
    let sub_b = subname(".sub_b");

    let locations = vec![
        // -- file1
        // 3 valid req-foo
        (loc(file1, 1), req_foo.clone(), None),
        (loc(file1, 2), req_foo.clone(), Some(sub_a.clone())),
        (loc(file1, 3), req_foo.clone(), Some(sub_b.clone())),
        // immediate duplicate spc_bar
        (loc(file1, 4), spc_bar.clone(), Some(sub_a.clone())),
        (loc(file1, 5), spc_bar.clone(), Some(sub_a.clone())),
        // --file2
        (loc(file2, 1), tst_baz.clone(), None),
        (loc(file2, 2), tst_baz.clone(), Some(sub_a.clone())),
        // --file3
        (loc(file3, 4), spc_bar.clone(), Some(sub_b.clone())),
        // additional duplicate spc_bar.a
        (loc(file3, 5), spc_bar.clone(), Some(sub_a.clone())),
        // single duplicate of tst_baz
        (loc(file3, 20), tst_baz.clone(), None),
    ];

    // name => (primary, [(sub, loc)])
    let expected: Vec<(&Name, Option<CodeLoc>, Vec<(&SubName, CodeLoc)>)> = vec![
        (&req_foo, Some(loc(file1, 1)), vec![(&sub_a, loc(file1, 2)), (&sub_b, loc(file1, 3))]),
        (&spc_bar, None, vec![(&sub_a, loc(file3, 5)), (&sub_b, loc(file3, 4))]),
        (&tst_baz, Some(loc(file3, 20)), vec![(&sub_a, loc(file2, 2))]),
    ];

    let (joined, lints) = join_locations(locations);

    // compared as maps: the order of the entries does not matter
    assert_eq!(joined.len(), expected.len());
    for (en, eprim, esec) in expected.iter() {
        let (_, code) = joined.iter().find(|(n, _)| n == *en).expect("name is joined");
        match (&code.primary, eprim) {
            (None, None) => {}
            (Some(a), Some(b)) => assert!(same_loc(a, b)),
            _ => panic!("primary of {:?} differs", en),
        }
        assert_eq!(code.secondary.len(), esec.len());
        for (es, el) in esec.iter() {
            let (_, l) = code.secondary.iter().find(|(s, _)| s == *es).expect("sub is joined");
            assert!(same_loc(l, el));
        }
    }

    let spc_bar_a_str = format!("{}{}", spc_bar.as_str(), sub_a.as_str());
    let expected_lints = vec![
        (file1, 4, spc_bar_a_str.clone()),
        (file1, 5, spc_bar_a_str.clone()),
        // second file re-prints the last lint
        (file1, 5, spc_bar_a_str.clone()),
        (file3, 5, spc_bar_a_str.clone()),
        (file2, 1, tst_baz.as_str().to_string()),
        (file3, 20, tst_baz.as_str().to_string()),
    ];
    assert_eq!(lints.len(), expected_lints.len());
    for (lint, (path, line, msg)) in lints.iter().zip(expected_lints.iter()) {
        assert_eq!(lint.level, Level::Error);
        assert_eq!(lint.category, Category::ParseCodeImplementations);
        assert_eq!(lint.path.as_deref(), Some(*path));
        assert_eq!(lint.line, Some(*line));
        assert_eq!(lint.msg, format!("duplicate detected: {}", msg));
    }
}

#[test]
fn replace_links_turns_percent_into_hash() {
    assert_eq!(replace_links("%SPC-a and 50% %"), "#SPC-a and 50# #");
    assert_eq!(replace_links("none"), "none");
}
