use artifact::name::{parse_subnames, Name, SubName, Type};

fn name(raw: &str) -> Name {
    Name::from_str(raw).unwrap()
}

fn assert_names_valid(raw: &[&str]) {
    let errors: Vec<&str> = raw.iter().filter(|r| Name::from_str(r).is_err()).cloned().collect();
    assert!(errors.is_empty(), "some names were invalid: {:?}", errors);
    for r in raw {
        let name = Name::from_str(r).unwrap();
        assert_eq!(*r, name.as_str(), "raw was different");
    }
}

fn assert_names_invalid(raw: &[&str]) {
    let errors: Vec<&str> = raw.iter().filter(|r| Name::from_str(r).is_ok()).cloned().collect();
    assert!(errors.is_empty(), "some names were valid: {:?}", errors);
}

#[test]
fn sanity_names_valid() {
    assert_names_valid(&[
        "REQ-a",
        "REQ-a-b",
        "REQ-foo",
        "REQ-foo_bar",
        "SPC-foo",
        "TST-foo",
        "TST-Foo",
        "TST-FoO",
        "tst-FOO",
        "tst-foo",
        "TST-bPRJM_07msqpQ",
        "TST-bPRJM07msqpQ-pRMBtV-HJmJOpEgFTI2p8zdEMpluTbnkepzdELxf5CntsW",
    ]);
    assert_eq!(name("REQ-foo").0.ty, Type::REQ);
    assert_eq!(name("SPC-foo").0.ty, Type::SPC);
    assert_eq!(name("TST-foo").0.ty, Type::TST);
    assert_eq!(name("tSt-foo").0.ty, Type::TST);
}

#[test]
fn sanity_names_invalid() {
    assert_names_invalid(&[
        "RSK-foo",
        "REQ",
        "REQ-",
        "REQ-a-",
        "REQ-a--",
        "REQ-a-b-",
        "REQ--a",
        "REQ-a--b",
        "REQ-a--b-",
        "REQ-a.b",
        "REQ-a_b.",
        "REQ",
        "SPC",
        "TST",
        "hello",
        "",
        "a",
    ]);
}

#[test]
fn sanity_subnames() {
    let foo = SubName::from_str(".foo").unwrap();
    assert_eq!(foo.as_str(), ".foo");
    assert_eq!(foo.key_str(), ".FOO");
    let foo_bar = SubName::from_str(".foo_bar").unwrap();
    assert_eq!(foo_bar.as_str(), ".foo_bar");
    assert_eq!(foo_bar.key_str(), ".FOO_BAR");
    // only keys matter
    assert!(SubName::from_str(".BAR").unwrap() == SubName::from_str(".bar").unwrap());
    assert!(SubName::from_str(".bar").unwrap() == SubName::from_str(".bAr").unwrap());
    // invalid
    assert!(SubName::from_str("foo").is_err());
    assert!(SubName::from_str(".foo-bar").is_err());
    assert!(SubName::from_str("REQ-foo").is_err());
    assert!(SubName::from_str("REQ-foo.foo-bar").is_err());
}

#[test]
fn sanity_parse_subnames() {
    let text = r#"
This is some text
subname: [[.subname]].
[[.a]]
[[.a_b]]
[[.not-valid]]
[[REQ-foo.not-subname]]
"#;
    let subnames = parse_subnames(text);
    let keys: Vec<&str> = subnames.iter().map(|s| s.as_str()).collect();
    assert_eq!(keys, vec![".subname", ".a", ".a_b"]);
}

#[test]
fn name_keys_ignore_case() {
    let a = name("REQ-Foo-bar");
    assert_eq!(a.as_str(), "REQ-Foo-bar");
    assert_eq!(a.key_str(), "REQ-FOO-BAR");
    assert!(a == name("req-foo-BAR"));
    assert!(a != name("REQ-foo-baz"));
}

#[test]
fn name_full_with_subname() {
    let a = name("SPC-foo");
    let sub = SubName::from_str(".bar").unwrap();
    assert_eq!(a.full(Some(&sub)), "SPC-foo.bar");
    assert_eq!(a.full(None), "SPC-foo");
}
