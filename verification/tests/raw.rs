use artifact::family::Names;
use artifact::name::Name;
use artifact::raw::{
    artifacts_from_sections, from_markdown, insert_from_parts, to_markdown, ArtFileType, ArtifactRaw, LoadError, NamesRaw,
    TextRaw,
};

fn name(raw: &str) -> Name {
    Name::from_str(raw).unwrap()
}

fn names_raw(collapsed: &str) -> NamesRaw {
    NamesRaw::from_str(collapsed).unwrap()
}

fn key_set(n: &Names) -> Vec<String> {
    let mut keys: Vec<String> = n.0.iter().map(|x| x.key_str().to_string()).collect();
    keys.sort();
    keys
}

/// Read the YAML attributes of a markdown section: `done` and `partof`.
fn parse_attrs(attrs: &str) -> (Option<String>, Option<NamesRaw>) {
    let value: serde_yaml::Value = serde_yaml::from_str(attrs).unwrap();
    let done = value.get("done").and_then(|d| d.as_str()).map(|d| d.to_string());
    let partof = match value.get("partof") {
        None => None,
        Some(serde_yaml::Value::String(s)) => Some(names_raw(s)),
        Some(serde_yaml::Value::Sequence(items)) => {
            let mut out = NamesRaw { inner: Names::new() };
            for item in items {
                let n = names_raw(item.as_str().unwrap());
                out.inner.extend_names(&n.inner);
            }
            Some(out)
        }
        Some(other) => panic!("unexpected partof: {:?}", other),
    };
    (done, partof)
}

fn read_markdown(text: &str) -> Vec<(Name, ArtifactRaw)> {
    let (sections, stop) = from_markdown(text);
    assert!(stop.is_none(), "stopped: {:?}", stop);
    let mut out = Vec::new();
    for s in sections {
        let (done, partof) = match &s.attrs {
            Some(a) => parse_attrs(a),
            None => (None, None),
        };
        insert_from_parts(&mut out, s.name, done, partof, s.text).unwrap();
    }
    out
}

fn same_raw(a: &ArtifactRaw, b: &ArtifactRaw) -> bool {
    let partof_same = match (&a.partof, &b.partof) {
        (None, None) => true,
        (Some(x), Some(y)) => key_set(&x.inner) == key_set(&y.inner),
        _ => false,
    };
    let text_same = match (&a.text, &b.text) {
        (None, None) => true,
        (Some(x), Some(y)) => x.0 == y.0,
        _ => false,
    };
    a.done == b.done && partof_same && text_same
}

fn sort_by_key(arts: &mut Vec<(Name, ArtifactRaw)>) {
    arts.sort_by(|a, b| a.0.key_str().cmp(b.0.key_str()));
}

#[test]
fn sanity_from_markdown() {
    let raw_1 = r#"
# REQ-foo

req-foo text

#REQ-bar
partof:
- SPC-baz
###
REQ-bar text
#REQ-empty
#    req-weird
done: yes this is done
partof:
- REQ-baz
- SPC-bar
###


"#
    .to_string();
    let exp_raw_1 = r#"# REQ-bar
partof: SPC-baz
###
REQ-bar text


# REQ-empty


# REQ-foo

req-foo text


# req-weird
done: yes this is done

partof:
- REQ-baz
- SPC-bar
###"#
        .to_string();
    let mut exp_1 = vec![
        (
            name("REQ-foo"),
            ArtifactRaw {
                done: None,
                partof: None,
                text: Some(TextRaw("\nreq-foo text\n".into())),
            },
        ),
        (
            name("REQ-bar"),
            ArtifactRaw {
                done: None,
                partof: Some(names_raw("SPC-baz")),
                text: Some(TextRaw("REQ-bar text".into())),
            },
        ),
        (name("REQ-empty"), ArtifactRaw::empty()),
        (
            name("req-weird"),
            ArtifactRaw {
                done: Some("yes this is done".into()),
                partof: Some(names_raw("REQ-baz, SPC-bar")),
                text: None,
            },
        ),
    ];
    sort_by_key(&mut exp_1);

    let mut out = read_markdown(&raw_1);
    sort_by_key(&mut out);
    assert_eq!(out.len(), exp_1.len());
    for ((n, a), (en, ea)) in out.iter().zip(exp_1.iter()) {
        assert!(n == en && n.as_str() == en.as_str(), "{:?} != {:?}", n, en);
        assert!(same_raw(a, ea), "{:?} != {:?}", a, ea);
    }

    // the roundtrip works
    let new_raw = to_markdown(&out);
    let mut back = read_markdown(&new_raw);
    sort_by_key(&mut back);
    assert_eq!(back.len(), out.len());
    for ((n, a), (en, ea)) in back.iter().zip(out.iter()) {
        assert!(n == en);
        assert!(same_raw(a, ea), "{:?} != {:?}", a, ea);
    }

    // sanity: assert one of the examples has exact markdown
    assert_eq!(exp_raw_1, to_markdown(&exp_1));
}

#[test]
fn from_markdown_attrs_twice_is_an_error() {
    let (sections, stop) = from_markdown("# REQ-a\ndone: x\n###\nmore\n###\n");
    assert_eq!(sections.len(), 0);
    match stop {
        Some(artifact::raw::MdStop::Error(LoadError::MarkdownError { msg })) => {
            assert_eq!(msg, "`###+\\s+` exists twice under REQ-a")
        }
        other => panic!("unexpected: {:?}", other),
    }
}

#[test]
fn insert_from_parts_twice_is_an_error() {
    let mut out = Vec::new();
    insert_from_parts(&mut out, name("REQ-a"), None, None, None).unwrap();
    match insert_from_parts(&mut out, name("req-A"), None, None, None) {
        Err(LoadError::MarkdownError { msg }) => assert_eq!(msg, "name exists twice: req-A"),
        Ok(()) => panic!("inserted twice"),
    }
    assert_eq!(out.len(), 1);
}

#[test]
fn text_raw_written_and_read() {
    assert_eq!(TextRaw("foo  \nbar \n\n".into()).to_written(), "foo  \nbar\n");
    assert_eq!(TextRaw("one line  ".into()).to_written(), "one line");
}

#[test]
fn art_file_type_from_path() {
    assert_eq!(ArtFileType::from_path("/a/b.toml"), Some(ArtFileType::Toml));
    assert_eq!(ArtFileType::from_path("/a/b.md"), Some(ArtFileType::Md));
    assert_eq!(ArtFileType::from_path("/a/b.json"), Some(ArtFileType::Json));
    assert_eq!(ArtFileType::from_path("/a/b.txt"), None);
}

fn raw_strs(n: &NamesRaw) -> Vec<String> {
    n.inner.0.iter().map(|x| x.as_str().to_string()).collect()
}

#[test]
fn partof_lists_merge_in_order() {
    let items = |v: &[&str]| v.iter().map(|s| s.to_string()).collect::<Vec<String>>();
    let one = NamesRaw::from_strs(&items(&["REQ-foo"])).unwrap();
    assert_eq!(raw_strs(&one), vec!["REQ-foo"]);
    let two = NamesRaw::from_strs(&items(&["REQ-foo", "SPC-bar"])).unwrap();
    assert_eq!(raw_strs(&two), vec!["REQ-foo", "SPC-bar"]);
    let merged = NamesRaw::from_strs(&items(&["REQ-[foo, baz]", "REQ-bar"])).unwrap();
    assert_eq!(raw_strs(&merged), vec!["REQ-foo", "REQ-baz", "REQ-bar"]);
    let dup = NamesRaw::from_strs(&items(&["REQ-[foo, bar]", "req-BAR"])).unwrap();
    assert_eq!(raw_strs(&dup), vec!["REQ-foo", "REQ-bar"]);
    let empty = NamesRaw::from_strs(&Vec::new()).unwrap();
    assert!(empty.inner.0.is_empty());
    let bad = NamesRaw::from_strs(&items(&["REQ-foo", "REQ-[a", "nope"]));
    assert!(matches!(bad, Err(_)));
    let bad_name = NamesRaw::from_strs(&items(&["REQ-foo", "nope", "REQ-[a"])).unwrap_err();
    assert_eq!(bad_name.message(), "Name is invalid: nope");
}

#[test]
fn partof_is_written_sorted() {
    let n = names_raw("SPC-b, REQ-z, REQ-a");
    assert_eq!(n.to_strings(), vec!["REQ-a", "REQ-z", "SPC-b"]);
    assert_eq!(names_raw("TST-x").to_strings(), vec!["TST-x"]);
}

#[test]
fn markdown_sections_become_artifacts() {
    let (sections, stop) = from_markdown("# REQ-a\nx\n# req-A\ny\n");
    let parts: Vec<_> = sections.into_iter().map(|s| (s.name, Ok((None, None)), s.text)).collect();
    match artifacts_from_sections(parts, stop) {
        Err(LoadError::MarkdownError { msg }) => assert_eq!(msg, "name exists twice: req-A"),
        Ok(_) => panic!("a repeated name is an error"),
    }
    let (sections, stop) = from_markdown("# REQ-a\nx\n# SPC-b\ny\n");
    let parts: Vec<_> = sections.into_iter().map(|s| (s.name, Ok((Some("d".to_string()), None)), s.text)).collect();
    let arts = artifacts_from_sections(parts, stop).unwrap();
    assert_eq!(arts.len(), 2);
    assert_eq!(arts[0].0.as_str(), "REQ-a");
    assert_eq!(arts[1].0.as_str(), "SPC-b");
    assert_eq!(arts[1].1.done, Some("d".to_string()));
    let (sections, stop) = from_markdown("# REQ-a\ndone: x\n###\n###\n");
    let parts: Vec<_> = sections.into_iter().map(|s| (s.name, Ok((None, None)), s.text)).collect();
    assert!(matches!(artifacts_from_sections(parts, stop), Err(LoadError::MarkdownError { .. })));
    let bad = vec![(name("REQ-a"), Err(LoadError::MarkdownError { msg: "bad yaml".to_string() }), None)];
    match artifacts_from_sections(bad, None) {
        Err(LoadError::MarkdownError { msg }) => assert_eq!(msg, "bad yaml"),
        Ok(_) => panic!("attributes that do not parse are an error"),
    }
}
