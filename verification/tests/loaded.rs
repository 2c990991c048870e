use artifact::artifact::ArtifactIm;
use artifact::family::Names;
use artifact::graph::{determine_graphs, determine_parts, topological_order};
use artifact::loaded::{
    count_ids, determine_partofs, join_artifacts_raw, try_determine_artifacts, ArtifactImExt,
};
use artifact::modify::im_from_artifact;
use artifact::name::Name;

fn name(raw: &str) -> Name {
    Name::from_str(raw).unwrap()
}

fn names(raw: &[&str]) -> Names {
    let mut out = Names::new();
    for r in raw {
        out.insert(name(r));
    }
    out
}

fn key_set(n: &Names) -> Vec<String> {
    let mut keys: Vec<String> = n.0.iter().map(|x| x.key_str().to_string()).collect();
    keys.sort();
    keys
}

/// Compare a computed name => names map with the expected one, ignoring order.
fn assert_map_eq(result: &Vec<(Name, Names)>, expected: &[(&str, Vec<&str>)]) {
    assert_eq!(result.len(), expected.len());
    for (en, eps) in expected {
        let (_, ps) = result.iter().find(|(n, _)| *n == name(en)).expect("name present");
        assert_eq!(key_set(ps), key_set(&names(eps)), "values of {}", en);
    }
}

fn with_partof(art_name: &str, file: &str, partof: &[&str]) -> ArtifactIm {
    let mut p = names(partof);
    p.sort();
    ArtifactIm {
        name: name(art_name),
        file: file.to_string(),
        partof: p,
        done: None,
        text: String::new(),
    }
}

fn partof_expected() -> Vec<(&'static str, Vec<&'static str>)> {
    vec![
        ("REQ-aaa", vec![]),
        ("REQ-aaa-a", vec!["REQ-aaa"]),
        ("SPC-aaa-a", vec!["REQ-aaa-a"]),
        ("SPC-bbb", vec![]),
        ("SPC-bbb-p", vec!["SPC-bbb", "REQ-aaa"]),
        ("SPC-ccc", vec!["REQ-aaa"]),
    ]
}

#[test]
fn data_artifact_sanity_determine_partofs() {
    let arts = vec![
        (name("REQ-aaa"), with_partof("TST-fake", "/fake", &[])),
        // test auto-parent
        (name("REQ-aaa-a"), with_partof("TST-fake", "/fake", &[])),
        // test auto-partof (no parent)
        (name("SPC-aaa-a"), with_partof("TST-fake", "/fake", &[])),
        (name("SPC-bbb"), with_partof("TST-fake", "/fake", &[])),
        // test explcit-link + parent
        (name("SPC-bbb-p"), with_partof("TST-fake", "/fake", &["REQ-aaa"])),
        // test explcit-link only
        (name("SPC-ccc"), with_partof("TST-fake", "/fake", &["REQ-aaa"])),
    ];
    let partofs = determine_partofs(&arts);
    assert_map_eq(&partofs, &partof_expected());
}

#[test]
fn artifact_sanity_determine_partofs() {
    let arts = vec![
        (name("REQ-aaa"), with_partof("REQ-aaa", "/fake", &[])),
        // test auto-parent
        (name("REQ-aaa-a"), with_partof("REQ-aaa-a", "/fake", &[])),
        // test auto-partof (no parent)
        (name("SPC-aaa-a"), with_partof("SPC-aaa-a", "/fake", &[])),
        (name("SPC-bbb"), with_partof("SPC-bbb", "/fake", &[])),
        // test explcit-link + parent
        (name("SPC-bbb-p"), with_partof("SPC-bbb-p", "/fake", &["REQ-aaa"])),
        // test explcit-link only
        (name("SPC-ccc"), with_partof("SPC-ccc", "/fake", &["REQ-aaa"])),
    ];
    let partofs = determine_partofs(&arts);
    assert_map_eq(&partofs, &partof_expected());
}

fn simple_partofs() -> Vec<(Name, Names)> {
    vec![
        (name("REQ-aaa"), names(&[])),
        (name("REQ-bbb"), names(&["REQ-aaa"])),
        (name("REQ-ccc"), names(&["REQ-bbb"])),
        (name("SPC-bbb"), names(&["REQ-bbb"])),
        (name("SPC-bbb-a"), names(&["SPC-bbb"])),
        (name("SPC-bbb-b"), names(&["SPC-bbb"])),
        (name("TST-aaa"), names(&["SPC-bbb"])),
        (name("TST-aaa-a"), names(&["TST-aaa"])),
    ]
}

#[test]
fn sanity_determine_parts() {
    let graphs = determine_graphs(&simple_partofs());
    let parts = determine_parts(&graphs);
    let expected = vec![
        ("REQ-aaa", vec!["REQ-bbb"]),
        ("REQ-bbb", vec!["REQ-ccc", "SPC-bbb"]),
        ("REQ-ccc", vec![]),
        ("SPC-bbb", vec!["SPC-bbb-a", "SPC-bbb-b", "TST-aaa"]),
        ("SPC-bbb-a", vec![]),
        ("SPC-bbb-b", vec![]),
        ("TST-aaa", vec!["TST-aaa-a"]),
        ("TST-aaa-a", vec![]),
    ];
    assert_map_eq(&parts, &expected);
}

#[test]
fn sanity_determine_graphs() {
    let partofs = vec![(name("REQ-a"), names(&[])), (name("TST-a"), names(&[]))];
    let graphs = determine_graphs(&partofs);
    assert_eq!(graphs.full.node_count(), 2);
    assert_eq!(graphs.full.edge_count(), 0);
    assert_eq!(graphs.lookup_id.len(), 2);
}

#[test]
fn graph_parts_inverse_of_partof() {
    // every `a partof b` is a `b parts a`, and nothing else
    let partofs = simple_partofs();
    let graphs = determine_graphs(&partofs);
    let parts = determine_parts(&graphs);
    for (n, ps) in parts.iter() {
        for p in ps.0.iter() {
            let (_, of) = partofs.iter().find(|(m, _)| m == p).unwrap();
            assert!(of.contains(n));
        }
    }
    for (n, of) in partofs.iter() {
        for o in of.0.iter() {
            let (_, ps) = parts.iter().find(|(m, _)| m == o).unwrap();
            assert!(ps.contains(n));
        }
    }
}

#[test]
fn clean_artifact_survives_raw_roundtrip() {
    let mut a = ArtifactIm {
        name: name("SPC-foo-bar"),
        file: "design/foo.md".to_string(),
        partof: names(&["SPC-foo", "REQ-z", "REQ-a", "REQ-foo-bar"]),
        done: Some("yes".to_string()),
        text: "some text  \n\n\n".to_string(),
    };
    a.clean();
    assert_eq!(key_set(&a.partof), vec!["REQ-A".to_string(), "REQ-Z".to_string()]);
    let keep: Vec<String> = a.partof.0.iter().map(|n| n.as_str().to_string()).collect();
    let (a_name, a_file, a_done, a_text) =
        (a.name.clone(), a.file.clone(), a.done.clone(), a.text.clone());
    assert_eq!(a_text, "some text");
    let (file, n, raw) = a.into_raw();
    let b = ArtifactIm::from_raw(n, file, raw);
    assert_eq!(b.name, a_name);
    assert_eq!(b.file, a_file);
    assert_eq!(b.done, a_done);
    assert_eq!(b.text, a_text);
    let got: Vec<String> = b.partof.0.iter().map(|n| n.as_str().to_string()).collect();
    assert_eq!(got, keep);

    let empty = ArtifactIm {
        name: name("REQ-empty"),
        file: "x.md".to_string(),
        partof: Names::new(),
        done: None,
        text: String::new(),
    };
    let (f, n, raw) = empty.into_raw();
    assert!(raw.partof.is_none() && raw.text.is_none());
    let back = ArtifactIm::from_raw(n, f, raw);
    assert!(back.partof.0.is_empty() && back.text.is_empty());
}

#[test]
fn ids_are_counted_before_numbering() {
    let arts = vec![
        (name("REQ-a"), with_partof("REQ-a", "a.md", &["REQ-b"])),
        (name("REQ-b"), with_partof("REQ-b", "a.md", &[])),
    ];
    assert_eq!(count_ids(&arts), Some(7));
    assert_eq!(count_ids(&Vec::new()), Some(0));
    let defined = vec![(name("REQ-a"), "a.md".to_string()), (name("REQ-b"), "a.md".to_string())];
    let (out, _) = try_determine_artifacts(&defined, &arts, &Vec::new()).unwrap();
    assert_eq!(out.len(), 2);
    let parts_of_b: Vec<String> = out[1].1.parts.0.iter().map(|n| n.as_str().to_string()).collect();
    assert_eq!(parts_of_b, vec!["REQ-a"]);
}

#[test]
fn loaded_artifacts_read_back_as_read() {
    let ims = vec![
        with_partof("REQ-foo", "/d/a.md", &[]),
        with_partof("REQ-foo-bar", "/d/a.md", &["REQ-z"]),
        with_partof("SPC-foo-bar", "/d/b.md", &["REQ-z", "REQ-foo"]),
        with_partof("REQ-z", "/d/b.md", &[]),
    ];
    let (defined, arts, dups) = join_artifacts_raw(ims);
    assert!(dups.is_empty());
    let expect: Vec<(String, String, Vec<String>)> = arts
        .iter()
        .map(|(_, a)| {
            (
                a.name.as_str().to_string(),
                a.file.clone(),
                a.partof.0.iter().map(|n| n.as_str().to_string()).collect(),
            )
        })
        .collect();
    let (loaded, _) = try_determine_artifacts(&defined, &arts, &Vec::new()).unwrap();
    // the full partof holds the automatic family too
    let spc = &loaded[2].1;
    assert_eq!(key_set(&spc.partof), vec!["REQ-FOO".to_string(), "REQ-FOO-BAR".to_string(), "REQ-Z".to_string()]);
    let back: Vec<(String, String, Vec<String>)> = loaded
        .into_iter()
        .map(|(_, a)| {
            let im = im_from_artifact(a);
            (
                im.name.as_str().to_string(),
                im.file.clone(),
                im.partof.0.iter().map(|n| n.as_str().to_string()).collect(),
            )
        })
        .collect();
    assert_eq!(back, expect);
}

#[test]
fn family_graph_topological_order() {
    let partofs = vec![
        (name("REQ-a"), names(&[])),
        (name("SPC-b"), names(&["REQ-a"])),
        (name("TST-c"), names(&["SPC-b", "REQ-a"])),
    ];
    let g = determine_graphs(&partofs);
    let order = topological_order(&g).unwrap();
    assert_eq!(order.len(), 3);
    let pos = |n: &str| {
        let id = g.lookup_id.iter().find(|(m, _)| m.as_str() == n).unwrap().1;
        order.iter().position(|x| *x == id).unwrap()
    };
    assert!(pos("REQ-a") < pos("SPC-b"));
    assert!(pos("SPC-b") < pos("TST-c"));
    let cyclic = vec![(name("REQ-a"), names(&["REQ-b"])), (name("REQ-b"), names(&["REQ-a"]))];
    assert!(topological_order(&determine_graphs(&cyclic)).is_none());
}
