use artifact::artifact::{resolve_raw_path, CodeLoc, Impl, ImplCode, Settings};
use artifact::family::Names;
use artifact::name::{Name, SubName};
use artifact::artifact::ArtifactIm;
use artifact::lint::{Categorized, Category, Level, Lint};
use artifact::project::{build_project, Artifact, Project};
use artifact::ser::{HashIm, SettingsExport, SettingsFormat, SettingsParse};

fn name(raw: &str) -> Name {
    Name::from_str(raw).unwrap()
}

fn sub(raw: &str) -> SubName {
    SubName::from_str(raw).unwrap()
}

fn names(raw: &[&str]) -> Names {
    let mut out = Names::new();
    for r in raw {
        out.insert(name(r));
    }
    out
}

fn loc(line: u64) -> CodeLoc {
    CodeLoc::new(&"/f.rs".to_string(), line)
}

fn art(n: &str, partof: &[&str], subs: &[&str], impl_: Impl) -> Artifact {
    Artifact {
        id: HashIm::default(),
        name: name(n),
        file: "/design.md".to_string(),
        partof: names(partof),
        parts: names(&[]),
        text: String::new(),
        impl_,
        subnames: subs.iter().map(|s| sub(s)).collect(),
    }
}

fn settings() -> Settings {
    Settings {
        base: "/b".to_string(),
        settings_path: "/b/.art/settings.toml".to_string(),
        code_paths: vec![],
        exclude_code_paths: vec![],
        artifact_paths: vec![],
        exclude_artifact_paths: vec![],
        code_url: None,
        parse: SettingsParse::default(),
        format: SettingsFormat::default(),
        export: SettingsExport::default(),
    }
}

#[test]
fn name_key_roundtrip() {
    for raw in ["REQ-foo", "tst-Bar_baz-1", "sPc-a-b-c"] {
        let n = name(raw);
        let again = Name::from_str(n.key_str()).unwrap();
        assert!(again == n);
        assert_eq!(again.key_str(), n.key_str());
        assert_eq!(again.0.ty, n.0.ty);
    }
}

#[test]
fn impl_statistics_counts() {
    let subs = vec![sub(".a"), sub(".tst-b"), sub(".c")];
    let code = ImplCode {
        primary: Some(loc(1)),
        secondary: vec![(sub(".A"), loc(2)), (sub(".tst-b"), loc(3))],
    };
    assert_eq!(Impl::Code(code).to_statistics(&subs), (4, 3, 1, 1));
    assert_eq!(Impl::Done("x".to_string()).to_statistics(&subs), (1, 1, 1, 1));
    assert_eq!(Impl::NotImpl.to_statistics(&subs), (4, 0, 0, 0));
    assert_eq!(Impl::NotImpl.to_statistics(&vec![]), (0, 0, 0, 0));
}

#[test]
fn resolve_settings_paths() {
    assert_eq!(resolve_raw_path("/b", "{repo}/src"), "/b/src");
    assert_eq!(resolve_raw_path("/b", "{repo}{repo}//lib"), "/b/lib");
    assert_eq!(resolve_raw_path("/b/", "design"), "/b/design");
    assert_eq!(resolve_raw_path("/b", "/abs"), "/b/abs");
}

#[test]
fn project_sort_orders_by_key() {
    let code = ImplCode {
        primary: None,
        secondary: vec![(sub(".z"), loc(1)), (sub(".a"), loc(2))],
    };
    let mut project = Project {
        settings: settings(),
        code_impls: vec![(name("SPC-b"), code)],
        artifacts: vec![
            (name("SPC-b"), art("SPC-b", &["REQ-z", "REQ-a"], &[".y", ".x"], Impl::NotImpl)),
            (name("REQ-a"), art("REQ-a", &[], &[], Impl::Done("done".to_string()))),
        ],
    };
    project.sort();
    let order: Vec<&str> = project.artifacts.iter().map(|(n, _)| n.as_str()).collect();
    assert_eq!(order, vec!["REQ-a", "SPC-b"]);
    let b = &project.artifacts[1].1;
    let partof: Vec<&str> = b.partof.0.iter().map(|n| n.as_str()).collect();
    assert_eq!(partof, vec!["REQ-a", "REQ-z"]);
    let subs: Vec<&str> = b.subnames.iter().map(|s| s.as_str()).collect();
    assert_eq!(subs, vec![".x", ".y"]);
    let secs: Vec<&str> = project.code_impls[0].1.secondary.iter().map(|(s, _)| s.as_str()).collect();
    assert_eq!(secs, vec![".a", ".z"]);
}

fn im(n: &str, file: &str, partof: &[&str], text: &str) -> ArtifactIm {
    let mut p = names(partof);
    p.sort();
    ArtifactIm { name: name(n), file: file.to_string(), partof: p, done: None, text: text.to_string() }
}

#[test]
fn build_project_joins_determines_and_sorts() {
    let ims = vec![
        im("SPC-b", "/design/b.md", &["REQ-a"], "b"),
        im("REQ-a", "/design/a.md", &[], "see [[SPC-b]]"),
    ];
    let locs = vec![(loc(3), name("SPC-b"), None)];
    let (lints, project, _) =
        build_project(Categorized::default(), settings(), locs, ims, Vec::new()).unwrap().unwrap();
    assert!(lints.error.is_empty());
    let got: Vec<&str> = project.artifacts.iter().map(|(n, _)| n.as_str()).collect();
    assert_eq!(got, vec!["REQ-a", "SPC-b"]);
    let a = &project.artifacts[0].1;
    assert_eq!(a.parts.0.iter().map(|n| n.as_str()).collect::<Vec<_>>(), vec!["SPC-b"]);
    let b = &project.artifacts[1].1;
    assert!(matches!(b.impl_, Impl::Code(_)));
    assert_eq!(project.code_impls.len(), 1);
}

#[test]
fn build_project_stops_on_errors() {
    let ims = vec![
        im("REQ-a", "/design/a.md", &[], "one"),
        im("REQ-A", "/design/b.md", &[], "two"),
    ];
    let lints = match build_project(Categorized::default(), settings(), vec![], ims, vec![]).unwrap() {
        Ok(_) => panic!("a name defined twice is an error"),
        Err(l) => l,
    };
    assert_eq!(lints.error.len(), 2);
    assert!(lints.error.iter().all(|l| l.msg.starts_with("duplicate name detected: REQ-A in ")));

    let found = vec![Lint::load_error("/design/x.md".to_string(), "bad")];
    let lints = match build_project(Categorized::default(), settings(), vec![], vec![], found).unwrap() {
        Ok(_) => panic!("a load error stops the build"),
        Err(l) => l,
    };
    assert_eq!(lints.error.len(), 1);
    assert_eq!(lints.error[0].category, Category::LoadPaths);
    assert_eq!(lints.error[0].level, Level::Error);
}
