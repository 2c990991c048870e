use artifact::expected::{
    ArtifactImAssert, CategorizedAssert, CodeLocAssert, ImplAssert, ImplCodeAssert, LintExp,
    SettingsAssert,
};
use artifact::artifact::Impl;
use artifact::family::{names_raw, Names};
use artifact::lint::{Category, Level, Lint};
use artifact::name::Name;
use artifact::ser::{SettingsExport, SettingsFormat, SettingsParse};

fn name(raw: &str) -> Name {
    Name::from_str(raw).unwrap()
}

fn lint(path: Option<&str>) -> Lint {
    Lint {
        level: Level::Error,
        path: path.map(|p| p.to_string()),
        line: Some(3),
        category: Category::Artifact,
        msg: "m".to_string(),
    }
}

#[test]
fn artifact_im_assert_expected_joins_and_cleans() {
    let mut partof = Names::new();
    partof.insert(name("SPC-b"));
    partof.insert(name("REQ-a"));
    // the automatic partof of TST-b is SPC-b: it is stripped
    let a = ArtifactImAssert {
        name: name("TST-b"),
        file: "design/b.md".to_string(),
        partof,
        done: None,
        text: "text  \n\n".to_string(),
    };
    let im = a.expected("/base");
    assert_eq!(im.file, "/base/design/b.md");
    let raws: Vec<&str> = im.partof.0.iter().map(|n| n.as_str()).collect();
    assert_eq!(raws, vec!["REQ-a"]);
    assert_eq!(im.text, "text");
}

#[test]
fn impl_assert_expected_merges_subnames() {
    let code = ImplCodeAssert {
        primary: Some(CodeLocAssert { file: "src/a.rs".to_string(), line: 1 }),
        secondary: vec![
            (".sub".to_string(), CodeLocAssert { file: "src/a.rs".to_string(), line: 2 }),
            (".other".to_string(), CodeLocAssert { file: "/abs/b.rs".to_string(), line: 3 }),
            (".SUB".to_string(), CodeLocAssert { file: "src/c.rs".to_string(), line: 4 }),
        ],
    };
    match ImplAssert::Code(code).expected("/base") {
        Impl::Code(c) => {
            let p = c.primary.unwrap();
            assert_eq!((p.file.as_str(), p.line), ("/base/src/a.rs", 1));
            assert_eq!(c.secondary.len(), 2);
            assert_eq!(c.secondary[0].0.as_str(), ".sub");
            assert_eq!(c.secondary[0].1.file, "/base/src/c.rs");
            assert_eq!(c.secondary[0].1.line, 4);
            assert_eq!(c.secondary[1].1.file, "/abs/b.rs");
        }
        other => panic!("unexpected {:?}", other),
    }
    match ImplAssert::Done("yes".to_string()).expected("/base") {
        Impl::Done(d) => assert_eq!(d, "yes"),
        other => panic!("unexpected {:?}", other),
    }
    assert!(matches!(ImplAssert::NotImpl.expected("/base"), Impl::NotImpl));
}

#[test]
fn settings_assert_expected_prefixes_paths() {
    let s = SettingsAssert {
        settings_path: ".art/settings.toml".to_string(),
        code_paths: vec!["src".to_string(), "lib".to_string(), "src".to_string()],
        exclude_code_paths: vec![],
        artifact_paths: vec!["design".to_string()],
        exclude_artifact_paths: vec!["/other".to_string()],
        code_url: None,
        parse: SettingsParse::default(),
        format: SettingsFormat::default(),
        export: SettingsExport::default(),
    };
    let settings = s.expected("/base");
    assert_eq!(settings.base, "/base");
    assert_eq!(settings.settings_path, "/base/.art/settings.toml");
    assert_eq!(settings.code_paths, vec!["/base/src".to_string(), "/base/lib".to_string()]);
    assert_eq!(settings.artifact_paths, vec!["/base/design".to_string()]);
    assert_eq!(settings.exclude_artifact_paths, vec!["/other".to_string()]);
}

#[test]
fn categorized_assert_expected_joins_lint_paths() {
    let c = CategorizedAssert {
        error: vec![lint(Some("a.md")), lint(None)],
        other: vec![lint(Some("/x/b.md"))],
    };
    let e = c.expected("/base");
    assert_eq!(e.error[0].path.as_deref(), Some("/base/a.md"));
    assert_eq!(e.error[1].path, None);
    assert_eq!(e.other[0].path.as_deref(), Some("/x/b.md"));

    let mut l = lint(Some("c.md"));
    l.make_expected("/base/");
    assert_eq!(l.path.as_deref(), Some("/base/c.md"));
}

#[test]
fn names_raw_gives_raw_forms() {
    let names = vec![name("REQ-a"), name("spc-B")];
    assert_eq!(names_raw(&names), vec!["REQ-a".to_string(), "spc-B".to_string()]);
}
