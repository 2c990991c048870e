use artifact::artifact::{ArtifactIm, ArtifactOp, Settings};
use siphasher::sip128::{Hasher128, SipHasher};
use std::hash::Hasher;
use artifact::family::Names;
use artifact::lint::{Categorized, Category, Level};
use artifact::loaded::try_determine_artifacts;
use artifact::modify::{check_overlap, check_paths, modify_loaded, perform_operations};
use artifact::project::Project;
use artifact::ser::ModifyErrorKind;
use artifact::name::Name;
use artifact::ser::{HashIm, SettingsExport, SettingsFormat, SettingsParse};

fn name(raw: &str) -> Name {
    Name::from_str(raw).unwrap()
}

fn im(n: &str, file: &str, text: &str) -> ArtifactIm {
    ArtifactIm {
        name: name(n),
        file: file.to_string(),
        partof: Names::new(),
        done: None,
        text: text.to_string(),
    }
}

fn settings() -> Settings {
    Settings {
        base: "/b".to_string(),
        settings_path: "/b/.art/settings.toml".to_string(),
        code_paths: vec![],
        exclude_code_paths: vec![],
        artifact_paths: vec!["/b/design".to_string(), "/b/design/old/keep".to_string()],
        exclude_artifact_paths: vec!["/b/design/old".to_string()],
        code_url: None,
        parse: SettingsParse::default(),
        format: SettingsFormat::default(),
        export: SettingsExport::default(),
    }
}

#[test]
fn hash_im_is_the_siphash_of_the_hash_bytes() {
    let a = im("REQ-a", "/b/design/a.md", "text");
    let bytes = a.hash_bytes();
    let mut h = SipHasher::new();
    h.write(&bytes);
    assert_eq!(a.hash_im().0, h.finish128().as_bytes());
    assert_ne!(a.hash_im().0.to_vec(), bytes[..16].to_vec());
    assert_eq!(a.hash_im().0, im("REQ-a", "/b/design/a.md", "text").hash_im().0);
    assert_ne!(a.hash_im().0, im("REQ-a", "/b/design/a.md", "other").hash_im().0);
}

#[test]
fn check_overlap_lints_noop_and_overlap() {
    let a = im("REQ-a", "/b/design/a.md", "text");
    let id = a.hash_im();
    let mut lints = Categorized::default();
    let mut ops = vec![
        ArtifactOp::Update { artifact: im("REQ-a", "/b/design/a.md", "text"), orig_id: id },
        ArtifactOp::Create { artifact: im("REQ-b", "/b/design/a.md", "b") },
        ArtifactOp::Create { artifact: im("REQ-b", "/b/design/a.md", "b") },
    ];
    check_overlap(&mut lints, &mut ops);
    assert_eq!(lints.error.len(), 2);
    assert_eq!(lints.error[0].category, Category::UpdateNoop);
    assert_eq!(lints.error[0].msg, "Attempt to update 'REQ-a' with identical data");
    assert_eq!(lints.error[1].category, Category::IdOverlap);
    assert_eq!(lints.error[1].msg, "Attempting to operate twice on REQ-b");
}

#[test]
fn perform_operations_create_update_delete() {
    let a = im("REQ-a", "/b/design/a.md", "a");
    let a_id = a.hash_im();
    let c = im("REQ-c", "/b/design/a.md", "c");
    let c_id = c.hash_im();
    let mut ims = vec![(a_id, a), (c_id, c)];
    let mut lints = Categorized::default();
    let ops = vec![
        // replace REQ-a
        ArtifactOp::Update { artifact: im("REQ-a", "/b/design/a.md", "new"), orig_id: a_id },
        // remove REQ-c
        ArtifactOp::Delete { name: name("REQ-c"), orig_id: c_id },
        // add REQ-d
        ArtifactOp::Create { artifact: im("REQ-d", "/b/design/a.md", "d") },
    ];
    perform_operations(ops, &mut lints, &mut ims);
    assert!(lints.error.is_empty());
    let texts: Vec<&str> = ims.iter().map(|(_, a)| a.text.as_str()).collect();
    assert_eq!(texts.len(), 2);
    assert!(texts.contains(&"new"));
    assert!(texts.contains(&"d"));
    for (id, a) in ims.iter() {
        assert_eq!(id.0, a.hash_im().0);
    }
}

#[test]
fn perform_operations_lints_missing_and_existing() {
    let a = im("REQ-a", "/b/design/a.md", "a");
    let a_id = a.hash_im();
    let mut ims = vec![(a_id, a)];
    let mut lints = Categorized::default();
    let missing = HashIm([7u8; 16]);
    let ops = vec![
        ArtifactOp::Update { artifact: im("REQ-x", "/b/design/a.md", "x"), orig_id: missing },
        ArtifactOp::Delete { name: name("REQ-y"), orig_id: missing },
        ArtifactOp::Create { artifact: im("REQ-a", "/b/design/a.md", "a") },
    ];
    perform_operations(ops, &mut lints, &mut ims);
    assert_eq!(lints.error.len(), 3);
    assert_eq!(lints.error[0].category, Category::UpdateDne);
    assert_eq!(lints.error[0].msg, "Attempt to update 'REQ-x' failed, hash-id does not exist");
    assert_eq!(lints.error[1].category, Category::DeleteDne);
    assert_eq!(lints.error[1].msg, "Attempt to delete 'REQ-y' failed, hash-id does not exist");
    assert_eq!(lints.error[2].category, Category::CreateExists);
    assert_eq!(lints.error[2].msg, "Attempting to create an artifact which already exists: REQ-a");
    assert_eq!(lints.error[2].level, Level::Error);
}

#[test]
fn check_paths_lints_bad_files() {
    let mut lints = Categorized::default();
    let ops = vec![
        ArtifactOp::Create { artifact: im("REQ-a", "/b/design/a.txt", "a") },
        ArtifactOp::Create { artifact: im("REQ-b", "/b/other/b.md", "b") },
        // inside an exclude path that holds one of the artifact paths it is in
        ArtifactOp::Create { artifact: im("REQ-c", "/b/design/old/keep/c.md", "c") },
        // inside an exclude path that holds none of them
        ArtifactOp::Create { artifact: im("REQ-e", "/b/design/old/e.md", "e") },
        ArtifactOp::Create { artifact: im("REQ-d", "/b/design/d.toml", "d") },
    ];
    check_paths(&mut lints, &settings(), &ops);
    let msgs: Vec<(&str, &str)> = lints
        .error
        .iter()
        .map(|l| (l.path.as_deref().unwrap(), l.msg.as_str()))
        .collect();
    assert_eq!(
        msgs,
        vec![
            ("/b/design/a.txt", "Not one of the valid extensions [.toml, .md, .json]"),
            ("/b/other/b.md", "Not inside artifact_paths"),
            ("/b/design/old/keep/c.md", "Is inside exclude_artifact_paths"),
        ]
    );
    assert!(lints.error.iter().all(|l| l.category == Category::ModifyPathInvalid));
}

#[test]
fn clean_twice_is_clean_once() {
    let mut a = im("SPC-a-b", "/b/design/a.md", "text  \n\n");
    for n in ["REQ-z", "SPC-a", "REQ-a-b", "REQ-c"] {
        a.partof.insert(name(n));
    }
    a.clean();
    let first = a.hash_im();
    let partof: Vec<&str> = a.partof.0.iter().map(|n| n.as_str()).collect();
    assert_eq!(partof, vec!["REQ-c", "REQ-z"]);
    assert_eq!(a.text, "text");
    a.clean();
    assert_eq!(a.hash_im().0, first.0);
    let again: Vec<&str> = a.partof.0.iter().map(|n| n.as_str()).collect();
    assert_eq!(again, vec!["REQ-c", "REQ-z"]);
}

fn project_of(ims: Vec<ArtifactIm>) -> Project {
    let defined: Vec<(Name, String)> = ims.iter().map(|a| (a.name.clone(), a.file.clone())).collect();
    let arts: Vec<(Name, ArtifactIm)> = ims.into_iter().map(|a| (a.name.clone(), a)).collect();
    let (artifacts, _) = try_determine_artifacts(&defined, &arts, &Vec::new()).unwrap();
    Project { settings: settings(), code_impls: Vec::new(), artifacts }
}

fn kind_of(r: Option<Result<(Categorized, Project), artifact::ser::ModifyError>>) -> ModifyErrorKind {
    match r.unwrap() {
        Ok(_) => panic!("expected an error"),
        Err(e) => {
            assert!(!e.lints.error.is_empty());
            e.kind
        }
    }
}

#[test]
fn modify_loaded_creates_and_updates() {
    let p = project_of(vec![im("REQ-a", "/b/design/a.md", "a")]);
    let a_id = im("REQ-a", "/b/design/a.md", "a").hash_im();
    let ops = vec![
        ArtifactOp::Create { artifact: im("REQ-b", "/b/design/b.md", "b") },
        ArtifactOp::Update { artifact: im("REQ-a", "/b/design/a.md", "new a"), orig_id: a_id },
    ];
    let (lints, q) = modify_loaded(Categorized::default(), Some(p), ops).unwrap().unwrap();
    assert!(lints.error.is_empty());
    let got: Vec<(String, String, String)> = q
        .artifacts
        .iter()
        .map(|(n, a)| (n.as_str().to_string(), a.file.clone(), a.text.clone()))
        .collect();
    assert_eq!(
        got,
        vec![
            ("REQ-b".to_string(), "/b/design/b.md".to_string(), "b".to_string()),
            ("REQ-a".to_string(), "/b/design/a.md".to_string(), "new a".to_string()),
        ]
    );
}

#[test]
fn modify_loaded_error_kinds() {
    let a_id = im("REQ-a", "/b/design/a.md", "a").hash_im();
    let p = || project_of(vec![im("REQ-a", "/b/design/a.md", "a")]);
    // a path outside the artifact paths
    let ops = vec![ArtifactOp::Create { artifact: im("REQ-b", "/elsewhere/b.md", "b") }];
    assert_eq!(kind_of(modify_loaded(Categorized::default(), Some(p()), ops)), ModifyErrorKind::InvalidPaths);
    // an id that is not there
    let ops = vec![ArtifactOp::Delete { name: name("REQ-z"), orig_id: HashIm([7u8; 16]) }];
    assert_eq!(kind_of(modify_loaded(Categorized::default(), Some(p()), ops)), ModifyErrorKind::HashMismatch);
    // a partof that names no artifact
    let mut c = im("SPC-c", "/b/design/a.md", "c");
    c.partof.insert(name("REQ-nope"));
    let ops = vec![ArtifactOp::Create { artifact: c }];
    assert_eq!(kind_of(modify_loaded(Categorized::default(), Some(p()), ops)), ModifyErrorKind::InvalidFromModify);
    // lints of a failed load
    let mut failed = Categorized::default();
    failed.categorize(vec![artifact::lint::Lint::load_error("/b".to_string(), "boom")]);
    assert_eq!(kind_of(modify_loaded(failed, None, vec![])), ModifyErrorKind::InvalidFromLoad);
    // nothing to do
    let (lints, q) = modify_loaded(Categorized::default(), Some(p()), vec![]).unwrap().unwrap();
    assert!(lints.error.is_empty());
    assert_eq!(q.artifacts.len(), 1);
    assert_eq!(q.artifacts[0].1.id.0, a_id.0);
}
