use artifact::lint::{Category, Level};
use artifact::raw::TextRaw;
use artifact::name::{Name, SubName};
use artifact::ser::{get_impl, CodeLocSer, HashIm, ImplCodeSer, Method, ModifyErrorKind};

#[test]
fn modify_error_kind_names_roundtrip() {
    let kinds = [
        ModifyErrorKind::InvalidFromLoad,
        ModifyErrorKind::InvalidPaths,
        ModifyErrorKind::HashMismatch,
        ModifyErrorKind::InvalidFromModify,
        ModifyErrorKind::CreateBackups,
        ModifyErrorKind::SaveProject,
    ];
    for k in kinds {
        assert_eq!(ModifyErrorKind::from_str(k.as_str()), Some(k));
    }
    assert_eq!(ModifyErrorKind::HashMismatch.as_str(), "HashMismatch");
    assert_eq!(ModifyErrorKind::from_str("hashmismatch"), None);
}

#[test]
fn method_names_roundtrip() {
    for m in [Method::ReadProject, Method::ModifyProject] {
        assert_eq!(Method::from_str(m.as_str()), Some(m));
    }
    assert_eq!(Method::from_str("DeleteProject"), None);
}

#[test]
fn text_written_then_read_is_unchanged() {
    for t in ["a\nb  \n\n", "single  ", "", "\n\n", "x\n"] {
        let written = TextRaw(t.to_string()).to_written();
        let read = TextRaw::from_read(written.clone());
        assert_eq!(read.0, written);
    }
}

#[test]
fn code_places_are_found_by_key() {
    let code = vec![
        (
            Name::from_str("SPC-a").unwrap(),
            ImplCodeSer {
                primary: Some(CodeLocSer { file: "src/a.rs".to_string(), line: 3 }),
                secondary: vec![(
                    SubName::from_str(".tst").unwrap(),
                    CodeLocSer { file: "src/b.rs".to_string(), line: 7 },
                )],
            },
        ),
        (
            Name::from_str("SPC-b").unwrap(),
            ImplCodeSer { primary: None, secondary: vec![] },
        ),
    ];
    let c = get_impl(&code, "spc-A", None).unwrap();
    assert_eq!((c.file.as_str(), c.line), ("src/a.rs", 3));
    let c = get_impl(&code, "SPC-a", Some(".TST")).unwrap();
    assert_eq!((c.file.as_str(), c.line), ("src/b.rs", 7));
    assert_eq!(get_impl(&code, "SPC-b", None).unwrap_err(), "not implemented");
    assert_eq!(get_impl(&code, "SPC-c", None).unwrap_err(), "SPC-c not implemented");
    assert_eq!(get_impl(&code, "SPC-a", Some(".no")).unwrap_err(), "SPC-a..no not implemented");
    assert_eq!(get_impl(&code, "bad", None).unwrap_err(), "Name is invalid: bad");
    assert_eq!(get_impl(&code, "SPC-a", Some("x")).unwrap_err(), "x is not a valid subname");
}

#[test]
fn lint_level_and_category_names_roundtrip() {
    for l in [Level::Error, Level::Warn] {
        assert_eq!(Level::from_str(l.as_str()), Some(l));
    }
    assert_eq!(Level::Warn.as_str(), "Warn");
    assert_eq!(Level::from_str("warn"), None);
    let cats = [
        Category::LoadPaths,
        Category::ParseCodeImplementations,
        Category::ParseArtifactFiles,
        Category::AutoPartof,
        Category::Artifact,
        Category::Settings,
        Category::ImplCode,
        Category::ModifyPathInvalid,
        Category::CreateExists,
        Category::UpdateNoop,
        Category::UpdateDne,
        Category::DeleteDne,
        Category::IdOverlap,
        Category::CreateBackups,
        Category::SaveProject,
        Category::RemoveBackups,
    ];
    for c in cats {
        assert_eq!(Category::from_str(c.as_str()), Some(c));
    }
    assert_eq!(Category::ParseArtifactFiles.as_str(), "ParseArtifactFiles");
    assert_eq!(Category::from_str("Nope"), None);
}

#[test]
fn hash_ids_as_url_safe_base64() {
    let mut bytes = [0u8; 16];
    for (i, b) in bytes.iter_mut().enumerate() {
        *b = (i as u8) * 17 + 250u8.wrapping_mul(i as u8);
    }
    let id = HashIm(bytes);
    let text = id.to_base64();
    assert_eq!(text, base64::encode_config(&bytes, base64::URL_SAFE_NO_PAD));
    assert!(!text.contains('=') && !text.contains('+') && !text.contains('/'));
    assert_eq!(HashIm::from_base64(&text).unwrap().0, bytes);
    assert_eq!(HashIm([0u8; 16]).to_base64(), "AAAAAAAAAAAAAAAAAAAAAA");
    let short = HashIm::from_base64("AQI").unwrap();
    assert_eq!(short.0[..3], [1u8, 2, 0]);
    assert!(HashIm::from_base64("!!").is_err());
    let long = base64::encode_config(&[1u8; 20], base64::URL_SAFE_NO_PAD);
    assert_eq!(HashIm::from_base64(&long).unwrap_err(), "hash id is longer than 16 bytes");
}
