use artifact::markdown::{
    connect_names_dot, dne_name_dot, format_code_url, html_code_url, html_file_url, strfmt_code_url,
    subname_raw, u64_to_string, wrap_dot,
};
use artifact::ser::{CodeLocSer, SettingsExport, SettingsSer};
use artifact::name::{Name, SubName};

#[test]
fn code_url_is_formatted() {
    let url = strfmt_code_url("https://example.com/{file}#L{line}", "src/a.rs", 2).unwrap();
    assert_eq!(url, "https://example.com/src/a.rs#L3");
}

#[test]
fn code_url_with_unknown_key_is_an_error() {
    let err = strfmt_code_url("https://example.com/{nope}", "src/a.rs", 0).unwrap_err();
    assert!(err.starts_with("error formatting url=https://example.com/{nope} error="));
}

#[test]
fn numbers_are_written_in_decimal() {
    assert_eq!(u64_to_string(0), "0");
    assert_eq!(u64_to_string(907), "907");
    assert_eq!(u64_to_string(u64::MAX), u64::MAX.to_string());
}

#[test]
fn dot_edges_and_graphs() {
    let a = Name::from_str("REQ-a").unwrap();
    let b = Name::from_str("spc-b").unwrap();
    assert_eq!(connect_names_dot(&a, &b), "        \"REQ-A\" -> \"SPC-B\"\n");
    let g = wrap_dot("X", true);
    assert!(g.contains("randir=LR;"));
    assert!(g.contains("\n        X\n"));
    assert!(!wrap_dot("X", false).contains("randir"));
}

#[test]
fn subname_nodes_take_given_or_gray_attrs() {
    let sub = SubName::from_str(".tst-foo").unwrap();
    let gray = subname_raw(&sub, None);
    assert_eq!(
        gray,
        "\n        {\n            \".TST-FOO\" [\n                label=\".tst-foo\";\n                fontsize=12; margin=0.15;\n                shape=cds;\n                style=filled; fillcolor=\"#DCDEE2\";\n            ]\n        }\n        "
    );
    let blue = subname_raw(&sub, Some("penwidth=1.5; fontcolor=\"#0074D9\""));
    assert!(blue.contains("                penwidth=1.5; fontcolor=\"#0074D9\";\n"));
    assert!(!blue.contains("DCDEE2"));
}

#[test]
fn missing_names_are_pink() {
    let name = Name::from_str("REQ-gone").unwrap();
    let sub = SubName::from_str(".part").unwrap();
    let with_sub = dne_name_dot(&name, Some(&sub));
    assert!(with_sub.starts_with("\n        {\n            \"REQ-GONE.PART\" [\n"));
    assert!(with_sub.contains("label=<<b>REQ-gone.part</b>>;"));
    assert!(with_sub.contains("fillcolor=pink;"));
    assert!(with_sub.contains("tooltip=\"Name not found\";"));
    let bare = dne_name_dot(&name, None);
    assert!(bare.contains("\"REQ-GONE\" ["));
    assert!(bare.contains("label=<<b>REQ-gone</b>>;"));
}

fn settings_ser() -> SettingsSer {
    SettingsSer {
        base: "/p".to_string(),
        settings_path: "/p/.art/settings.toml".to_string(),
        code_paths: vec![],
        exclude_code_paths: vec![],
        artifact_paths: vec![],
        exclude_artifact_paths: vec![],
        code_url: None,
        export: SettingsExport::default(),
    }
}

#[test]
fn code_and_file_urls() {
    let st = settings_ser();
    let code = CodeLocSer { file: "/p/src/a.rs".to_string(), line: 4 };
    let fmt = Some("https://x.org/{file}#L{line}".to_string());
    assert_eq!(format_code_url(&st, "u/{file}/{line}", &code).unwrap(), "u/src/a.rs/5");
    assert_eq!(html_code_url(&st, &None, &code).unwrap(), "src/a.rs[4]");
    assert_eq!(
        html_code_url(&st, &fmt, &code).unwrap(),
        "<a href=\"https://x.org/src/a.rs#L5\">src/a.rs[4]</a>"
    );
    assert_eq!(html_file_url(&st, &None, "/p/design/a.md").unwrap(), "design/a.md");
    assert_eq!(
        html_file_url(&st, &fmt, "/p/design/a.md").unwrap(),
        "<a href=\"https://x.org/design/a.md#L1\">design/a.md</a>"
    );
    let bad = Some("{nope}".to_string());
    assert!(html_file_url(&st, &bad, "/p/a.md").unwrap_err().starts_with("error formatting url={nope} error="));
}
