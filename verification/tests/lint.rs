use artifact::lint::{Categorized, Category, Level, Lint};

fn lint(level: Level, msg: &str) -> Lint {
    Lint { level, path: None, line: None, category: Category::Artifact, msg: msg.to_string() }
}

fn msgs(v: &[Lint]) -> Vec<String> {
    v.iter().map(|l| l.msg.clone()).collect()
}

#[test]
fn is_empty_tells_whether_there_are_lints() {
    let mut l = Categorized::default();
    assert!(!l.is_empty());
    l.categorize(vec![lint(Level::Warn, "w")]);
    assert!(l.is_empty());
}

#[test]
fn sorting_twice_is_sorting_once() {
    let mut l = Categorized::default();
    l.categorize(vec![
        lint(Level::Error, "b"),
        lint(Level::Error, "a"),
        lint(Level::Error, "b"),
        lint(Level::Warn, "z"),
        lint(Level::Warn, "y"),
    ]);
    l.sort();
    assert_eq!(msgs(&l.error), vec!["a", "b"]);
    assert_eq!(msgs(&l.other), vec!["y", "z"]);
    let (e, o) = (msgs(&l.error), msgs(&l.other));
    l.sort();
    assert_eq!(msgs(&l.error), e);
    assert_eq!(msgs(&l.other), o);
}
