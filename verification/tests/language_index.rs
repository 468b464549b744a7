use linguist_termcolor::error::Error;
use linguist_termcolor::index::{ColorMap, LangEntry, Linguist, TermColor};

fn entry(name: &str, color: Option<&str>, aliases: &[&str], extensions: &[&str]) -> LangEntry {
    LangEntry {
        name: name.to_string(),
        color: color.map(|c| c.to_string()),
        aliases: aliases.iter().map(|s| s.to_string()).collect(),
        extensions: extensions.iter().map(|s| s.to_string()).collect(),
    }
}

fn sample() -> Linguist {
    Linguist::from_entries(vec![
        entry("Rust", Some("#dea584"), &["rs"], &[".rs"]),
        entry("Python", Some("#3572a5"), &["python3", "rusthon"], &[".py"]),
        entry("JavaScript", Some("#f1e05a"), &["js", "node"], &[".js"]),
        entry("Roff", None, &["groff"], &[".roff"]),
    ])
}

fn index() -> ColorMap {
    sample().colors().expect("sample dataset parses")
}

fn pairs(res: Vec<(String, TermColor)>) -> Vec<(String, u32)> {
    res.into_iter().map(|(n, c)| (n, c.rgb())).collect()
}

#[test]
fn round_trip_by_canonical_name() {
    let cm = index();
    assert_eq!(pairs(cm.query("Rust")), vec![("rust".to_string(), 0xdea584)]);
    assert_eq!(pairs(cm.query("rust")), vec![("rust".to_string(), 0xdea584)]);
}

#[test]
fn query_by_alias_and_extension() {
    let cm = index();
    assert_eq!(pairs(cm.query("rs")), vec![("rust".to_string(), 0xdea584)]);
    assert_eq!(pairs(cm.query(".py")), vec![("python".to_string(), 0x3572a5)]);
    assert_eq!(pairs(cm.query("node")), vec![("javascript".to_string(), 0xf1e05a)]);
}

#[test]
fn query_is_case_insensitive() {
    let cm = index();
    assert_eq!(pairs(cm.query("RUST")), pairs(cm.query("rust")));
    assert_eq!(pairs(cm.query("PyThOn")), pairs(cm.query("python")));
    assert_eq!(pairs(cm.query("JS")), pairs(cm.query("js")));
}

#[test]
fn multi_token_query_unions_ordered_by_name() {
    let cm = index();
    assert_eq!(pairs(cm.query("rust and python")), vec![
        ("python".to_string(), 0x3572a5),
        ("rust".to_string(), 0xdea584)
    ]);
}

#[test]
fn duplicate_matches_are_deduplicated_by_name() {
    let cm = index();
    // "rust" and "rs" both name the same entry; "rusthon" names another
    assert_eq!(pairs(cm.query("rust rs rusthon")), vec![
        ("python".to_string(), 0x3572a5),
        ("rust".to_string(), 0xdea584)
    ]);
}

#[test]
fn unknown_tokens_yield_empty_result() {
    let cm = index();
    assert_eq!(pairs(cm.query("cobol")), Vec::new());
    assert_eq!(pairs(cm.query("")), Vec::new());
    assert_eq!(pairs(cm.query("?!")), Vec::new());
}

#[test]
fn colorless_entries_are_not_indexed() {
    let cm = index();
    assert_eq!(pairs(cm.query("roff")), Vec::new());
    assert_eq!(pairs(cm.query("groff")), Vec::new());
}

#[test]
fn build_is_deterministic() {
    let a = sample().colors().unwrap();
    let b = sample().colors().unwrap();
    assert_eq!(pairs(a.query("rust python js")), pairs(b.query("rust python js")));
    assert_eq!(pairs(a.query("rust")), pairs(a.query("rust")));
}

#[test]
fn malformed_color_fails_whole_build() {
    let lg = Linguist::from_entries(vec![
        entry("Rust", Some("#dea584"), &[], &[]),
        entry("Broken", Some("dea584"), &[], &[]),
    ]);
    assert_eq!(lg.colors().err(), Some(Error::DatasetParse));

    let lg = Linguist::from_entries(vec![entry("Broken", Some("#dea58g"), &[], &[])]);
    assert!(lg.colors().is_err());
}

#[test]
fn term_color_exposes_hex() {
    let cm = index();
    let res = cm.query("rust");
    assert_eq!(res.len(), 1);
    assert_eq!(res[0].1.hex(), "#dea584");
    assert_eq!(TermColor::from_rgb(0x3572a5).hex(), "#3572a5");
}
