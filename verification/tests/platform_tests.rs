use typora::platform::{change_kind, parse_front_matter, FileChangeKind, FrontMatterKind, PlatformError};

#[test]
fn parses_yaml_front_matter() {
    let fm = parse_front_matter("---\ntitle: Hello\ntags:\n  - rust\n---\n# Body")
        .unwrap()
        .unwrap();
    assert_eq!(fm.kind, FrontMatterKind::Yaml);
    assert_eq!(fm.value["title"], "Hello");
    assert!(fm.body_start_byte > 0);
}

#[test]
fn parses_toml_front_matter() {
    let fm = parse_front_matter("+++\ntitle = \"Hello\"\n+++\nBody")
        .unwrap()
        .unwrap();
    assert_eq!(fm.value["title"], "Hello");
}

#[test]
fn front_matter_body_offset_counts_bytes() {
    let text = ";;;\r\n{\"é\": 1}\r\n;;;\r\nBody";
    let fm = parse_front_matter(text).unwrap().unwrap();
    assert_eq!(fm.kind, FrontMatterKind::Json);
    assert_eq!(fm.value["é"], 1);
    assert_eq!(&text[fm.body_start_byte..], "Body");
}

#[test]
fn front_matter_needs_an_opening_and_a_closing_line() {
    assert!(parse_front_matter("no front matter").unwrap().is_none());
    assert!(parse_front_matter("# Title\n---\n").unwrap().is_none());
    assert!(parse_front_matter("---\ntitle: x\n---").unwrap().is_none());
    assert!(parse_front_matter("---\ntitle: x\n").unwrap().is_none());
}

#[test]
fn front_matter_parse_errors_are_reported() {
    match parse_front_matter("---\n: : [\n---\nbody") {
        Err(PlatformError::FrontMatter(message)) => assert!(!message.is_empty()),
        other => panic!("expected a front matter error, got {other:?}"),
    }
    match parse_front_matter(";;;\n{oops\n;;;\n") {
        Err(PlatformError::FrontMatter(message)) => assert!(!message.is_empty()),
        other => panic!("expected a front matter error, got {other:?}"),
    }
}

#[test]
fn file_change_kinds() {
    assert_eq!(change_kind(true, true), FileChangeKind::Modified);
    assert_eq!(change_kind(false, true), FileChangeKind::Removed);
    assert_eq!(change_kind(false, false), FileChangeKind::Other);
}

#[test]
fn toml_front_matter_kind_and_body_offset() {
    let text = "+++\ntitle = \"Hello\"\ndate = 2024-01-02\n+++\nBody";
    let fm = parse_front_matter(text).unwrap().unwrap();
    assert_eq!(fm.kind, FrontMatterKind::Toml);
    assert_eq!(&text[fm.body_start_byte..], "Body");
    assert_eq!(fm.value["title"], "Hello");
}
